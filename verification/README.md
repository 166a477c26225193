# g13-suite

Linux support for the Logitech G13 keypad on top of the kernel `lg-g15`
driver: a daemon that remaps the G-keys with true hold, switches profiles
with the M-keys, drives the thumbstick as keys or as a gamepad, shows
system statistics on the LCD and sets the RGB backlight; plus a native and
a web configurator.

## Layout

- `src/` — the library, written in Verus and verified. Every public
  function carries a contract; the laws of the library are public proof
  functions (`lemma_*`).
  - `text` — whitespace, trimming, splitting, decimal parsing/formatting.
  - `strmap`, `codemap` — ordered text-keyed and code-keyed maps.
  - `config` — the configuration model, colour parsing, bindings resolution.
  - `keys` — source key tokens and output key names to input codes.
  - `keypad` — compiled profiles, profile switching, true-hold key events.
  - `stick` — thumbstick keys mode and gamepad mode.
  - `lcd` — the LCD frame buffer and the statistics lines.
  - `backlight` — choice of the backlight LED and what to write to it.
  - `editor` — the edits the configurators make.
- `tests/` — tests of the library on concrete values.
- `app/` — the program around it: devices (evdev/uinput), sysfs and
  `/proc` I/O, TOML/JSON (serde), the egui window and the web server.
  Run `g13-suite [daemon] [CONFIG]`, `g13-suite config-ui` or
  `g13-suite gui`. The web page and the keypad picture are read from
  `G13_ASSETS` (default `/usr/share/g13-suite`).
