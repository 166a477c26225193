//! Configuration model, key resolution and input-event logic for the
//! Logitech G13 keypad: profiles and bindings, source/output key codes,
//! the keypad and thumbstick event mappers, the LCD frame buffer and
//! the RGB backlight helpers.

pub mod text;
pub mod strmap;
pub mod config;
pub mod keys;
pub mod codemap;
pub mod keypad;
pub mod stick;
pub mod lcd;
pub mod backlight;
pub mod editor;
