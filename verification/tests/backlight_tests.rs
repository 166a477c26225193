use g13_suite::backlight::{discover_choice, max_brightness, mkey_led, multi_intensity_payload, LedEntry};

fn entry(name: &str, multi: bool) -> LedEntry {
    LedEntry { name: name.to_string(), has_multi_intensity: multi }
}

#[test]
fn discover_prefers_rgb() {
    let entries = vec![
        entry("input5::capslock", false),
        entry("g13:red:macro_preset_1", false),
        entry("g15::kbd_backlight", false),
        entry("g13:rgb:kbd_backlight", false),
    ];
    assert_eq!(discover_choice(&entries), Some(3));
    let entries = vec![entry("G13::Backlight", false), entry("other", true)];
    assert_eq!(discover_choice(&entries), Some(0));
    let entries = vec![entry("g13:x:kbd", false), entry("g13::lamp", true)];
    assert_eq!(discover_choice(&entries), Some(1));
    assert_eq!(discover_choice(&vec![entry("phy0-led", true)]), None);
    assert_eq!(discover_choice(&vec![]), None);
}

#[test]
fn max_brightness_text() {
    assert_eq!(max_brightness(Some(" 255\n")), 255);
    assert_eq!(max_brightness(Some("100")), 100);
    assert_eq!(max_brightness(Some("x")), 255);
    assert_eq!(max_brightness(Some("")), 255);
    assert_eq!(max_brightness(None), 255);
}

#[test]
fn multi_intensity_order() {
    assert_eq!(multi_intensity_payload(Some("red green blue\n"), 1, 2, 3), "1 2 3");
    assert_eq!(multi_intensity_payload(Some("blue red"), 1, 2, 3), "3 1");
    assert_eq!(multi_intensity_payload(Some("red white"), 1, 2, 3), "1 0");
    assert_eq!(multi_intensity_payload(Some("  "), 10, 20, 30), "10 20 30");
    assert_eq!(multi_intensity_payload(None, 255, 0, 7), "255 0 7");
}

#[test]
fn mkey_leds() {
    assert_eq!(mkey_led(" m1 ").as_deref(), Some("/sys/class/leds/g13:red:macro_preset_1"));
    assert_eq!(mkey_led("M2").as_deref(), Some("/sys/class/leds/g13:red:macro_preset_2"));
    assert_eq!(mkey_led("M3").as_deref(), Some("/sys/class/leds/g13:red:macro_preset_3"));
    assert_eq!(mkey_led("mr").as_deref(), Some("/sys/class/leds/g13:red:macro_record"));
    assert_eq!(mkey_led("M4"), None);
}
