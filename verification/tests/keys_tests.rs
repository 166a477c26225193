use g13_suite::stick::{
    ABS_X, ABS_Y, BTN_BASE, BTN_BASE2, BTN_EAST, BTN_NORTH, BTN_SELECT, BTN_SOUTH, BTN_START, BTN_THUMB,
    BTN_THUMB2, BTN_THUMBL, BTN_THUMBR, BTN_TL, BTN_TR, BTN_WEST,
};
use g13_suite::keys::{key_name_for, output_key, source_code, source_code_upper, KeyError, G_KEY_BASE};

#[test]
fn g_keys_map_from_base() {
    assert_eq!(source_code("G1"), Ok(G_KEY_BASE));
    assert_eq!(source_code("g22"), Ok(677));
    assert_eq!(source_code(" G15 "), Ok(670));
    assert_eq!(source_code("G+5"), Ok(660));
    assert_eq!(source_code("G05"), Ok(660));
}

#[test]
fn g_key_errors() {
    assert_eq!(source_code("G0"), Err(KeyError::GKeyOutOfRange));
    assert_eq!(source_code("G23"), Err(KeyError::GKeyOutOfRange));
    assert_eq!(source_code("Gx"), Err(KeyError::BadGKey));
    assert_eq!(source_code("G"), Err(KeyError::BadGKey));
    assert_eq!(source_code("G70000"), Err(KeyError::BadGKey));
}

#[test]
fn named_source_keys() {
    assert_eq!(source_code("MR"), Ok(0x2b0));
    assert_eq!(source_code("m1"), Ok(0x2b3));
    assert_eq!(source_code("M2"), Ok(0x2b4));
    assert_eq!(source_code("M3"), Ok(0x2b5));
    assert_eq!(source_code("L1"), Ok(0x2b8));
    assert_eq!(source_code("l4"), Ok(0x2bb));
    assert_eq!(source_code("light"), Ok(0x21e));
    assert_eq!(source_code("X"), Err(KeyError::UnknownSource));
    assert_eq!(source_code(""), Err(KeyError::UnknownSource));
    assert_eq!(source_code_upper("light"), Err(KeyError::UnknownSource));
}

#[test]
fn output_keys_resolve_through_evdev() {
    assert_eq!(output_key("SPACE"), Ok(57));
    assert_eq!(output_key("key_space"), Ok(57));
    assert_eq!(output_key(" 1 "), Ok(2));
    assert_eq!(output_key("LEFTCTRL"), Ok(29));
    assert_eq!(output_key("a"), Ok(30));
    assert_eq!(output_key("BTN_SOUTH"), Ok(0x130));
    assert_eq!(output_key("NOPE"), Err(KeyError::UnknownOutput));
    assert_eq!(output_key(""), Err(KeyError::UnknownOutput));
}

#[test]
fn key_name_candidates() {
    assert_eq!(key_name_for("A"), "KEY_A");
    assert_eq!(key_name_for("KEY_A"), "KEY_A");
    assert_eq!(key_name_for("BTN_EAST"), "BTN_EAST");
    assert_eq!(key_name_for(""), "KEY_");
}

#[test]
fn codes_match_evdev() {
    assert_eq!(evdev::Key::BTN_THUMB.code(), BTN_THUMB);
    assert_eq!(evdev::Key::BTN_THUMB2.code(), BTN_THUMB2);
    assert_eq!(evdev::Key::BTN_BASE.code(), BTN_BASE);
    assert_eq!(evdev::Key::BTN_BASE2.code(), BTN_BASE2);
    assert_eq!(evdev::Key::BTN_SOUTH.code(), BTN_SOUTH);
    assert_eq!(evdev::Key::BTN_EAST.code(), BTN_EAST);
    assert_eq!(evdev::Key::BTN_NORTH.code(), BTN_NORTH);
    assert_eq!(evdev::Key::BTN_WEST.code(), BTN_WEST);
    assert_eq!(evdev::Key::BTN_TL.code(), BTN_TL);
    assert_eq!(evdev::Key::BTN_TR.code(), BTN_TR);
    assert_eq!(evdev::Key::BTN_SELECT.code(), BTN_SELECT);
    assert_eq!(evdev::Key::BTN_START.code(), BTN_START);
    assert_eq!(evdev::Key::BTN_THUMBL.code(), BTN_THUMBL);
    assert_eq!(evdev::Key::BTN_THUMBR.code(), BTN_THUMBR);
    assert_eq!(G_KEY_BASE, 0x290);
    assert_eq!(evdev::AbsoluteAxisType::ABS_X.0, ABS_X);
    assert_eq!(evdev::AbsoluteAxisType::ABS_Y.0, ABS_Y);
}
