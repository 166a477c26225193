use g13_suite::config::Thumbstick;
use g13_suite::keys::KeyError;
use g13_suite::stick::{
    axis_keys, gamepad_buttons, scale, StickEvent, StickMap, ABS_X, ABS_Y, BTN_BASE, BTN_BASE2, BTN_EAST,
    BTN_SOUTH, BTN_THUMB, BTN_THUMB2, BTN_TL, BTN_TR,
};

#[test]
fn scale_dead_zone_and_range() {
    assert_eq!(scale(128, 50, false), 0);
    assert_eq!(scale(178, 50, false), 0);
    assert_eq!(scale(179, 50, false), 13158);
    assert_eq!(scale(255, 50, false), 32767);
    assert_eq!(scale(0, 50, false), -32768);
    assert_eq!(scale(200, 50, false), 18576);
    assert_eq!(scale(200, 50, true), -18576);
    assert_eq!(scale(56, 50, false), -18576);
    assert_eq!(scale(0, 50, true), 32768);
}

#[test]
fn axis_keys_press_and_release() {
    let (mut lo, mut hi) = (false, false);
    let mut batch = Vec::new();
    axis_keys(0, 50, false, 17, 31, &mut lo, &mut hi, &mut batch);
    assert_eq!(batch, vec![StickEvent::Key(17, 1)]);
    assert!(lo && !hi);
    axis_keys(10, 50, false, 17, 31, &mut lo, &mut hi, &mut batch);
    assert_eq!(batch.len(), 1);
    axis_keys(255, 50, false, 17, 31, &mut lo, &mut hi, &mut batch);
    assert_eq!(batch, vec![StickEvent::Key(17, 1), StickEvent::Key(17, 0), StickEvent::Key(31, 1)]);
    assert!(!lo && hi);
    axis_keys(128, 50, false, 17, 31, &mut lo, &mut hi, &mut batch);
    assert_eq!(batch.last(), Some(&StickEvent::Key(31, 0)));
    assert!(!lo && !hi);
}

#[test]
fn axis_keys_inverted() {
    let (mut lo, mut hi) = (false, false);
    let mut batch = Vec::new();
    axis_keys(0, 50, true, 17, 31, &mut lo, &mut hi, &mut batch);
    assert_eq!(batch, vec![StickEvent::Key(31, 1)]);
    assert!(!lo && hi);
    axis_keys(255, 50, true, 17, 31, &mut lo, &mut hi, &mut batch);
    assert_eq!(batch, vec![StickEvent::Key(31, 1), StickEvent::Key(17, 1), StickEvent::Key(31, 0)]);
    assert!(lo && !hi);
    axis_keys(128, 50, true, 17, 31, &mut lo, &mut hi, &mut batch);
    assert_eq!(batch.last(), Some(&StickEvent::Key(17, 0)));
    assert!(!lo && !hi);
}

#[test]
fn inverted_axis_mirrors_plain_axis() {
    for raw in 0..=255 {
        let (mut lo1, mut hi1, mut b1) = (false, false, Vec::new());
        let (mut lo2, mut hi2, mut b2) = (false, false, Vec::new());
        axis_keys(raw, 50, true, 17, 31, &mut lo1, &mut hi1, &mut b1);
        axis_keys(256 - raw, 50, false, 17, 31, &mut lo2, &mut hi2, &mut b2);
        assert_eq!((lo1, hi1, b1), (lo2, hi2, b2));
    }
}

#[test]
fn stick_from_default_config() {
    let s = StickMap::new(&Thumbstick::default()).unwrap();
    assert!(s.keys_mode);
    assert_eq!((s.keys.up, s.keys.down, s.keys.left, s.keys.right), (17, 31, 30, 32));
    assert_eq!(s.keys.thumb, None);
    assert_eq!(s.declared_keys(), vec![17, 31, 30, 32]);
}

#[test]
fn stick_config_errors() {
    let mut t = Thumbstick::default();
    t.down = "nothing".into();
    t.left = "nothing either".into();
    assert_eq!(StickMap::new(&t).err(), Some(KeyError::UnknownOutput));
    let mut t = Thumbstick::default();
    t.button1 = "SPACE".into();
    let s = StickMap::new(&t).unwrap();
    assert_eq!(s.keys.button1, Some(57));
    assert_eq!(s.declared_keys(), vec![17, 31, 30, 32, 57]);
}

#[test]
fn keys_mode_events() {
    let mut t = Thumbstick::default();
    t.thumb = "SPACE".into();
    let mut s = StickMap::new(&t).unwrap();
    let mut batch = Vec::new();
    s.handle_abs(ABS_Y, 0, &mut batch);
    assert_eq!(batch, vec![StickEvent::Key(17, 1)]);
    assert!(s.up_on);
    s.handle_abs(ABS_X, 255, &mut batch);
    assert_eq!(batch[1], StickEvent::Key(32, 1));
    s.handle_abs(5, 255, &mut batch);
    assert_eq!(batch.len(), 2);
    s.handle_key(BTN_THUMB, 1, &mut batch);
    assert_eq!(batch[2], StickEvent::Key(57, 1));
    s.handle_key(BTN_BASE, 1, &mut batch);
    assert_eq!(batch.len(), 3);
}

#[test]
fn gamepad_mode_events() {
    let mut t = Thumbstick::default();
    t.mode = "gamepad".into();
    t.invert_y = true;
    let mut s = StickMap::new(&t).unwrap();
    assert!(!s.keys_mode);
    let mut batch = Vec::new();
    s.handle_abs(ABS_X, 255, &mut batch);
    s.handle_abs(ABS_Y, 255, &mut batch);
    assert_eq!(batch, vec![StickEvent::Abs(ABS_X, 32767), StickEvent::Abs(ABS_Y, -32767)]);
    s.handle_key(BTN_THUMB, 1, &mut batch);
    s.handle_key(BTN_THUMB2, 0, &mut batch);
    s.handle_key(BTN_BASE, 1, &mut batch);
    s.handle_key(BTN_BASE2, 2, &mut batch);
    assert_eq!(&batch[2..], &[StickEvent::Key(BTN_SOUTH, 1), StickEvent::Key(BTN_EAST, 0), StickEvent::Key(BTN_TL, 1), StickEvent::Key(BTN_TR, 2)]);
    assert_eq!(gamepad_buttons().len(), 10);
}
