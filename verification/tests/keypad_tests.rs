use g13_suite::config::{Config, Profile};
use g13_suite::keypad::{compile_chord, KeyMap};
use g13_suite::keys::KeyError;

fn config() -> Config {
    let mut c = Config::default();
    let mut d = Profile::default();
    d.color = Some("10,20,30".into());
    d.keys.insert("G1".into(), "LEFTCTRL+1".into());
    d.keys.insert("G2".into(), "SPACE".into());
    c.profiles.insert("default".into(), d);
    let mut other = Profile::default();
    other.keys.insert("G1".into(), "B".into());
    c.profiles.insert("other".into(), other);
    c.profile_keys.insert("M1".into(), "default".into());
    c.profile_keys.insert("M2".into(), "other".into());
    c.profile_keys.insert("L1".into(), "missing".into());
    c
}

#[test]
fn chords_split_on_plus() {
    assert_eq!(compile_chord("LEFTCTRL+1").unwrap(), vec![29, 2]);
    assert_eq!(compile_chord("SPACE").unwrap(), vec![57]);
    assert_eq!(compile_chord("A+NOPE").unwrap_err(), (1, KeyError::UnknownOutput));
    assert_eq!(compile_chord("").unwrap_err(), (0, KeyError::UnknownOutput));
}

#[test]
fn compiles_profiles_and_switches() {
    let km = KeyMap::new(&config()).ok().unwrap();
    assert_eq!(km.active, "default");
    assert_eq!(km.profiles.len(), 2);
    assert_eq!(km.profiles.get("default").unwrap().get(656).unwrap(), &vec![29, 2]);
    assert_eq!(km.profiles.get("other").unwrap().get(656).unwrap(), &vec![48]);
    assert_eq!(km.profile_switch.get(0x2b3).unwrap(), "default");
    assert_eq!(km.profile_switch.get(0x2b4).unwrap(), "other");
    assert_eq!(km.colors.get("default"), Some(&(10, 20, 30)));
    assert_eq!(km.colors.get("other"), None);
    let mut all = km.all_keys.clone();
    all.sort();
    all.dedup();
    assert_eq!(all, vec![2, 29, 48, 57]);
    assert_eq!(km.mkey_profiles, vec![("M1".to_string(), "default".to_string()), ("M2".to_string(), "other".to_string())]);
}

#[test]
fn press_and_release_hold_the_chord() {
    let mut km = KeyMap::new(&config()).ok().unwrap();
    let down = km.handle(656, 1);
    assert_eq!(down.events, vec![(29, 1), (2, 1)]);
    assert!(!down.switched);
    let repeat = km.handle(656, 2);
    assert!(repeat.events.is_empty());
    let up = km.handle(656, 0);
    assert_eq!(up.events, vec![(2, 0), (29, 0)]);
    assert!(km.handle(700, 1).events.is_empty());
}

#[test]
fn mkeys_switch_existing_profiles() {
    let mut km = KeyMap::new(&config()).ok().unwrap();
    let sw = km.handle(0x2b4, 1);
    assert!(sw.switched && sw.events.is_empty());
    assert_eq!(km.active, "other");
    assert_eq!(km.handle(656, 1).events, vec![(48, 1)]);
    let released = km.handle(0x2b4, 0);
    assert!(!released.switched && released.events.is_empty());
    let to_missing = km.handle(0x2b8, 1);
    assert!(!to_missing.switched);
    assert_eq!(km.active, "other");
    let (color, leds) = km.indicators();
    assert_eq!(color, None);
    assert_eq!(leds, vec![("M1".to_string(), false), ("M2".to_string(), true)]);
    km.handle(0x2b3, 1);
    let (color, leds) = km.indicators();
    assert_eq!(color, Some((10, 20, 30)));
    assert_eq!(leds, vec![("M1".to_string(), true), ("M2".to_string(), false)]);
}

#[test]
fn first_profile_is_active_without_default() {
    let mut c = Config::default();
    let mut b = Profile::default();
    b.keys.insert("G3".into(), "C".into());
    c.profiles.insert("zeta".into(), b);
    c.profiles.insert("alpha".into(), Profile::default());
    let km = KeyMap::new(&c).ok().unwrap();
    assert_eq!(km.active, "alpha");
}

#[test]
fn last_name_wins_for_one_source() {
    let mut c = Config::default();
    let mut d = Profile::default();
    d.keys.insert("G1".into(), "A".into());
    d.keys.insert("g1".into(), "B".into());
    c.profiles.insert("default".into(), d);
    let km = KeyMap::new(&c).ok().unwrap();
    assert_eq!(km.profiles.get("default").unwrap().get(656).unwrap(), &vec![48]);
}

#[test]
fn bad_bindings_are_reported() {
    let mut c = Config::default();
    let mut d = Profile::default();
    d.keys.insert("G99".into(), "A".into());
    c.profiles.insert("default".into(), d);
    let e = KeyMap::new(&c).err().unwrap();
    assert_eq!(e.kind, KeyError::GKeyOutOfRange);
    assert_eq!(e.source, "G99");
    assert_eq!(e.profile, "default");

    let mut c = Config::default();
    let mut d = Profile::default();
    d.keys.insert("G1".into(), "A+WHAT".into());
    c.profiles.insert("default".into(), d);
    let e = KeyMap::new(&c).err().unwrap();
    assert_eq!(e.kind, KeyError::UnknownOutput);
    assert_eq!(e.part.as_deref(), Some("WHAT"));

    let mut c = Config::default();
    c.profile_keys.insert("Q".into(), "default".into());
    let e = KeyMap::new(&c).err().unwrap();
    assert_eq!(e.kind, KeyError::UnknownSource);
}

#[test]
fn first_failure_in_name_order_is_reported() {
    let mut c = Config::default();
    let mut b = Profile::default();
    b.keys.insert("G1".into(), "NOPE".into());
    c.profiles.insert("b".into(), b);
    let mut a = Profile::default();
    a.keys.insert("G2".into(), "ALSO_NOPE".into());
    a.keys.insert("G10".into(), "A+STILL_NOPE+B".into());
    c.profiles.insert("a".into(), a);
    c.profile_keys.insert("X9".into(), "a".into());
    let e = KeyMap::new(&c).err().unwrap();
    assert_eq!(e.profile, "a");
    assert_eq!(e.source, "G10");
    assert_eq!(e.part.as_deref(), Some("STILL_NOPE"));
    assert_eq!(e.kind, KeyError::UnknownOutput);

    let mut c = Config::default();
    c.profile_keys.insert("M1".into(), "default".into());
    c.profile_keys.insert("G0".into(), "default".into());
    c.profile_keys.insert("Gx".into(), "default".into());
    let e = KeyMap::new(&c).err().unwrap();
    assert_eq!(e.profile, "");
    assert_eq!(e.source, "G0");
    assert_eq!(e.part, None);
    assert_eq!(e.kind, KeyError::GKeyOutOfRange);
}

#[test]
fn release_after_switch_releases_what_was_pressed() {
    let mut km = KeyMap::new(&config()).ok().unwrap();
    assert_eq!(km.handle(656, 1).events, vec![(29, 1), (2, 1)]);
    let sw = km.handle(0x2b4, 1);
    assert!(sw.switched);
    assert_eq!(km.active, "other");
    assert_eq!(km.handle(656, 2).events, vec![]);
    assert_eq!(km.handle(656, 0).events, vec![(2, 0), (29, 0)]);
    assert!(km.held.get(656).is_none());
    assert_eq!(km.handle(656, 0).events, vec![(48, 0)]);
    assert_eq!(km.handle(656, 1).events, vec![(48, 1)]);
    assert_eq!(km.handle(656, 1).events, vec![(48, 1)]);
    assert_eq!(km.held.get(656), Some(&vec![48]));
    km.handle(0x2b3, 1);
    assert_eq!(km.handle(656, 1).events, vec![(29, 1), (2, 1)]);
    assert_eq!(km.held.get(656), Some(&vec![48, 29, 2]));
    assert_eq!(km.handle(656, 0).events, vec![(2, 0), (29, 0), (48, 0)]);
    assert!(km.held.get(656).is_none());
}
