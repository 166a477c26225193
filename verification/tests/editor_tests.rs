use g13_suite::config::{Config, Profile};

fn with_profiles(names: &[&str]) -> Config {
    let mut c = Config::default();
    for n in names {
        c.profiles.insert(n.to_string(), Profile::default());
    }
    c
}

#[test]
fn prepare_folds_shorthand() {
    let mut c = Config::default();
    let mut d = Profile::default();
    d.keys.insert("G1".into(), "A".into());
    c.profiles.insert("default".into(), d);
    c.bindings.insert("G1".into(), "B".into());
    c.bindings.insert("G2".into(), "C".into());
    let active = c.prepare_for_editing();
    assert_eq!(active, "default");
    assert!(c.bindings.is_empty());
    let d = c.profiles.get("default").unwrap();
    assert_eq!(d.keys.get("G1").unwrap(), "A");
    assert_eq!(d.keys.get("G2").unwrap(), "C");

    let mut empty = Config::default();
    assert_eq!(empty.prepare_for_editing(), "default");
    assert_eq!(empty.profiles.len(), 1);

    let mut other = with_profiles(&["b", "a"]);
    assert_eq!(other.prepare_for_editing(), "a");
}

#[test]
fn new_profiles_take_free_names() {
    let mut c = with_profiles(&["default", "profile1", "profile3"]);
    assert_eq!(c.new_profile(), "profile2");
    assert_eq!(c.new_profile(), "profile4");
    assert_eq!(c.profiles.len(), 5);
    assert!(c.profiles.get("profile2").unwrap().keys.is_empty());
}

#[test]
fn delete_removes_switches() {
    let mut c = with_profiles(&["a", "b"]);
    c.profile_keys.insert("M1".into(), "a".into());
    c.profile_keys.insert("M2".into(), "b".into());
    assert_eq!(c.delete_profile("a").as_deref(), Some("b"));
    assert!(!c.profiles.contains_key("a"));
    assert!(!c.profile_keys.contains_key("M1"));
    assert_eq!(c.profile_keys.get("M2").unwrap(), "b");
    assert_eq!(c.delete_profile("b"), None);
    assert!(c.profiles.contains_key("b"));
}

#[test]
fn rename_moves_profile_and_switches() {
    let mut c = with_profiles(&["a", "b"]);
    c.profile_keys.insert("M1".into(), "a".into());
    assert_eq!(c.rename_profile("a", "  c "), Some("c".to_string()));
    assert!(c.profiles.contains_key("c") && !c.profiles.contains_key("a"));
    assert_eq!(c.profile_keys.get("M1").unwrap(), "c");
    assert_eq!(c.rename_profile("c", "b"), None);
    assert_eq!(c.rename_profile("c", "   "), None);
    assert_eq!(c.rename_profile("c", "c"), None);
    assert_eq!(c.profiles.len(), 2);
}

#[test]
fn bindings_set_and_cleared() {
    let mut c = with_profiles(&["default"]);
    c.set_binding("default", "G1", " LEFTCTRL+1 ");
    assert_eq!(c.binding_text("default", "G1"), "LEFTCTRL+1");
    c.set_binding("default", "G1", "  ");
    assert_eq!(c.binding_text("default", "G1"), "");
    c.set_binding("nope", "G1", "A");
    assert!(!c.profiles.contains_key("nope"));
}

#[test]
fn colors_set_then_read() {
    let mut c = with_profiles(&["default"]);
    c.set_profile_color("default", Some((1, 22, 255)));
    assert_eq!(c.profiles.get("default").unwrap().color.as_deref(), Some("1,22,255"));
    assert_eq!(c.color_for("default"), Some((1, 22, 255)));
    c.set_profile_color("default", None);
    assert_eq!(c.color_for("default"), None);
}

#[test]
fn mkey_targets() {
    let mut c = with_profiles(&["x", "b"]);
    c.profile_keys.insert("M1".into(), "x".into());
    assert_eq!(c.mkey_target("M1").as_deref(), Some("x"));
    assert_eq!(c.mkey_target("M2").as_deref(), Some("b"));
    assert_eq!(Config::default().mkey_target("M2"), None);
}

#[test]
fn folding_keeps_what_the_daemon_reads() {
    let mut c = Config::default();
    let mut d = Profile::default();
    d.color = Some("1,2,3".into());
    d.keys.insert("G1".into(), "A".into());
    c.profiles.insert("default".into(), d);
    let mut x = Profile::default();
    x.color = Some("9,9,9".into());
    x.keys.insert("G4".into(), "D".into());
    c.profiles.insert("x".into(), x);
    c.bindings.insert("G1".into(), "B".into());
    c.bindings.insert("G2".into(), "C".into());
    let before = c.resolved();
    c.prepare_for_editing();
    let after = c.resolved();
    assert_eq!(before.len(), after.len());
    for name in ["default", "x"] {
        let (b, a) = (before.get(name).unwrap(), after.get(name).unwrap());
        assert_eq!(b.len(), a.len());
        for i in 0..b.len() {
            let (k, v) = b.entry_at(i);
            assert_eq!(a.get(k).unwrap(), v);
        }
    }
    assert_eq!(after.get("default").unwrap().get("G1").unwrap(), "A");
    assert_eq!(after.get("default").unwrap().get("G2").unwrap(), "C");
    assert_eq!(c.color_for("default"), Some((1, 2, 3)));
    assert_eq!(c.color_for("x"), Some((9, 9, 9)));

    let mut only_shorthand = Config::default();
    only_shorthand.bindings.insert("G5".into(), "E".into());
    only_shorthand.prepare_for_editing();
    assert_eq!(only_shorthand.resolved().get("default").unwrap().get("G5").unwrap(), "E");
    assert_eq!(only_shorthand.color_for("default"), None);
}
