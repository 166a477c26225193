use g13_suite::config::{color_text, parse_color, Config, Profile, Thumbstick};
use g13_suite::strmap::StrMap;

fn profile(color: Option<&str>, keys: &[(&str, &str)]) -> Profile {
    let mut p = Profile::default();
    p.color = color.map(|c| c.to_string());
    for (k, v) in keys {
        p.keys.insert(k.to_string(), v.to_string());
    }
    p
}

#[test]
fn config_queries_after_edit() {
    let mut c = Config::default();
    let mut def = Profile::default();
    def.color = Some("10,20,30".into());
    def.keys.insert("G15".into(), "SPACE".into());
    def.keys.insert("G1".into(), "LEFTCTRL+1".into());
    c.profiles.insert("default".into(), def);
    c.profile_keys.insert("M1".into(), "default".into());
    c.thumbstick.left = "Q".into();

    assert_eq!(c.color_for("default"), Some((10, 20, 30)));
    let r = c.resolved();
    let d = r.get("default").unwrap();
    assert_eq!(d.get("G15").unwrap(), "SPACE");
    assert_eq!(d.get("G1").unwrap(), "LEFTCTRL+1");
    assert_eq!(c.profile_keys.get("M1").unwrap(), "default");
    assert_eq!(c.thumbstick.left, "Q");
}

#[test]
fn parse_color_accepts_three_channels() {
    assert_eq!(parse_color("10,20,30"), Some((10, 20, 30)));
    assert_eq!(parse_color(" 1 , 2 ,3 "), Some((1, 2, 3)));
    assert_eq!(parse_color("+5,0,255"), Some((5, 0, 255)));
    assert_eq!(parse_color("007,08,9"), Some((7, 8, 9)));
}

#[test]
fn parse_color_rejects_other_text() {
    assert_eq!(parse_color(""), None);
    assert_eq!(parse_color("1,2"), None);
    assert_eq!(parse_color("1,2,3,4"), None);
    assert_eq!(parse_color("256,0,0"), None);
    assert_eq!(parse_color("a,b,c"), None);
    assert_eq!(parse_color("-1,0,0"), None);
    assert_eq!(parse_color("1,,3"), None);
    assert_eq!(parse_color("+,1,2"), None);
}

#[test]
fn color_text_parses_back() {
    assert_eq!(color_text(10, 20, 30), "10,20,30");
    for (r, g, b) in [(0u8, 0u8, 0u8), (255, 255, 255), (9, 10, 99), (100, 7, 200)] {
        assert_eq!(parse_color(&color_text(r, g, b)), Some((r, g, b)));
    }
}

#[test]
fn color_for_missing_or_bad() {
    let mut c = Config::default();
    c.profiles.insert("a".into(), profile(None, &[]));
    c.profiles.insert("b".into(), profile(Some("1,2"), &[]));
    c.profiles.insert("c".into(), profile(Some("4,5,6"), &[]));
    assert_eq!(c.color_for("a"), None);
    assert_eq!(c.color_for("b"), None);
    assert_eq!(c.color_for("c"), Some((4, 5, 6)));
    assert_eq!(c.color_for("zzz"), None);
}

#[test]
fn resolved_empty_config_has_empty_default() {
    let c = Config::default();
    let r = c.resolved();
    assert_eq!(r.len(), 1);
    assert!(r.get("default").unwrap().is_empty());
}

#[test]
fn resolved_merges_shorthand_into_default() {
    let mut c = Config::default();
    c.profiles.insert("default".into(), profile(None, &[("G1", "A")]));
    c.profiles.insert("game".into(), profile(None, &[("G2", "B")]));
    c.bindings.insert("G1".into(), "Z".into());
    c.bindings.insert("G3".into(), "C".into());
    let r = c.resolved();
    assert_eq!(r.len(), 2);
    let d = r.get("default").unwrap();
    assert_eq!(d.get("G1").unwrap(), "A");
    assert_eq!(d.get("G3").unwrap(), "C");
    assert_eq!(d.len(), 2);
    let g = r.get("game").unwrap();
    assert_eq!(g.get("G2").unwrap(), "B");
    assert_eq!(g.len(), 1);
}

#[test]
fn resolved_shorthand_alone_makes_default() {
    let mut c = Config::default();
    c.bindings.insert("G5".into(), "SPACE".into());
    let r = c.resolved();
    assert_eq!(r.len(), 1);
    assert_eq!(r.get("default").unwrap().get("G5").unwrap(), "SPACE");
}

#[test]
fn thumbstick_defaults() {
    let t = Thumbstick::default();
    assert_eq!(t.mode, "keys");
    assert_eq!(t.deadzone, 50);
    assert!(!t.invert_x && !t.invert_y);
    assert_eq!((t.up.as_str(), t.down.as_str(), t.left.as_str(), t.right.as_str()), ("W", "S", "A", "D"));
    assert!(t.thumb.is_empty() && t.button1.is_empty() && t.button2.is_empty());
    assert_eq!(g13_suite::config::d_dz(), 50);
    assert_eq!(g13_suite::config::d_mode(), "keys");
}

#[test]
fn load_or_default_falls_back() {
    let c = Config::load_or_default(None);
    assert_eq!(c.profiles.len(), 0);
    assert_eq!(c.thumbstick.mode, "keys");
    let mut given = Config::default();
    given.thumbstick.mode = "gamepad".into();
    let c = Config::load_or_default(Some(given));
    assert_eq!(c.thumbstick.mode, "gamepad");
}

#[test]
fn strmap_keeps_key_order() {
    let mut m: StrMap<String> = StrMap::new();
    m.insert("b".into(), "2".into());
    m.insert("a".into(), "1".into());
    m.insert("c".into(), "3".into());
    m.insert("a".into(), "one".into());
    assert_eq!(m.len(), 3);
    assert_eq!(m.first_key().unwrap(), "a");
    assert_eq!(m.entry_at(0).1, "one");
    assert_eq!(m.entry_at(2).0, "c");
    assert_eq!(m.remove("b"), Some("2".to_string()));
    assert_eq!(m.remove("b"), None);
    assert!(!m.contains_key("b"));
    assert_eq!(m.len(), 2);
}
