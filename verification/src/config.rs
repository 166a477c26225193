//! The configuration model shared by the daemon and the configurators:
//! named profiles of key bindings with an optional backlight colour, the
//! `[bindings]` shorthand for the default profile, the thumbstick settings
//! and the M-keys that switch profiles.

use crate::strmap::{lemma_take_contains, StrMap};
use crate::text::{chars_of, decimal, push_char, lemma_decimal_lacks, lemma_decimal_digits, lemma_parse_decimal, lemma_split_on_append, lemma_split_on_lacks, lemma_trim_digits, push_decimal, parse_unsigned, parse_unsigned_range, split_on, split_ranges, trim, trim_range};
use vstd::prelude::*;

verus! {

broadcast use vstd::string::group_string_axioms;

/// The characters of an optional text.
pub open spec fn text_opt(s: Option<String>) -> Option<Seq<char>> {
    match s {
        Some(t) => Some(t@),
        None => None,
    }
}

/// A profile: key bindings plus an optional backlight colour.
pub struct Profile {
    /// `"r,g,b"` backlight colour for this profile (0..255 each), if any.
    pub color: Option<String>,
    /// Source key (G1..G22, M1.., L1..) to output (`KEY_SPACE`, `1`, `LEFTCTRL+1`).
    pub keys: StrMap<String>,
}

impl View for Profile {
    type V = (Option<Seq<char>>, Map<Seq<char>, Seq<char>>);

    open spec fn view(&self) -> (Option<Seq<char>>, Map<Seq<char>, Seq<char>>) {
        (text_opt(self.color), self.keys@)
    }
}

impl Default for Profile {
    fn default() -> (p: Self)
        ensures
            p.color is None,
            p.keys@ == Map::<Seq<char>, Seq<char>>::empty(),
    {
        Profile { color: None, keys: StrMap::new() }
    }
}

impl Clone for Profile {
    fn clone(&self) -> (p: Self)
        ensures
            p@ == self@,
            p.keys.keys() == self.keys.keys(),
    {
        let color = match &self.color {
            Some(c) => Some(c.clone()),
            None => None,
        };
        Profile { color, keys: self.keys.clone() }
    }
}

/// Thumbstick settings.
pub struct Thumbstick {
    /// `"keys"`, `"gamepad"` or `"off"`.
    pub mode: String,
    pub deadzone: i32,
    pub invert_x: bool,
    pub invert_y: bool,
    pub up: String,
    pub down: String,
    pub left: String,
    pub right: String,
    /// Binding of pressing the stick down; empty when unbound.
    pub thumb: String,
    /// Binding of the button left of the stick; empty when unbound.
    pub button1: String,
    /// Binding of the button below the stick; empty when unbound.
    pub button2: String,
}

/// The default thumbstick mode, `"keys"`.
pub fn d_mode() -> (s: String)
    ensures
        s@ == "keys"@,
{
    "keys".to_string()
}

/// The default dead zone.
pub fn d_dz() -> (d: i32)
    ensures
        d == 50,
{
    50
}

/// The default key for pushing the stick up.
pub fn d_up() -> (s: String)
    ensures
        s@ == "W"@,
{
    "W".to_string()
}

/// The default key for pulling the stick down.
pub fn d_down() -> (s: String)
    ensures
        s@ == "S"@,
{
    "S".to_string()
}

/// The default key for pushing the stick left.
pub fn d_left() -> (s: String)
    ensures
        s@ == "A"@,
{
    "A".to_string()
}

/// The default key for pushing the stick right.
pub fn d_right() -> (s: String)
    ensures
        s@ == "D"@,
{
    "D".to_string()
}

impl Default for Thumbstick {
    fn default() -> (t: Self)
        ensures
            t.mode@ == "keys"@,
            t.deadzone == 50,
            !t.invert_x,
            !t.invert_y,
            t.up@ == "W"@,
            t.down@ == "S"@,
            t.left@ == "A"@,
            t.right@ == "D"@,
            t.thumb@ == Seq::<char>::empty(),
            t.button1@ == Seq::<char>::empty(),
            t.button2@ == Seq::<char>::empty(),
    {
        Thumbstick {
            mode: d_mode(),
            deadzone: d_dz(),
            invert_x: false,
            invert_y: false,
            up: d_up(),
            down: d_down(),
            left: d_left(),
            right: d_right(),
            thumb: String::new(),
            button1: String::new(),
            button2: String::new(),
        }
    }
}

impl Clone for Thumbstick {
    fn clone(&self) -> (t: Self)
        ensures
            t.mode@ == self.mode@,
            t.deadzone == self.deadzone,
            t.invert_x == self.invert_x,
            t.invert_y == self.invert_y,
            t.up@ == self.up@,
            t.down@ == self.down@,
            t.left@ == self.left@,
            t.right@ == self.right@,
            t.thumb@ == self.thumb@,
            t.button1@ == self.button1@,
            t.button2@ == self.button2@,
    {
        Thumbstick {
            mode: self.mode.clone(),
            deadzone: self.deadzone,
            invert_x: self.invert_x,
            invert_y: self.invert_y,
            up: self.up.clone(),
            down: self.down.clone(),
            left: self.left.clone(),
            right: self.right.clone(),
            thumb: self.thumb.clone(),
            button1: self.button1.clone(),
            button2: self.button2.clone(),
        }
    }
}

/// The whole configuration.
pub struct Config {
    /// Named profiles; `"default"` is active at start.
    pub profiles: StrMap<Profile>,
    /// Single-profile shorthand, merged into the `"default"` profile.
    pub bindings: StrMap<String>,
    pub thumbstick: Thumbstick,
    /// Which source key switches to which profile, e.g. M1 = "default".
    pub profile_keys: StrMap<String>,
}

impl Default for Config {
    fn default() -> (c: Self)
        ensures
            c.profiles@ == Map::<Seq<char>, (Option<Seq<char>>, Map<Seq<char>, Seq<char>>)>::empty(),
            c.bindings@ == Map::<Seq<char>, Seq<char>>::empty(),
            c.profile_keys@ == Map::<Seq<char>, Seq<char>>::empty(),
            c.thumbstick.mode@ == "keys"@,
            c.thumbstick.deadzone == 50,
            !c.thumbstick.invert_x,
            !c.thumbstick.invert_y,
            c.thumbstick.up@ == "W"@,
            c.thumbstick.down@ == "S"@,
            c.thumbstick.left@ == "A"@,
            c.thumbstick.right@ == "D"@,
            c.thumbstick.thumb@ == Seq::<char>::empty(),
            c.thumbstick.button1@ == Seq::<char>::empty(),
            c.thumbstick.button2@ == Seq::<char>::empty(),
    {
        Config {
            profiles: StrMap::new(),
            bindings: StrMap::new(),
            thumbstick: Thumbstick::default(),
            profile_keys: StrMap::new(),
        }
    }
}

/// What one colour channel of `"r,g,b"` reads as: a number 0..=255,
/// surrounding white space allowed.
pub open spec fn color_channel(s: Seq<char>) -> Option<u8> {
    match parse_unsigned(trim(s), 255) {
        Some(n) => Some(n as u8),
        None => None,
    }
}

/// What `parse_color` makes of `s`: exactly three comma-separated channels,
/// each of which must read as a channel.
pub open spec fn color_of(s: Seq<char>) -> Option<(u8, u8, u8)> {
    let parts = split_on(s, ',');
    if parts.len() == 3 {
        match (color_channel(parts[0]), color_channel(parts[1]), color_channel(parts[2])) {
            (Some(r), Some(g), Some(b)) => Some((r, g, b)),
            _ => None,
        }
    } else {
        None
    }
}

fn channel_at(v: &Vec<char>, r: (usize, usize)) -> (c: Option<u8>)
    requires
        r.0 <= r.1 <= v.len(),
    ensures
        c == color_channel(v@.subrange(r.0 as int, r.1 as int)),
{
    let (a, b) = trim_range(v, r.0, r.1);
    match parse_unsigned_range(v, a, b, 255) {
        Some(n) => Some(n as u8),
        None => None,
    }
}

/// Parses an `"r,g,b"` colour.
pub fn parse_color(s: &str) -> (c: Option<(u8, u8, u8)>)
    ensures
        c == color_of(s@),
{
    let v = chars_of(s);
    let rs = split_ranges(&v, 0, v.len(), ',');
    assert(v@.subrange(0, v@.len() as int) =~= s@);
    if rs.len() != 3 {
        return None;
    }
    let ghost parts = split_on(s@, ',');
    assert(parts[0] == v@.subrange(rs@[0].0 as int, rs@[0].1 as int));
    assert(parts[1] == v@.subrange(rs@[1].0 as int, rs@[1].1 as int));
    assert(parts[2] == v@.subrange(rs@[2].0 as int, rs@[2].1 as int));
    let r = channel_at(&v, rs[0]);
    let g = channel_at(&v, rs[1]);
    let b = channel_at(&v, rs[2]);
    match (r, g, b) {
        (Some(r), Some(g), Some(b)) => Some((r, g, b)),
        _ => None,
    }
}


/// The text `"r,g,b"` of a colour.
pub open spec fn color_text_of(r: u8, g: u8, b: u8) -> Seq<char> {
    decimal(r as nat).push(',') + decimal(g as nat).push(',') + decimal(b as nat)
}

/// Formats a colour as `"r,g,b"`.
pub fn color_text(r: u8, g: u8, b: u8) -> (s: String)
    ensures
        s@ == color_text_of(r, g, b),
{
    let mut s = String::new();
    push_decimal(&mut s, r as u64);
    push_char(&mut s, ',');
    push_decimal(&mut s, g as u64);
    push_char(&mut s, ',');
    push_decimal(&mut s, b as u64);
    assert(s@ =~= color_text_of(r, g, b));
    s
}

/// Law: a colour written as `"r,g,b"` parses back to the same colour.
pub proof fn lemma_color_roundtrip(r: u8, g: u8, b: u8)
    ensures
        color_of(color_text_of(r, g, b)) == Some((r, g, b)),
{
    let dr = decimal(r as nat);
    let dg = decimal(g as nat);
    let db = decimal(b as nat);
    lemma_decimal_lacks(r as nat, ',');
    lemma_decimal_lacks(g as nat, ',');
    lemma_decimal_lacks(b as nat, ',');
    lemma_split_on_lacks(dr, ',');
    lemma_split_on_append(dr, ',', dg);
    assert(seq![dr].push(dg) =~= seq![dr, dg]);
    lemma_split_on_append(dr.push(',') + dg, ',', db);
    assert(dr.push(',') + dg.push(',') + db =~= (dr.push(',') + dg).push(',') + db);
    assert(seq![dr, dg].push(db) =~= seq![dr, dg, db]);
    lemma_decimal_digits(r as nat);
    lemma_decimal_digits(g as nat);
    lemma_decimal_digits(b as nat);
    lemma_trim_digits(dr);
    lemma_trim_digits(dg);
    lemma_trim_digits(db);
    lemma_parse_decimal(r as nat, 255);
    lemma_parse_decimal(g as nat, 255);
    lemma_parse_decimal(b as nat, 255);
}

/// The name of the default profile.
pub open spec fn default_name() -> Seq<char> {
    "default"@
}

/// The bindings of every profile by name, with the `[bindings]` shorthand
/// merged into `"default"` (a profile's own binding of a key wins over the
/// shorthand), and an empty `"default"` when there would be no profile.
pub open spec fn resolved_of(
    profiles: Map<Seq<char>, (Option<Seq<char>>, Map<Seq<char>, Seq<char>>)>,
    bindings: Map<Seq<char>, Seq<char>>,
) -> Map<Seq<char>, Map<Seq<char>, Seq<char>>> {
    let base = profiles.map_values(|p: (Option<Seq<char>>, Map<Seq<char>, Seq<char>>)| p.1);
    let merged = if bindings.dom() == Set::<Seq<char>>::empty() {
        base
    } else {
        let d = if base.contains_key(default_name()) {
            base[default_name()]
        } else {
            Map::empty()
        };
        base.insert(default_name(), bindings.union_prefer_right(d))
    };
    if merged.dom() == Set::<Seq<char>>::empty() {
        merged.insert(default_name(), Map::empty())
    } else {
        merged
    }
}

/// The colour that profile `name` asks for, if it names one that parses.
pub open spec fn color_for_of(
    profiles: Map<Seq<char>, (Option<Seq<char>>, Map<Seq<char>, Seq<char>>)>,
    name: Seq<char>,
) -> Option<(u8, u8, u8)> {
    if profiles.contains_key(name) {
        match profiles[name].0 {
            Some(c) => color_of(c),
            None => None,
        }
    } else {
        None
    }
}

fn default_string() -> (s: String)
    ensures
        s@ == default_name(),
{
    "default".to_string()
}

impl Config {
    /// The configuration that was read, or the default one where reading or
    /// parsing it failed.
    pub fn load_or_default(loaded: Option<Config>) -> (c: Config)
        ensures
            match loaded {
                Some(l) => c == l,
                None => c.profiles@ == Map::<
                    Seq<char>,
                    (Option<Seq<char>>, Map<Seq<char>, Seq<char>>),
                >::empty() && c.bindings@ == Map::<Seq<char>, Seq<char>>::empty()
                    && c.profile_keys@ == Map::<Seq<char>, Seq<char>>::empty()
                    && c.thumbstick.mode@ == "keys"@ && c.thumbstick.deadzone == 50
                    && !c.thumbstick.invert_x && !c.thumbstick.invert_y && c.thumbstick.up@
                    == "W"@ && c.thumbstick.down@ == "S"@ && c.thumbstick.left@ == "A"@
                    && c.thumbstick.right@ == "D"@ && c.thumbstick.thumb@ == Seq::<char>::empty()
                    && c.thumbstick.button1@ == Seq::<char>::empty() && c.thumbstick.button2@
                    == Seq::<char>::empty(),
            },
    {
        match loaded {
            Some(l) => l,
            None => Config::default(),
        }
    }

    /// Profile name to (source key to output binding), with the `[bindings]`
    /// shorthand merged into `"default"`.
    pub fn resolved(&self) -> (out: StrMap<StrMap<String>>)
        ensures
            out@ == resolved_of(self.profiles@, self.bindings@),
    {
        let mut out: StrMap<StrMap<String>> = StrMap::new();
        let n = self.profiles.len();
        let ghost pk = self.profiles.keys();
        let ghost pv = self.profiles@;
        for i in 0..n
            invariant
                n == pk.len(),
                pk == self.profiles.keys(),
                pv == self.profiles@,
                forall|k: Seq<char>| pv.contains_key(k) <==> pk.contains(k),
                forall|k: Seq<char>| #[trigger] out@.contains_key(k) <==> pk.take(i as int).contains(k),
                forall|k: Seq<char>| #[trigger] out@.contains_key(k) ==> out@[k] == pv[k].1,
        {
            let (name, p) = self.profiles.entry_at(i);
            let ghost before = out@;
            let kn = name.clone();
            let kv = p.keys.clone();
            assert(kv@ == pv[pk[i as int]].1);
            assert(kn@ == pk[i as int]);
            out.insert(kn, kv);
            proof {
                assert forall|k: Seq<char>| pk.take(i + 1).contains(k) <==> pk.take(
                    i as int,
                ).contains(k) || k == pk[i as int] by {
                    lemma_take_contains(pk, i as int, k);
                }
                assert forall|k: Seq<char>| #[trigger] out@.contains_key(k) <==> pk.take(
                    i + 1,
                ).contains(k) by {
                    lemma_take_contains(pk, i as int, k);
                    assert(out@.contains_key(k) <==> before.contains_key(k) || k == pk[i as int]);
                }
            }
        }
        let ghost base = pv.map_values(
            |p: (Option<Seq<char>>, Map<Seq<char>, Seq<char>>)| p.1,
        );
        assert(pk.take(n as int) =~= pk);
        assert forall|k: Seq<char>| #[trigger] out@.contains_key(k) <==> base.contains_key(k) by {}
        assert(out@ =~= base);
        if !self.bindings.is_empty() {
            let mut d: StrMap<String> = match out.remove("default") {
                Some(m) => m,
                None => StrMap::new(),
            };
            let ghost d0 = d@;
            assert(d0 == (if base.contains_key(default_name()) {
                base[default_name()]
            } else {
                Map::empty()
            }));
            let bn = self.bindings.len();
            let ghost bk = self.bindings.keys();
            let ghost bv = self.bindings@;
            for i in 0..bn
                invariant
                    bn == bk.len(),
                    bk == self.bindings.keys(),
                    bv == self.bindings@,
                    forall|k: Seq<char>| bv.contains_key(k) <==> bk.contains(k),
                    d@ == Map::new(
                        |k: Seq<char>| bk.take(i as int).contains(k),
                        |k: Seq<char>| bv[k],
                    ).union_prefer_right(d0),
            {
                let (k, v) = self.bindings.entry_at(i);
                let ghost before = d@;
                if !d.contains_key(k.as_str()) {
                    d.insert(k.clone(), v.clone());
                }
                proof {
                    assert forall|q: Seq<char>| bk.take(i + 1).contains(q) <==> bk.take(
                        i as int,
                    ).contains(q) || q == bk[i as int] by {
                        lemma_take_contains(bk, i as int, q);
                    }
                    assert(d@ =~= Map::new(
                        |q: Seq<char>| bk.take(i + 1).contains(q),
                        |q: Seq<char>| bv[q],
                    ).union_prefer_right(d0));
                }
            }
            assert(bk.take(bn as int) =~= bk);
            assert(Map::new(|k: Seq<char>| bk.contains(k), |k: Seq<char>| bv[k]) =~= bv);
            out.insert(default_string(), d);
            assert(out@ =~= base.insert(default_name(), bv.union_prefer_right(d0)));
        }
        if out.is_empty() {
            out.insert(default_string(), StrMap::new());
        }
        out
    }

    /// The backlight colour of profile `profile`, if it has one that parses.
    pub fn color_for(&self, profile: &str) -> (c: Option<(u8, u8, u8)>)
        ensures
            c == color_for_of(self.profiles@, profile@),
    {
        match self.profiles.get(profile) {
            Some(p) => match &p.color {
                Some(s) => parse_color(s.as_str()),
                None => None,
            },
            None => None,
        }
    }
}


/// Law: the resolved bindings always hold a profile, hold every configured
/// profile, give every profile but `"default"` exactly its own bindings,
/// and give `"default"` its own binding of a key over the shorthand's.
pub proof fn lemma_resolved_nonempty(
    profiles: Map<Seq<char>, (Option<Seq<char>>, Map<Seq<char>, Seq<char>>)>,
    bindings: Map<Seq<char>, Seq<char>>,
)
    ensures
        resolved_of(profiles, bindings).dom() != Set::<Seq<char>>::empty(),
        forall|p: Seq<char>| #[trigger]
            profiles.contains_key(p) ==> resolved_of(profiles, bindings).contains_key(p),
        forall|p: Seq<char>| #[trigger]
            profiles.contains_key(p) && p != default_name() ==> resolved_of(profiles, bindings)[p]
                == profiles[p].1,
        forall|k: Seq<char>| #[trigger]
            profiles.contains_key(default_name()) && profiles[default_name()].1.contains_key(k)
                ==> resolved_of(profiles, bindings)[default_name()][k]
                == profiles[default_name()].1[k],
        forall|k: Seq<char>| #[trigger]
            bindings.contains_key(k) ==> resolved_of(profiles, bindings)[default_name()].contains_key(k),
{
    let r = resolved_of(profiles, bindings);
    let base = profiles.map_values(|p: (Option<Seq<char>>, Map<Seq<char>, Seq<char>>)| p.1);
    if r.dom() == Set::<Seq<char>>::empty() {
        if bindings.dom() == Set::<Seq<char>>::empty() {
            if base.dom() == Set::<Seq<char>>::empty() {
                assert(r.contains_key(default_name()));
            } else {
                let p = base.dom().choose();
                assert(r.contains_key(p));
            }
        } else {
            assert(r.contains_key(default_name()));
        }
    }
    if bindings.dom() != Set::<Seq<char>>::empty() {
        let d = if base.contains_key(default_name()) {
            base[default_name()]
        } else {
            Map::empty()
        };
        let merged = base.insert(default_name(), bindings.union_prefer_right(d));
        assert(merged.dom().contains(default_name()));
        assert(merged.dom() != Set::<Seq<char>>::empty());
        assert(r == merged);
    }
    assert forall|k: Seq<char>| #[trigger] bindings.contains_key(k) implies r[default_name()].contains_key(k) by {
        assert(bindings.dom().contains(k));
        assert(bindings.dom() != Set::<Seq<char>>::empty());
    }
    assert forall|k: Seq<char>| #[trigger]
        profiles.contains_key(default_name()) && profiles[default_name()].1.contains_key(k)
        implies r[default_name()][k] == profiles[default_name()].1[k] by {
        if bindings.dom() != Set::<Seq<char>>::empty() {
            assert(r[default_name()] == bindings.union_prefer_right(base[default_name()]));
        } else {
            assert(base.contains_key(default_name()));
            assert(base.dom() != Set::<Seq<char>>::empty());
        }
    }
}

} // verus!
