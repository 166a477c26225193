//! Edits that the configurator makes to a configuration: preparing it for
//! editing, adding, deleting and renaming profiles, binding keys, picking
//! colours and M-key targets.

use crate::config::{color_text, color_text_of, color_for_of, default_name, lemma_color_roundtrip, resolved_of, Config, Profile};
use crate::keypad::initial_active;
use crate::strmap::StrMap;
use crate::text::{decimal, digits_value, lemma_decimal_digits, push_decimal, trim, trimmed, key_lt, lemma_key_lt_asymmetric};
use vstd::prelude::*;

verus! {

broadcast use vstd::string::group_string_axioms;

/// The view of a profile.
pub type ProfileView = (Option<Seq<char>>, Map<Seq<char>, Seq<char>>);

/// The profiles of a configuration made uniform for editing: the
/// `[bindings]` shorthand folded into `"default"` (the profile's own
/// bindings win), and an empty `"default"` when there is no profile.
pub open spec fn folded(
    profiles: Map<Seq<char>, ProfileView>,
    bindings: Map<Seq<char>, Seq<char>>,
) -> Map<Seq<char>, ProfileView> {
    let p1 = if bindings.dom() == Set::<Seq<char>>::empty() {
        profiles
    } else {
        let d: ProfileView = if profiles.contains_key(default_name()) {
            profiles[default_name()]
        } else {
            (None, Map::empty())
        };
        profiles.insert(default_name(), (d.0, bindings.union_prefer_right(d.1)))
    };
    if p1.dom() == Set::<Seq<char>>::empty() {
        p1.insert(default_name(), (None, Map::empty()))
    } else {
        p1
    }
}

fn default_string() -> (s: String)
    ensures
        s@ == default_name(),
{
    "default".to_string()
}

impl Config {
    /// Makes the configuration uniform for editing (see `folded`) and gives
    /// the profile to show first: `"default"`, else the first by name.
    pub fn prepare_for_editing(&mut self) -> (active: String)
        ensures
            final(self).profiles@ == folded(old(self).profiles@, old(self).bindings@),
            final(self).bindings@ == Map::<Seq<char>, Seq<char>>::empty(),
            final(self).profile_keys@ == old(self).profile_keys@,
            final(self).thumbstick == old(self).thumbstick,
            active@ == initial_active(final(self).profiles@),
    {
        let ghost p0 = self.profiles@;
        let ghost b0 = self.bindings@;
        if !self.bindings.is_empty() {
            let mut d: Profile = match self.profiles.remove("default") {
                Some(p) => p,
                None => Profile::default(),
            };
            let ghost d0 = d.keys@;
            let ghost c0 = d.color;
            assert(crate::config::text_opt(c0) == (if p0.contains_key(default_name()) {
                p0[default_name()].0
            } else {
                None
            }));
            let n = self.bindings.len();
            let ghost bk = self.bindings.keys();
            for i in 0..n
                invariant
                    n == bk.len(),
                    bk == self.bindings.keys(),
                    b0 == self.bindings@,
                    d.color == c0,
                    forall|k: Seq<char>| b0.contains_key(k) <==> bk.contains(k),
                    forall|k: Seq<char>| #[trigger]
                        d.keys@.contains_key(k) <==> bk.take(i as int).contains(k)
                            || d0.contains_key(k),
                    forall|k: Seq<char>| #[trigger]
                        d.keys@.contains_key(k) ==> d.keys@[k] == if d0.contains_key(k) {
                            d0[k]
                        } else {
                            b0[k]
                        },
            {
                let (k, v) = self.bindings.entry_at(i);
                let ghost before = d.keys@;
                if !d.keys.contains_key(k.as_str()) {
                    d.keys.insert(k.clone(), v.clone());
                }
                assert forall|q: Seq<char>| #[trigger]
                    d.keys@.contains_key(q) <==> bk.take(i + 1).contains(q) || d0.contains_key(q) by {
                    crate::strmap::lemma_take_contains(bk, i as int, q);
                    assert(d.keys@.contains_key(q) <==> before.contains_key(q) || q == bk[i as int]);
                }
            }
            assert(bk.take(n as int) =~= bk);
            assert(d.keys@ =~= b0.union_prefer_right(d0));
            let ghost dv = d@;
            self.profiles.insert(default_string(), d);
            self.bindings = StrMap::new();
            proof {
                let dd: ProfileView = if p0.contains_key(default_name()) {
                    p0[default_name()]
                } else {
                    (None, Map::empty())
                };
                assert(dv == (dd.0, b0.union_prefer_right(dd.1)));
                assert(self.profiles@ =~= p0.insert(default_name(), dv));
            }
        }
        if self.profiles.is_empty() {
            self.profiles.insert(default_string(), Profile::default());
        }
        let active = match self.profiles.get("default") {
            Some(_) => default_string(),
            None => match self.profiles.first_key() {
                Some(k) => k.clone(),
                None => default_string(),
            },
        };
        proof {
            let m = self.profiles@;
            if !m.contains_key(default_name()) && m.dom() != Set::<Seq<char>>::empty() {
                let k = active@;
                let w = crate::keypad::least_name(m);
                assert(m.contains_key(k) && forall|k2: Seq<char>| #[trigger]
                    m.contains_key(k2) ==> k2 == k || key_lt(k, k2));
                lemma_key_lt_asymmetric(k, w);
            }
        }
        active
    }
}


/// Law: making a configuration uniform for editing keeps what the daemon
/// reads from it: every profile resolves to the same bindings, and every
/// profile name gives the same colour.
pub proof fn lemma_folding_keeps_meaning(
    profiles: Map<Seq<char>, ProfileView>,
    bindings: Map<Seq<char>, Seq<char>>,
)
    ensures
        resolved_of(folded(profiles, bindings), Map::empty()) == resolved_of(profiles, bindings),
        forall|name: Seq<char>|
            #[trigger] color_for_of(folded(profiles, bindings), name) == color_for_of(
                profiles,
                name,
            ),
{
    let f = folded(profiles, bindings);
    let none: Map<Seq<char>, Seq<char>> = Map::empty();
    assert(none.dom() =~= Set::<Seq<char>>::empty());
    let left = resolved_of(f, none);
    let right = resolved_of(profiles, bindings);
    let fb = f.map_values(|p: ProfileView| p.1);
    let base = profiles.map_values(|p: ProfileView| p.1);
    let p1 = if bindings.dom() == Set::<Seq<char>>::empty() {
        profiles
    } else {
        let dd: ProfileView = if profiles.contains_key(default_name()) {
            profiles[default_name()]
        } else {
            (None, Map::empty())
        };
        profiles.insert(default_name(), (dd.0, bindings.union_prefer_right(dd.1)))
    };
    if p1.dom() == Set::<Seq<char>>::empty() {
        assert(f.dom().contains(default_name()));
    } else {
        assert(f == p1);
    }
    assert(f.dom() != Set::<Seq<char>>::empty());
    assert(fb.dom() =~= f.dom());
    assert(left == fb);
    if bindings.dom() == Set::<Seq<char>>::empty() {
        if profiles.dom() == Set::<Seq<char>>::empty() {
            assert(base.dom() =~= Set::<Seq<char>>::empty());
            assert(fb =~= base.insert(default_name(), Map::empty()));
        } else {
            assert(base.dom() != Set::<Seq<char>>::empty()) by {
                if !(exists|k: Seq<char>| profiles.dom().contains(k)) {
                    assert(profiles.dom() =~= Set::<Seq<char>>::empty());
                }
                let k = choose|k: Seq<char>| profiles.dom().contains(k);
                assert(base.dom().contains(k));
            }
            assert(fb =~= base);
        }
    } else {
        let d = if base.contains_key(default_name()) {
            base[default_name()]
        } else {
            Map::empty()
        };
        let merged = base.insert(default_name(), bindings.union_prefer_right(d));
        assert(merged.dom().contains(default_name()));
        assert(merged.dom() != Set::<Seq<char>>::empty());
        assert(p1.dom().contains(default_name()));
        assert(f == p1);
        assert(fb =~= merged);
    }
    assert(left =~= right);
    assert forall|name: Seq<char>|
        #[trigger] color_for_of(f, name) == color_for_of(profiles, name) by {
        if bindings.dom() != Set::<Seq<char>>::empty() && name == default_name() {
            assert(f.contains_key(name));
        }
    }
}

/// The characters of `profile`.
pub open spec fn profile_word() -> Seq<char> {
    seq!['p', 'r', 'o', 'f', 'i', 'l', 'e']
}

/// The name of the `i`-th new profile: `profile1`, `profile2`, ...
pub open spec fn profile_name(i: nat) -> Seq<char> {
    profile_word() + decimal(i)
}

proof fn lemma_profile_name_injective(a: nat, b: nat)
    requires
        profile_name(a) == profile_name(b),
    ensures
        a == b,
{
    assert(profile_name(a).subrange(7, profile_name(a).len() as int) =~= decimal(a));
    assert(profile_name(b).subrange(7, profile_name(b).len() as int) =~= decimal(b));
    lemma_decimal_digits(a);
    lemma_decimal_digits(b);
}

/// A finite set of `n` names cannot hold all of `profile1` to
/// `profile{n+1}`.
proof fn lemma_some_name_free(dom: Set<Seq<char>>, n: nat)
    requires
        dom.finite(),
        dom.len() == n,
    ensures
        exists|j: nat| 1 <= j <= n + 1 && !dom.contains(#[trigger] profile_name(j)),
{
    if forall|j: nat| 1 <= j <= n + 1 ==> dom.contains(#[trigger] profile_name(j)) {
    let names = Seq::new((n + 1) as nat, |i: int| profile_name((i + 1) as nat));
    assert(names.no_duplicates()) by {
        assert forall|a: int, b: int|
            0 <= a < names.len() && 0 <= b < names.len() && a != b implies names[a] != names[b] by {
            if names[a] == names[b] {
                lemma_profile_name_injective((a + 1) as nat, (b + 1) as nat);
            }
        }
    }
    names.unique_seq_to_set();
    assert(names.to_set().subset_of(dom)) by {
        assert forall|x: Seq<char>| names.to_set().contains(x) implies dom.contains(x) by {
            let i = choose|i: int| 0 <= i < names.len() && names[i] == x;
            assert(dom.contains(profile_name((i + 1) as nat)));
        }
    }
    vstd::set_lib::lemma_len_subset(names.to_set(), dom);
    }
}

fn profile_name_string(i: u64) -> (s: String)
    ensures
        s@ == profile_name(i as nat),
{
    let mut s = "profile".to_string();
    proof {
        reveal_strlit("profile");
        assert("profile"@ =~= profile_word());
    }
    push_decimal(&mut s, i);
    s
}

impl Config {
    /// Adds an empty profile under the first free name among `profile1`,
    /// `profile2`, ..., and gives that name.
    pub fn new_profile(&mut self) -> (name: String)
        requires
            old(self).profiles@.dom().len() < u64::MAX,
        ensures
            exists|i: nat|
                i >= 1 && name@ == profile_name(i) && !old(self).profiles@.contains_key(name@)
                    && forall|j: nat|
                    1 <= j < i ==> old(self).profiles@.contains_key(#[trigger] profile_name(j)),
            final(self).profiles@ == old(self).profiles@.insert(
                name@,
                (None, Map::<Seq<char>, Seq<char>>::empty()),
            ),
            final(self).bindings@ == old(self).bindings@,
            final(self).profile_keys@ == old(self).profile_keys@,
            final(self).thumbstick == old(self).thumbstick,
    {
        let n = self.profiles.len();
        let ghost dom = self.profiles@.dom();
        let mut i: u64 = 1;
        loop
            invariant
                1 <= i <= n as u64 + 1,
                n < u64::MAX,
                self.profiles@ == old(self).profiles@,
                self.bindings@ == old(self).bindings@,
                self.profile_keys@ == old(self).profile_keys@,
                self.thumbstick == old(self).thumbstick,
                dom == self.profiles@.dom(),
                dom.finite(),
                dom.len() == n,
                forall|j: nat| 1 <= j < i ==> dom.contains(#[trigger] profile_name(j)),
            decreases n as u64 + 1 - i,
        {
            let name = profile_name_string(i);
            if !self.profiles.contains_key(name.as_str()) {
                let ghost nv = name@;
                self.profiles.insert(name.clone(), Profile::default());
                assert(exists|k: nat|
                    k >= 1 && nv == profile_name(k) && !dom.contains(nv) && forall|j: nat|
                        1 <= j < k ==> dom.contains(#[trigger] profile_name(j))) by {
                    assert(i >= 1 && nv == profile_name(i as nat));
                }
                return name;
            }
            proof {
                if i == n as u64 + 1 {
                    lemma_some_name_free(dom, n as nat);
                    let j = choose|j: nat| 1 <= j <= n + 1 && !dom.contains(#[trigger] profile_name(j));
                    if j == n + 1 {
                        assert(profile_name(j) == name@);
                    }
                }
            }
            i = i + 1;
        }
    }

    /// Deletes profile `name` and the M-key switches to it, unless it is the
    /// only profile; gives the profile to show next, the first by name.
    pub fn delete_profile(&mut self, name: &str) -> (next: Option<String>)
        ensures
            old(self).profiles@.dom().len() <= 1 ==> next is None && final(self).profiles@ == old(
                self,
            ).profiles@ && final(self).profile_keys@ == old(self).profile_keys@,
            old(self).profiles@.dom().len() > 1 ==> {
                &&& final(self).profiles@ == old(self).profiles@.remove(name@)
                &&& final(self).profile_keys@ == Map::new(
                    |k: Seq<char>|
                        old(self).profile_keys@.contains_key(k) && old(self).profile_keys@[k]
                            != name@,
                    |k: Seq<char>| old(self).profile_keys@[k],
                )
                &&& next matches Some(s) && final(self).profiles@.contains_key(s@) && forall|
                    k: Seq<char>,
                | #[trigger]
                    final(self).profiles@.contains_key(k) ==> k == s@ || key_lt(s@, k)
            },
            final(self).bindings@ == old(self).bindings@,
            final(self).thumbstick == old(self).thumbstick,
    {
        if self.profiles.len() <= 1 {
            return None;
        }
        let _ = self.profiles.remove(name);
        self.profile_keys = self.profile_keys.without_value(name);
        let n = self.profiles.len();
        proof {
            let m = self.profiles@;
            if m.dom() == Set::<Seq<char>>::empty() {
                assert(!old(self).profiles@.contains_key(name@) || old(self).profiles@.dom()
                    =~= set![name@]);
            }
        }
        match self.profiles.first_key() {
            Some(k) => Some(k.clone()),
            None => {
                proof {
                    let om = old(self).profiles@;
                    if om.contains_key(name@) {
                        assert(om.dom().remove(name@) =~= self.profiles@.dom());
                    } else {
                        assert(om.dom() =~= self.profiles@.dom());
                    }
                }
                None
            },
        }
    }
}


/// Whether renaming profile `active` to the text `raw` takes place: the
/// trimmed name must be non-empty, differ from `active` and be free.
pub open spec fn rename_applies(
    profiles: Map<Seq<char>, ProfileView>,
    active: Seq<char>,
    raw: Seq<char>,
) -> bool {
    let new = trim(raw);
    new.len() > 0 && new != active && !profiles.contains_key(new)
}

impl Config {
    /// Renames profile `active` to the trimmed `raw`, and the M-key switches
    /// to it along; gives the new name, or none when the name is empty,
    /// unchanged or taken.
    pub fn rename_profile(&mut self, active: &str, raw: &str) -> (renamed: Option<String>)
        ensures
            ({
                let new = trim(raw@);
                if rename_applies(old(self).profiles@, active@, raw@) {
                    &&& renamed matches Some(s) && s@ == new
                    &&& final(self).profiles@ == if old(self).profiles@.contains_key(active@) {
                        old(self).profiles@.remove(active@).insert(
                            new,
                            old(self).profiles@[active@],
                        )
                    } else {
                        old(self).profiles@
                    }
                    &&& final(self).profile_keys@ == old(self).profile_keys@.map_values(
                        |x: Seq<char>|
                            if x == active@ {
                                new
                            } else {
                                x
                            },
                    )
                } else {
                    &&& renamed is None
                    &&& final(self).profiles@ == old(self).profiles@
                    &&& final(self).profile_keys@ == old(self).profile_keys@
                }
            }),
            final(self).bindings@ == old(self).bindings@,
            final(self).thumbstick == old(self).thumbstick,
    {
        let new = trimmed(raw);
        if new.as_str().is_empty() || crate::text::same_text(new.as_str(), active)
            || self.profiles.contains_key(new.as_str()) {
            return None;
        }
        match self.profiles.remove(active) {
            Some(p) => {
                self.profiles.insert(new.clone(), p);
            },
            None => {},
        }
        self.profile_keys = self.profile_keys.with_value_replaced(active, &new);
        Some(new)
    }

    /// Binds `key` in profile `profile` to the trimmed `raw`, or unbinds it
    /// when that is empty; nothing happens when there is no such profile.
    pub fn set_binding(&mut self, profile: &str, key: &str, raw: &str)
        ensures
            ({
                let v = trim(raw@);
                let p = old(self).profiles@;
                if p.contains_key(profile@) {
                    final(self).profiles@ == p.insert(
                        profile@,
                        (
                            p[profile@].0,
                            if v.len() == 0 {
                                p[profile@].1.remove(key@)
                            } else {
                                p[profile@].1.insert(key@, v)
                            },
                        ),
                    )
                } else {
                    final(self).profiles@ == p
                }
            }),
            final(self).bindings@ == old(self).bindings@,
            final(self).profile_keys@ == old(self).profile_keys@,
            final(self).thumbstick == old(self).thumbstick,
    {
        let v = trimmed(raw);
        match self.profiles.remove(profile) {
            Some(mut p) => {
                if v.as_str().is_empty() {
                    let _ = p.keys.remove(key);
                } else {
                    p.keys.insert(key.to_string(), v);
                }
                self.profiles.insert(profile.to_string(), p);
                assert(self.profiles@ =~= old(self).profiles@.insert(
                    profile@,
                    self.profiles@[profile@],
                ));
            },
            None => {},
        }
    }

    /// Sets the backlight colour of profile `profile` (written `r,g,b`), or
    /// removes it; nothing happens when there is no such profile.
    pub fn set_profile_color(&mut self, profile: &str, rgb: Option<(u8, u8, u8)>)
        ensures
            ({
                let p = old(self).profiles@;
                if p.contains_key(profile@) {
                    final(self).profiles@ == p.insert(
                        profile@,
                        (
                            match rgb {
                                Some((r, g, b)) => Some(color_text_of(r, g, b)),
                                None => None,
                            },
                            p[profile@].1,
                        ),
                    )
                } else {
                    final(self).profiles@ == p
                }
            }),
            final(self).bindings@ == old(self).bindings@,
            final(self).profile_keys@ == old(self).profile_keys@,
            final(self).thumbstick == old(self).thumbstick,
    {
        match self.profiles.remove(profile) {
            Some(mut p) => {
                p.color = match rgb {
                    Some((r, g, b)) => Some(color_text(r, g, b)),
                    None => None,
                };
                self.profiles.insert(profile.to_string(), p);
                assert(self.profiles@ =~= old(self).profiles@.insert(
                    profile@,
                    self.profiles@[profile@],
                ));
            },
            None => {},
        }
    }

    /// The profile that M-key `mkey` selects, else the first profile by
    /// name (what the M-key editor starts from).
    pub fn mkey_target(&self, mkey: &str) -> (t: Option<String>)
        ensures
            self.profile_keys@.contains_key(mkey@) ==> (t matches Some(s) && s@
                == self.profile_keys@[mkey@]),
            !self.profile_keys@.contains_key(mkey@) ==> match t {
                Some(s) => self.profiles@.contains_key(s@) && forall|k: Seq<char>| #[trigger]
                    self.profiles@.contains_key(k) ==> k == s@ || key_lt(s@, k),
                None => self.profiles@.dom() == Set::<Seq<char>>::empty(),
            },
    {
        match self.profile_keys.get(mkey) {
            Some(p) => Some(p.clone()),
            None => match self.profiles.first_key() {
                Some(k) => Some(k.clone()),
                None => None,
            },
        }
    }

    /// The binding of `key` in profile `profile`; empty when there is none.
    pub fn binding_text(&self, profile: &str, key: &str) -> (s: String)
        ensures
            s@ == if self.profiles@.contains_key(profile@) && self.profiles@[profile@].1.contains_key(
                key@,
            ) {
                self.profiles@[profile@].1[key@]
            } else {
                Seq::<char>::empty()
            },
    {
        match self.profiles.get(profile) {
            Some(p) => match p.keys.get(key) {
                Some(v) => v.clone(),
                None => String::new(),
            },
            None => String::new(),
        }
    }
}

/// Law: a colour that the configurator sets on a profile is the colour the
/// daemon reads for that profile.
pub proof fn lemma_set_color_then_read(
    before: Map<Seq<char>, ProfileView>,
    after: Map<Seq<char>, ProfileView>,
    profile: Seq<char>,
    r: u8,
    g: u8,
    b: u8,
)
    requires
        before.contains_key(profile),
        after == before.insert(profile, (Some(color_text_of(r, g, b)), before[profile].1)),
    ensures
        color_for_of(after, profile) == Some((r, g, b)),
{
    lemma_color_roundtrip(r, g, b);
}

} // verus!
