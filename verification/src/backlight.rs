//! The G13 RGB backlight and M-key indicator LEDs, as the kernel's
//! `lg-g15` driver exposes them under `/sys/class/leds`: which LED is the
//! backlight, what to write to set a colour, and which LED lights an M-key.

use crate::lcd::join_spaced;
use crate::text::{
    chars_of, contains_chars, decimal, has_infix, lowercase, parse_unsigned, parse_unsigned_range,
    push_char, push_decimal, push_str, same_text, to_lowercase, to_uppercase, trim, trim_range,
    trimmed, uppercase, word_ranges, words, pieces, ranges_within,
};
use vstd::prelude::*;

verus! {

broadcast use vstd::string::group_string_axioms;

/// Whether an LED named `l` (lower-cased) is a G13 backlight candidate: it
/// names the G13 or G15, looks like an RGB or backlight LED (or has a
/// `multi_intensity` file), and is not a macro indicator.
pub open spec fn is_backlight(l: Seq<char>, multi: bool) -> bool {
    &&& (has_infix(l, "g13"@) || has_infix(l, "g15"@))
    &&& (has_infix(l, "rgb"@) || has_infix(l, "backlight"@) || multi)
    &&& !has_infix(l, "macro"@)
}

/// Whether a candidate named `l` (lower-cased) is preferred: an RGB LED or
/// one with a `multi_intensity` file.
pub open spec fn is_preferred(l: Seq<char>, multi: bool) -> bool {
    has_infix(l, "rgb"@) || multi
}

/// Whether entry `i` of `ls` (lower-cased names with their
/// `multi_intensity` flag) is a preferred candidate.
pub open spec fn preferred_at(ls: Seq<(Seq<char>, bool)>, i: int) -> bool {
    is_backlight(ls[i].0, ls[i].1) && is_preferred(ls[i].0, ls[i].1)
}

/// Whether entry `i` of `ls` is a candidate.
pub open spec fn candidate_at(ls: Seq<(Seq<char>, bool)>, i: int) -> bool {
    is_backlight(ls[i].0, ls[i].1)
}

/// Whether `r` is the backlight chosen among `ls`: the first preferred
/// candidate, else the first candidate, else none.
pub open spec fn chosen_led(ls: Seq<(Seq<char>, bool)>, r: Option<usize>) -> bool {
    match r {
        Some(i) => {
            &&& i < ls.len()
            &&& candidate_at(ls, i as int)
            &&& if is_preferred(ls[i as int].0, ls[i as int].1) {
                forall|j: int| 0 <= j < i ==> !#[trigger] preferred_at(ls, j)
            } else {
                &&& forall|j: int| 0 <= j < ls.len() ==> !#[trigger] preferred_at(ls, j)
                &&& forall|j: int| 0 <= j < i ==> !#[trigger] candidate_at(ls, j)
            }
        },
        None => forall|j: int| 0 <= j < ls.len() ==> !#[trigger] candidate_at(ls, j),
    }
}

/// The names and flags of a list of LED names and flags.
pub open spec fn names_view(v: Seq<(String, bool)>) -> Seq<(Seq<char>, bool)> {
    v.map_values(|e: (String, bool)| (e.0@, e.1))
}

fn has_text(v: &Vec<char>, t: &str) -> (b: bool)
    ensures
        b == has_infix(v@, t@),
{
    let tv = chars_of(t);
    contains_chars(v, &tv)
}

/// Chooses the backlight among LEDs whose names are already lower-case,
/// each with whether it has a `multi_intensity` file, in directory order.
pub fn pick_backlight(leds: &Vec<(String, bool)>) -> (r: Option<usize>)
    ensures
        chosen_led(names_view(leds@), r),
{
    let ghost ls = names_view(leds@);
    let n = leds.len();
    let mut first: Option<usize> = None;
    for i in 0..n
        invariant
            n == leds@.len(),
            ls == names_view(leds@),
            forall|j: int| 0 <= j < i ==> !#[trigger] preferred_at(ls, j),
            match first {
                Some(f) => f < i && candidate_at(ls, f as int) && forall|j: int|
                    0 <= j < f ==> !#[trigger] candidate_at(ls, j),
                None => forall|j: int| 0 <= j < i ==> !#[trigger] candidate_at(ls, j),
            },
    {
        let v = chars_of(leds[i].0.as_str());
        let multi = leds[i].1;
        assert(ls[i as int] == (v@, multi));
        let cand = (has_text(&v, "g13") || has_text(&v, "g15")) && (has_text(&v, "rgb")
            || has_text(&v, "backlight") || multi) && !has_text(&v, "macro");
        if cand {
            if has_text(&v, "rgb") || multi {
                return Some(i);
            }
            if first.is_none() {
                first = Some(i);
            }
        }
    }
    first
}

/// An entry of `/sys/class/leds`: its name and whether it has a
/// `multi_intensity` file.
pub struct LedEntry {
    pub name: String,
    pub has_multi_intensity: bool,
}

/// Chooses the backlight among the entries of `/sys/class/leds`, in
/// directory order: the first preferred candidate (by lower-cased name),
/// else the first candidate.
pub fn discover_choice(entries: &Vec<LedEntry>) -> (r: Option<usize>)
    ensures
        chosen_led(
            entries@.map_values(|e: LedEntry| (lowercase(e.name@), e.has_multi_intensity)),
            r,
        ),
{
    let n = entries.len();
    let mut leds: Vec<(String, bool)> = Vec::new();
    for i in 0..n
        invariant
            n == entries@.len(),
            leds@.len() == i,
            forall|j: int| 0 <= j < i ==> (#[trigger] leds@[j]).0@ == lowercase(entries@[j].name@)
                && leds@[j].1 == entries@[j].has_multi_intensity,
    {
        let l = to_lowercase(entries[i].name.as_str());
        let ghost before = leds@;
        leds.push((l, entries[i].has_multi_intensity));
        assert forall|j: int| 0 <= j < i + 1 implies (#[trigger] leds@[j]).0@ == lowercase(
            entries@[j].name@,
        ) && leds@[j].1 == entries@[j].has_multi_intensity by {
            if j < i {
                assert(leds@[j] == before[j]);
            }
        }
    }
    assert(names_view(leds@) =~= entries@.map_values(
        |e: LedEntry| (lowercase(e.name@), e.has_multi_intensity),
    ));
    pick_backlight(&leds)
}

/// The value in a `max_brightness` file, trimmed; 255 when the file could
/// not be read or does not hold a number.
pub open spec fn max_brightness_of(text: Option<Seq<char>>) -> u32 {
    match text {
        Some(t) => match parse_unsigned(trim(t), u32::MAX as nat) {
            Some(n) => n as u32,
            None => 255,
        },
        None => 255,
    }
}

/// The maximum brightness from the text of a `max_brightness` file, if it
/// could be read.
pub fn max_brightness(text: Option<&str>) -> (b: u32)
    ensures
        b == max_brightness_of(
            match text {
                Some(t) => Some(t@),
                None => None,
            },
        ),
{
    match text {
        None => 255,
        Some(t) => {
            let v = chars_of(t);
            let (a, e) = trim_range(&v, 0, v.len());
            assert(v@.subrange(0, v@.len() as int) =~= t@);
            match parse_unsigned_range(&v, a, e, u32::MAX as u64) {
                Some(n) => n as u32,
                None => 255,
            }
        },
    }
}

/// The value of colour channel `ch` (`red`, `green` or `blue`; 0 for any
/// other name).
pub open spec fn channel_value(ch: Seq<char>, r: u8, g: u8, b: u8) -> u8 {
    if ch == "red"@ {
        r
    } else if ch == "green"@ {
        g
    } else if ch == "blue"@ {
        b
    } else {
        0
    }
}

/// What to write to `multi_intensity` for colour (`r`, `g`, `b`): one
/// value per channel that `multi_index` lists, in its order (`red green
/// blue` when it could not be read), separated by spaces; `r g b` when it
/// lists none.
pub open spec fn payload_of(index: Option<Seq<char>>, r: u8, g: u8, b: u8) -> Seq<char> {
    let idx = match index {
        Some(t) => t,
        None => "red green blue"@,
    };
    let ws = words(idx);
    if ws.len() == 0 {
        decimal(r as nat).push(' ') + decimal(g as nat).push(' ') + decimal(b as nat)
    } else {
        join_spaced(ws.map_values(|w: Seq<char>| decimal(channel_value(w, r, g, b) as nat)))
    }
}

/// What to write to `multi_intensity` for colour (`r`, `g`, `b`), given
/// the text of `multi_index` if it could be read.
pub fn multi_intensity_payload(index: Option<&str>, r: u8, g: u8, b: u8) -> (s: String)
    ensures
        s@ == payload_of(
            match index {
                Some(t) => Some(t@),
                None => None,
            },
            r,
            g,
            b,
        ),
{
    let idx = match index {
        Some(t) => t,
        None => "red green blue",
    };
    let v = chars_of(idx);
    let ws = word_ranges(&v, 0, v.len());
    assert(v@.subrange(0, v@.len() as int) =~= idx@);
    let ghost wl = words(idx@);
    let mut s = String::new();
    if ws.len() == 0 {
        push_decimal(&mut s, r as u64);
        push_char(&mut s, ' ');
        push_decimal(&mut s, g as u64);
        push_char(&mut s, ' ');
        push_decimal(&mut s, b as u64);
        assert(s@ =~= decimal(r as nat).push(' ') + decimal(g as nat).push(' ') + decimal(
            b as nat,
        ));
        return s;
    }
    let ghost vals = wl.map_values(|w: Seq<char>| decimal(channel_value(w, r, g, b) as nat));
    let n = ws.len();
    assert(vals.take(0) =~= Seq::<Seq<char>>::empty());
    for i in 0..n
        invariant
            n == ws@.len(),
            wl == pieces(v@, ws@),
            ranges_within(ws@, 0, v@.len() as int),
            vals == wl.map_values(|w: Seq<char>| decimal(channel_value(w, r, g, b) as nat)),
            s@ == join_spaced(vals.take(i as int)),
    {
        let (a, e) = ws[i];
        assert(ws@[i as int].0 <= ws@[i as int].1 <= v@.len());
        let ghost s_old = s@;
        if i > 0 {
            push_char(&mut s, ' ');
        }
        let value = if crate::text::range_is(&v, a, e, "red") {
            r
        } else if crate::text::range_is(&v, a, e, "green") {
            g
        } else if crate::text::range_is(&v, a, e, "blue") {
            b
        } else {
            0
        };
        assert(value == channel_value(wl[i as int], r, g, b));
        let ghost before = s@;
        push_decimal(&mut s, value as u64);
        assert(vals.take(i + 1).drop_last() =~= vals.take(i as int));
        assert(vals.take(i + 1).last() == decimal(value as nat));
        if i == 0 {
            assert(vals.take(0) =~= Seq::<Seq<char>>::empty());
            assert(s@ =~= join_spaced(vals.take(i + 1)));
        } else {
            assert(before == s_old.push(' '));
            assert(s@ =~= join_spaced(vals.take(i + 1)));
        }
    }
    assert(vals.take(n as int) =~= vals);
    s
}

/// Where the kernel exposes LEDs.
pub open spec fn leds_dir() -> Seq<char> {
    "/sys/class/leds/"@
}

/// The LED node of the M-key written `u` (trimmed and upper-case).
pub open spec fn mkey_node_of(u: Seq<char>) -> Option<Seq<char>> {
    if u == "M1"@ {
        Some("g13:red:macro_preset_1"@)
    } else if u == "M2"@ {
        Some("g13:red:macro_preset_2"@)
    } else if u == "M3"@ {
        Some("g13:red:macro_preset_3"@)
    } else if u == "MR"@ {
        Some("g13:red:macro_record"@)
    } else {
        None
    }
}

/// The sysfs path of the indicator LED of M-key `mkey` (M1, M2, M3, MR;
/// surrounding white space and letter case do not matter), whether or not
/// it is present.
pub fn mkey_led(mkey: &str) -> (p: Option<String>)
    ensures
        p matches Some(s) ==> (mkey_node_of(uppercase(trim(mkey@))) matches Some(node) && s@
            == leds_dir() + node),
        p is None ==> mkey_node_of(uppercase(trim(mkey@))) is None,
{
    let t = trimmed(mkey);
    let u = to_uppercase(t.as_str());
    let node = if same_text(u.as_str(), "M1") {
        "g13:red:macro_preset_1"
    } else if same_text(u.as_str(), "M2") {
        "g13:red:macro_preset_2"
    } else if same_text(u.as_str(), "M3") {
        "g13:red:macro_preset_3"
    } else if same_text(u.as_str(), "MR") {
        "g13:red:macro_record"
    } else {
        return None;
    };
    let mut s = "/sys/class/leds/".to_string();
    push_str(&mut s, node);
    Some(s)
}

} // verus!
