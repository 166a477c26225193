//! Resolution of key names: the G13's source keys (G1..G22, M1..M3, MR,
//! L1..L4, LIGHT) to their input codes, and output key names to the codes
//! of the kernel's key table.

use crate::text::{
    chars_of, decimal, digit_char, has_prefix, lemma_parse_decimal, parse_unsigned, parse_unsigned_range, push_str, same_text, to_uppercase,
    trim, trimmed, uppercase,
};
use vstd::prelude::*;

verus! {

broadcast use vstd::string::group_string_axioms;

/// The code of G1 (`KEY_MACRO1`); G2..G22 follow it.
pub const G_KEY_BASE: u16 = 656;

/// Why a key name could not be resolved.
#[derive(Debug, PartialEq, Eq, Structural, Clone, Copy)]
pub enum KeyError {
    /// A `G` token whose number does not parse.
    BadGKey,
    /// A `G` token whose number is not 1..=22.
    GKeyOutOfRange,
    /// A token that names no source key.
    UnknownSource,
    /// A name that names no output key.
    UnknownOutput,
}

/// The code of the source key written `t` (already trimmed and upper-case).
pub open spec fn source_code_of(t: Seq<char>) -> Result<u16, KeyError> {
    if t.len() > 0 && t[0] == 'G' {
        match parse_unsigned(t.drop_first(), 65535) {
            None => Err(KeyError::BadGKey),
            Some(n) => if 1 <= n <= 22 {
                Ok((656 + n - 1) as u16)
            } else {
                Err(KeyError::GKeyOutOfRange)
            },
        }
    } else if t == "MR"@ {
        Ok(0x2b0)
    } else if t == "M1"@ {
        Ok(0x2b3)
    } else if t == "M2"@ {
        Ok(0x2b4)
    } else if t == "M3"@ {
        Ok(0x2b5)
    } else if t == "L1"@ {
        Ok(0x2b8)
    } else if t == "L2"@ {
        Ok(0x2b9)
    } else if t == "L3"@ {
        Ok(0x2ba)
    } else if t == "L4"@ {
        Ok(0x2bb)
    } else if t == "LIGHT"@ {
        Ok(0x21e)
    } else {
        Err(KeyError::UnknownSource)
    }
}

/// Law: the G-keys G1..G22 have consecutive codes from `G_KEY_BASE`, the
/// M-keys M1..M3 the codes 0x2b3..0x2b5, the LCD keys L1..L4 the codes
/// 0x2b8..0x2bb, MR 0x2b0 and LIGHT 0x21e.
pub proof fn lemma_source_key_codes(n: nat)
    ensures
        1 <= n <= 22 ==> source_code_of(seq!['G'] + decimal(n)) == Ok::<u16, KeyError>(
            (655 + n) as u16,
        ),
        1 <= n <= 3 ==> source_code_of(seq!['M', digit_char(n as int)]) == Ok::<u16, KeyError>(
            (0x2b2 + n) as u16,
        ),
        1 <= n <= 4 ==> source_code_of(seq!['L', digit_char(n as int)]) == Ok::<u16, KeyError>(
            (0x2b7 + n) as u16,
        ),
        source_code_of(seq!['M', 'R']) == Ok::<u16, KeyError>(0x2b0),
        source_code_of(seq!['L', 'I', 'G', 'H', 'T']) == Ok::<u16, KeyError>(0x21e),
{
    reveal_strlit("MR");
    reveal_strlit("M1");
    reveal_strlit("M2");
    reveal_strlit("M3");
    reveal_strlit("L1");
    reveal_strlit("L2");
    reveal_strlit("L3");
    reveal_strlit("L4");
    reveal_strlit("LIGHT");
    if 1 <= n <= 22 {
        let t = seq!['G'] + decimal(n);
        lemma_parse_decimal(n, 65535);
        assert(t.drop_first() =~= decimal(n));
    }
    assert(seq!['M', 'R'] =~= "MR"@);
    assert(seq!['L', 'I', 'G', 'H', 'T'] =~= "LIGHT"@);
    if n == 1 {
        assert(seq!['M', digit_char(1)] =~= "M1"@);
        assert(seq!['L', digit_char(1)] =~= "L1"@);
    } else if n == 2 {
        assert(seq!['M', digit_char(2)] =~= "M2"@);
        assert(seq!['L', digit_char(2)] =~= "L2"@);
    } else if n == 3 {
        assert(seq!['M', digit_char(3)] =~= "M3"@);
        assert(seq!['L', digit_char(3)] =~= "L3"@);
    } else if n == 4 {
        assert(seq!['L', digit_char(4)] =~= "L4"@);
    }
}

/// Law: two source key tokens that resolve to the same code name the same
/// key: they are the same token, or both are G-keys with the same number.
pub proof fn lemma_source_codes_distinct(t1: Seq<char>, t2: Seq<char>)
    requires
        source_code_of(t1) is Ok,
        source_code_of(t1) == source_code_of(t2),
    ensures
        t1 == t2 || (t1.len() > 0 && t1[0] == 'G' && t2.len() > 0 && t2[0] == 'G' && parse_unsigned(
            t1.drop_first(),
            65535,
        ) == parse_unsigned(t2.drop_first(), 65535)),
{
}

/// The code of the source key token `token`: it is trimmed, upper-cased,
/// then read as by `source_code_of`.
pub open spec fn source_token_code(token: Seq<char>) -> Result<u16, KeyError> {
    source_code_of(uppercase(trim(token)))
}

/// The code of the source key written `t`, which is already trimmed and
/// upper-case.
pub fn source_code_upper(t: &str) -> (r: Result<u16, KeyError>)
    ensures
        r == source_code_of(t@),
{
    let v = chars_of(t);
    if v.len() > 0 && v[0] == 'G' {
        assert(v@.subrange(1, v@.len() as int) =~= t@.drop_first());
        return match parse_unsigned_range(&v, 1, v.len(), 65535) {
            None => Err(KeyError::BadGKey),
            Some(n) => if 1 <= n && n <= 22 {
                Ok(G_KEY_BASE + (n as u16 - 1))
            } else {
                Err(KeyError::GKeyOutOfRange)
            },
        };
    }
    if same_text(t, "MR") {
        Ok(0x2b0)
    } else if same_text(t, "M1") {
        Ok(0x2b3)
    } else if same_text(t, "M2") {
        Ok(0x2b4)
    } else if same_text(t, "M3") {
        Ok(0x2b5)
    } else if same_text(t, "L1") {
        Ok(0x2b8)
    } else if same_text(t, "L2") {
        Ok(0x2b9)
    } else if same_text(t, "L3") {
        Ok(0x2ba)
    } else if same_text(t, "L4") {
        Ok(0x2bb)
    } else if same_text(t, "LIGHT") {
        Ok(0x21e)
    } else {
        Err(KeyError::UnknownSource)
    }
}

/// The code of the source key that `token` names (G1..G22, MR, M1..M3,
/// L1..L4, LIGHT; surrounding white space and letter case do not matter).
pub fn source_code(token: &str) -> (r: Result<u16, KeyError>)
    ensures
        r == source_token_code(token@),
{
    let t = trimmed(token);
    let u = to_uppercase(t.as_str());
    source_code_upper(u.as_str())
}

/// The name of the key code that `<evdev::Key as FromStr>` gives `name`.
pub uninterp spec fn evdev_key(name: Seq<char>) -> Option<u16>;

/// `<evdev::Key as FromStr>::from_str`: looks `name` up, exactly, among the
/// names of evdev's key constants (`KEY_A`, `BTN_SOUTH`, ...) and gives the
/// code of the first constant so named. A fixed table, so the result
/// depends on `name` alone; which names it holds is not stated here.
#[verifier::external_body]
fn evdev_key_from_name(name: &str) -> (r: Option<u16>)
    ensures
        r == evdev_key(name@),
{
    match name.parse::<evdev::Key>() {
        Ok(k) => Some(k.code()),
        Err(_) => None,
    }
}

/// The constant name first tried for the output name `n` (already trimmed
/// and upper-case): `n` itself when it starts with `KEY_` or `BTN_`,
/// otherwise `n` with `KEY_` in front.
pub open spec fn key_name_candidate(n: Seq<char>) -> Seq<char> {
    if has_prefix(n, "KEY_"@) || has_prefix(n, "BTN_"@) {
        n
    } else {
        "KEY_"@ + n
    }
}

/// The code of the output key named `n` (already trimmed and upper-case):
/// the key of `key_name_candidate(n)`, else the key of `n` itself.
pub open spec fn output_code_of(n: Seq<char>) -> Result<u16, KeyError> {
    match evdev_key(key_name_candidate(n)) {
        Some(k) => Ok(k),
        None => match evdev_key(n) {
            Some(k) => Ok(k),
            None => Err(KeyError::UnknownOutput),
        },
    }
}

/// The code of the output key that `name` names, trimmed and upper-cased.
pub open spec fn output_name_code(name: Seq<char>) -> Result<u16, KeyError> {
    output_code_of(uppercase(trim(name)))
}

fn starts_with_text(v: &Vec<char>, p: &str) -> (b: bool)
    ensures
        b == has_prefix(v@, p@),
{
    let pv = chars_of(p);
    if pv.len() > v.len() {
        return false;
    }
    let mut i: usize = 0;
    while i < pv.len()
        invariant
            pv.len() <= v.len(),
            i <= pv.len(),
            pv@ == p@,
            forall|j: int| 0 <= j < i ==> v@[j] == pv@[j],
        decreases pv.len() - i,
    {
        if v[i] != pv[i] {
            assert(v@.take(pv.len() as int)[i as int] != pv@[i as int]);
            return false;
        }
        i = i + 1;
    }
    assert(v@.take(pv.len() as int) =~= pv@);
    true
}

/// The constant name first tried for the output name `n` (already trimmed
/// and upper-case).
pub fn key_name_for(n: &str) -> (s: String)
    ensures
        s@ == key_name_candidate(n@),
{
    let v = chars_of(n);
    if starts_with_text(&v, "KEY_") || starts_with_text(&v, "BTN_") {
        n.to_string()
    } else {
        let mut s = "KEY_".to_string();
        push_str(&mut s, n);
        s
    }
}

/// The code of the output key that `name` names (`SPACE`, `KEY_SPACE`,
/// `1`, `BTN_SOUTH`, ...; surrounding white space and letter case do not
/// matter).
pub fn output_key(name: &str) -> (r: Result<u16, KeyError>)
    ensures
        r == output_name_code(name@),
{
    let t = trimmed(name);
    let n = to_uppercase(t.as_str());
    let pref = key_name_for(n.as_str());
    match evdev_key_from_name(pref.as_str()) {
        Some(k) => Ok(k),
        None => match evdev_key_from_name(n.as_str()) {
            Some(k) => Ok(k),
            None => Err(KeyError::UnknownOutput),
        },
    }
}

} // verus!
