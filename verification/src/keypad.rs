//! The keypad mapper: bindings compiled from the configuration into
//! code-to-chord tables per profile, the profile switching M-keys, and the
//! handling of one key event (true hold: a chord is pressed while its
//! source key is held and released, in reverse order, when it is let go).

use crate::codemap::CodeMap;
use crate::config::{color_for_of, default_name, resolved_of, text_opt, Config};
use crate::keys::{output_key, output_name_code, source_code, source_token_code, KeyError};
use crate::strmap::{ascending, lemma_take_contains, StrMap};
use crate::text::{
    chars_of, key_lt, lemma_key_lt_asymmetric, lemma_key_lt_irreflexive, pieces, split_on,
    split_ranges, string_of,
};
use vstd::prelude::*;

verus! {

broadcast use vstd::string::group_string_axioms;

/// The code in a resolved output key name (or 0 for one that failed).
pub open spec fn code_or_zero(r: Result<u16, KeyError>) -> u16 {
    match r {
        Ok(c) => c,
        Err(_) => 0,
    }
}

/// The output codes of the chord written `out` (`LEFTCTRL+1`): its
/// `+`-separated parts, each an output key name, if all of them resolve.
pub open spec fn chord_of(out: Seq<char>) -> Option<Seq<u16>> {
    let parts = split_on(out, '+');
    if forall|i: int| 0 <= i < parts.len() ==> (#[trigger] output_name_code(parts[i])) is Ok {
        Some(Seq::new(parts.len(), |i: int| code_or_zero(output_name_code(parts[i]))))
    } else {
        None
    }
}

/// Law: a chord written `A+B+...` resolves exactly when each of its
/// `+`-separated parts names a key, and then holds one key per part, in
/// the order written, each the key its part names.
pub proof fn lemma_chord_parts(out: Seq<char>)
    ensures
        chord_of(out) is Some <==> forall|i: int|
            0 <= i < split_on(out, '+').len() ==> (#[trigger] output_name_code(
                split_on(out, '+')[i],
            )) is Ok,
        chord_of(out) matches Some(c) ==> {
            &&& c.len() == split_on(out, '+').len()
            &&& forall|i: int|
                0 <= i < c.len() ==> output_name_code(split_on(out, '+')[i]) == Ok::<u16, KeyError>(
                    #[trigger] c[i],
                )
        },
{
}

/// The codes of a chord that resolved (empty for one that did not).
pub open spec fn chord_codes(out: Seq<char>) -> Seq<u16> {
    match chord_of(out) {
        Some(c) => c,
        None => Seq::empty(),
    }
}

/// Compiles the chord written `out` into its output codes; on failure,
/// the index of the first part that names no key.
pub fn compile_chord(out: &str) -> (r: Result<Vec<u16>, (usize, KeyError)>)
    ensures
        match r {
            Ok(v) => chord_of(out@) == Some(v@),
            Err((i, e)) => {
                &&& chord_of(out@) is None
                &&& i < split_on(out@, '+').len()
                &&& output_name_code(split_on(out@, '+')[i as int]) == Err::<u16, KeyError>(e)
                &&& forall|j: int|
                    0 <= j < i ==> (#[trigger] output_name_code(split_on(out@, '+')[j])) is Ok
            },
        },
{
    let v = chars_of(out);
    let rs = split_ranges(&v, 0, v.len(), '+');
    assert(v@.subrange(0, v@.len() as int) =~= out@);
    let ghost parts = split_on(out@, '+');
    let mut codes: Vec<u16> = Vec::new();
    let n = rs.len();
    for i in 0..n
        invariant
            n == rs@.len(),
            parts == pieces(v@, rs@),
            parts == split_on(out@, '+'),
            crate::text::ranges_within(rs@, 0, v@.len() as int),
            codes@.len() == i,
            forall|j: int| 0 <= j < i ==> (#[trigger] output_name_code(parts[j])) is Ok,
            forall|j: int|
                0 <= j < i ==> codes@[j] == #[trigger] code_or_zero(output_name_code(parts[j])),
    {
        let (a, b) = rs[i];
        assert(rs@[i as int].0 <= rs@[i as int].1 <= v@.len());
        let part = string_of(&v, a, b);
        assert(part@ == parts[i as int]);
        match output_key(part.as_str()) {
            Ok(k) => {
                codes.push(k);
            },
            Err(e) => {
                return Err((i, e));
            },
        }
    }
    assert(codes@ =~= Seq::new(
        parts.len(),
        |i: int| code_or_zero(output_name_code(parts[i])),
    ));
    Ok(codes)
}


/// Whether some source key name of `m` resolves to code `c`.
pub open spec fn coded_by<X>(m: Map<Seq<char>, X>, c: u16) -> bool {
    exists|s: Seq<char>| #[trigger] m.contains_key(s) && source_token_code(s) == Ok::<u16, KeyError>(c)
}

/// Whether `s` is, among the source key names of `m` that resolve to code
/// `c`, the one that sorts last: the one whose entry takes effect, as when
/// a map ordered by name is read in order.
pub open spec fn wins<X>(m: Map<Seq<char>, X>, c: u16, s: Seq<char>) -> bool {
    &&& m.contains_key(s)
    &&& source_token_code(s) == Ok::<u16, KeyError>(c)
    &&& forall|s2: Seq<char>| #[trigger]
        m.contains_key(s2) && source_token_code(s2) == Ok::<u16, KeyError>(c) ==> s2 == s
            || key_lt(s2, s)
}

/// The source key name of `m` whose entry takes effect for code `c`.
pub open spec fn winner<X>(m: Map<Seq<char>, X>, c: u16) -> Seq<char> {
    choose|s: Seq<char>| wins(m, c, s)
}

pub proof fn lemma_wins_unique<X>(m: Map<Seq<char>, X>, c: u16, s1: Seq<char>, s2: Seq<char>)
    requires
        wins(m, c, s1),
        wins(m, c, s2),
    ensures
        s1 == s2,
{
    lemma_key_lt_asymmetric(s1, s2);
}

pub proof fn lemma_winner<X>(m: Map<Seq<char>, X>, c: u16, s: Seq<char>)
    requires
        wins(m, c, s),
    ensures
        winner(m, c) == s,
{
    lemma_wins_unique(m, c, winner(m, c), s);
}

/// Adding a name that sorts after every name of `m`.
pub proof fn lemma_wins_extend<X>(m: Map<Seq<char>, X>, k: Seq<char>, x: X, c: u16, s: Seq<char>)
    requires
        forall|s2: Seq<char>| #[trigger] m.contains_key(s2) ==> key_lt(s2, k),
    ensures
        source_token_code(k) == Ok::<u16, KeyError>(c) ==> wins(m.insert(k, x), c, k),
        source_token_code(k) != Ok::<u16, KeyError>(c) ==> (wins(m, c, s) ==> wins(
            m.insert(k, x),
            c,
            s,
        )),
        coded_by(m.insert(k, x), c) <==> coded_by(m, c) || source_token_code(k) == Ok::<
            u16,
            KeyError,
        >(c),
{
    let m2 = m.insert(k, x);
    if coded_by(m2, c) {
        let s3 = choose|s3: Seq<char>| #[trigger]
            m2.contains_key(s3) && source_token_code(s3) == Ok::<u16, KeyError>(c);
        if s3 != k {
            assert(m.contains_key(s3));
        }
    }
    if coded_by(m, c) {
        let s3 = choose|s3: Seq<char>| #[trigger]
            m.contains_key(s3) && source_token_code(s3) == Ok::<u16, KeyError>(c);
        assert(m2.contains_key(s3));
    }
    if source_token_code(k) == Ok::<u16, KeyError>(c) {
        assert(m2.contains_key(k));
    }
}

/// The code-to-chord table compiled from the bindings `b`: each source
/// key's code maps to the chord of the binding that takes effect for it.
pub open spec fn compiled_of(b: Map<Seq<char>, Seq<char>>) -> Map<u16, Seq<u16>> {
    Map::new(|c: u16| coded_by(b, c), |c: u16| chord_codes(b[winner(b, c)]))
}

/// Law: the compiled table has an entry for exactly the codes that some
/// source key name of `b` resolves to; a binding whose name is the only
/// one for its code gives that code its own chord, and where several names
/// resolve to one code the one that sorts last takes effect.
pub proof fn lemma_compiled_bindings(b: Map<Seq<char>, Seq<char>>, s: Seq<char>, c: u16)
    requires
        b.contains_key(s),
        source_token_code(s) == Ok::<u16, KeyError>(c),
    ensures
        compiled_of(b).contains_key(c),
        (forall|s2: Seq<char>| #[trigger] b.contains_key(s2) && source_token_code(s2)
            == Ok::<u16, KeyError>(c) ==> s2 == s) ==> compiled_of(b)[c] == chord_codes(b[s]),
        (forall|s2: Seq<char>| #[trigger] b.contains_key(s2) && source_token_code(s2)
            == Ok::<u16, KeyError>(c) ==> s2 == s || key_lt(s2, s)) ==> compiled_of(b)[c]
            == chord_codes(b[s]),
        forall|d: u16| #[trigger] compiled_of(b).contains_key(d) ==> exists|s2: Seq<char>|
            b.contains_key(s2) && source_token_code(s2) == Ok::<u16, KeyError>(d),
{
    assert(coded_by(b, c));
    if forall|s2: Seq<char>| #[trigger] b.contains_key(s2) && source_token_code(s2)
        == Ok::<u16, KeyError>(c) ==> s2 == s || key_lt(s2, s) {
        assert(wins(b, c, s));
        lemma_winner(b, c, s);
    }
}

/// Whether every binding of `b` resolves: its source key and every key of
/// its chord.
pub open spec fn bindings_resolve(b: Map<Seq<char>, Seq<char>>) -> bool {
    forall|s: Seq<char>| #[trigger]
        b.contains_key(s) ==> source_token_code(s) is Ok && chord_of(b[s]) is Some
}

/// The error of a lookup that failed (an unknown output for one that did
/// not).
pub open spec fn err_of(r: Result<u16, KeyError>) -> KeyError {
    match r {
        Ok(_) => KeyError::UnknownOutput,
        Err(e) => e,
    }
}

/// Whether part `i` of the chord written `out` is the first that names no
/// key.
pub open spec fn is_first_bad_part(out: Seq<char>, i: int) -> bool {
    let parts = split_on(out, '+');
    &&& 0 <= i < parts.len()
    &&& output_name_code(parts[i]) is Err
    &&& forall|j: int| 0 <= j < i ==> (#[trigger] output_name_code(parts[j])) is Ok
}

/// The index of the first part of the chord written `out` that names no
/// key.
pub open spec fn first_bad_part(out: Seq<char>) -> int {
    choose|i: int| is_first_bad_part(out, i)
}

proof fn lemma_first_bad_part(out: Seq<char>, i: int)
    requires
        is_first_bad_part(out, i),
    ensures
        first_bad_part(out) == i,
{
    let k = first_bad_part(out);
    assert(is_first_bad_part(out, k));
    if k < i {
        assert(output_name_code(split_on(out, '+')[k]) is Ok);
    } else if i < k {
        assert(output_name_code(split_on(out, '+')[i]) is Ok);
    }
}

/// Why binding source key `s` to the chord written `out` fails: the
/// source key's error (with no part), else the first part of the chord
/// that names no key, with its error; none when the binding resolves.
pub open spec fn binding_error(s: Seq<char>, out: Seq<char>) -> Option<
    (Option<Seq<char>>, KeyError),
> {
    match source_token_code(s) {
        Err(e) => Some((None, e)),
        Ok(_) => match chord_of(out) {
            Some(_) => None,
            None => {
                let part = split_on(out, '+')[first_bad_part(out)];
                Some((Some(part), err_of(output_name_code(part))))
            },
        },
    }
}

/// Whether (`source`, `part`, `kind`) reports the failing binding of `b`
/// whose source key name sorts first.
pub open spec fn first_binding_error(
    b: Map<Seq<char>, Seq<char>>,
    source: Seq<char>,
    part: Option<Seq<char>>,
    kind: KeyError,
) -> bool {
    &&& b.contains_key(source)
    &&& binding_error(source, b[source]) == Some((part, kind))
    &&& forall|s: Seq<char>| #[trigger]
        b.contains_key(s) && key_lt(s, source) ==> binding_error(s, b[s]) is None
}

/// In ascending keys `ks` that are the names of `m`, a name of `m` that
/// sorts before `ks[i]` is among the first `i`.
proof fn lemma_sorts_before<X>(m: Map<Seq<char>, X>, ks: Seq<Seq<char>>, i: int, s: Seq<char>)
    requires
        ascending(ks),
        0 <= i < ks.len(),
        forall|q: Seq<char>| m.contains_key(q) <==> ks.contains(q),
        m.contains_key(s),
        key_lt(s, ks[i]),
    ensures
        prefix_map(m, ks, i).contains_key(s),
{
    assert(ks.contains(s));
    let j = choose|j: int| 0 <= j < ks.len() && ks[j] == s;
    lemma_key_lt_irreflexive(s);
    if j > i {
        assert(key_lt(ks[i], ks[j]));
        lemma_key_lt_asymmetric(ks[i], ks[j]);
    }
    assert(j < i);
    assert(ks.take(i)[j] == s);
    assert(ks.take(i).contains(s));
}

/// Whether `k` is an output code of some chord of `b`.
pub open spec fn outputs_of(b: Map<Seq<char>, Seq<char>>, k: u16) -> bool {
    exists|s: Seq<char>| #[trigger] b.contains_key(s) && chord_codes(b[s]).contains(k)
}

/// Where a binding failed to compile.
pub struct CompileError {
    /// The profile of the binding; empty for an M-key switch.
    pub profile: String,
    /// The source key name.
    pub source: String,
    /// The part of the chord that names no key, if it was the chord.
    pub part: Option<String>,
    pub kind: KeyError,
}

/// The prefix of `m` whose names are among the first `i` of `ks`.
pub open spec fn prefix_map<X>(m: Map<Seq<char>, X>, ks: Seq<Seq<char>>, i: int) -> Map<
    Seq<char>,
    X,
> {
    Map::new(|s: Seq<char>| ks.take(i).contains(s), |s: Seq<char>| m[s])
}

proof fn lemma_prefix_map_step<X>(m: Map<Seq<char>, X>, ks: Seq<Seq<char>>, i: int)
    requires
        0 <= i < ks.len(),
        ascending(ks),
    ensures
        prefix_map(m, ks, i + 1) == prefix_map(m, ks, i).insert(ks[i], m[ks[i]]),
        forall|s2: Seq<char>| #[trigger]
            prefix_map(m, ks, i).contains_key(s2) ==> key_lt(s2, ks[i]),
{
    assert forall|s: Seq<char>| ks.take(i + 1).contains(s) <==> ks.take(i).contains(s) || s
        == ks[i] by {
        lemma_take_contains(ks, i, s);
    }
    let a = prefix_map(m, ks, i + 1);
    let b = prefix_map(m, ks, i).insert(ks[i], m[ks[i]]);
    assert forall|s: Seq<char>| #[trigger] a.contains_key(s) <==> b.contains_key(s) by {
        lemma_take_contains(ks, i, s);
    }
    assert forall|s: Seq<char>| #[trigger] a.contains_key(s) implies a[s] == b[s] by {
        lemma_take_contains(ks, i, s);
        if s != ks[i] {
            assert(prefix_map(m, ks, i).contains_key(s));
        }
    }
    assert(a =~= b);
    assert forall|s2: Seq<char>| #[trigger]
        prefix_map(m, ks, i).contains_key(s2) implies key_lt(s2, ks[i]) by {
        let j = choose|j: int| 0 <= j < ks.take(i).len() && ks.take(i)[j] == s2;
        assert(ks[j] == s2);
    }
}

proof fn lemma_prefix_map_full<X>(m: Map<Seq<char>, X>, ks: Seq<Seq<char>>)
    requires
        forall|s: Seq<char>| m.contains_key(s) <==> ks.contains(s),
    ensures
        prefix_map(m, ks, ks.len() as int) == m,
{
    assert(ks.take(ks.len() as int) =~= ks);
    assert(prefix_map(m, ks, ks.len() as int) =~= m);
}

/// Compiles the bindings of profile `name` into a code-to-chord table and
/// the list of every output code the chords use.
pub fn compile_profile(name: &String, binds: &StrMap<String>) -> (r: Result<
    (CodeMap<Vec<u16>>, Vec<u16>),
    CompileError,
>)
    ensures
        match r {
            Ok((cm, keys)) => {
                &&& bindings_resolve(binds@)
                &&& cm@ == compiled_of(binds@)
                &&& forall|k: u16| keys@.contains(k) <==> outputs_of(binds@, k)
            },
            Err(e) => {
                &&& !bindings_resolve(binds@)
                &&& e.profile@ == name@
                &&& first_binding_error(binds@, e.source@, text_opt(e.part), e.kind)
            },
        },
{
    let n = binds.len();
    let ghost bk = binds.keys();
    let ghost bv = binds@;
    let mut cm: CodeMap<Vec<u16>> = CodeMap::new();
    let mut keys: Vec<u16> = Vec::new();
    assert(bk.take(0) =~= Seq::<Seq<char>>::empty());
    assert(cm@ =~= compiled_of(prefix_map(bv, bk, 0)));
    for i in 0..n
        invariant
            n == bk.len(),
            bk == binds.keys(),
            bv == binds@,
            ascending(bk),
            forall|s: Seq<char>| bv.contains_key(s) <==> bk.contains(s),
            bindings_resolve(prefix_map(bv, bk, i as int)),
            forall|c: u16| #[trigger]
                cm@.contains_key(c) <==> coded_by(prefix_map(bv, bk, i as int), c),
            forall|c: u16| #[trigger]
                cm@.contains_key(c) ==> exists|s: Seq<char>|
                    wins(prefix_map(bv, bk, i as int), c, s) && cm@[c] == chord_codes(
                        #[trigger] bv[s],
                    ),
            forall|k: u16| keys@.contains(k) <==> outputs_of(prefix_map(bv, bk, i as int), k),
    {
        let (src, out) = binds.entry_at(i);
        let ghost mi = prefix_map(bv, bk, i as int);
        let ghost k = bk[i as int];
        proof {
            lemma_prefix_map_step(bv, bk, i as int);
        }
        let code = match source_code(src.as_str()) {
            Ok(c) => c,
            Err(e) => {
                proof {
                    assert(bv.contains_key(k));
                    assert forall|q: Seq<char>| #[trigger]
                        bv.contains_key(q) && key_lt(q, k) implies binding_error(q, bv[q]) is None by {
                        lemma_sorts_before(bv, bk, i as int, q);
                    }
                }
                return Err(
                    CompileError { profile: name.clone(), source: src.clone(), part: None, kind: e },
                );
            },
        };
        let chord = match compile_chord(out.as_str()) {
            Ok(v) => v,
            Err((j, e)) => {
                proof {
                    assert(bv.contains_key(k));
                }
                let ov = chars_of(out.as_str());
                let rs = split_ranges(&ov, 0, ov.len(), '+');
                assert(ov@.subrange(0, ov@.len() as int) =~= out@);
                assert(rs@[j as int].0 <= rs@[j as int].1 <= ov@.len());
                let part = string_of(&ov, rs[j].0, rs[j].1);
                proof {
                    assert(part@ == split_on(out@, '+')[j as int]);
                    lemma_first_bad_part(out@, j as int);
                    assert forall|q: Seq<char>| #[trigger]
                        bv.contains_key(q) && key_lt(q, k) implies binding_error(q, bv[q]) is None by {
                        lemma_sorts_before(bv, bk, i as int, q);
                    }
                }
                return Err(
                    CompileError {
                        profile: name.clone(),
                        source: src.clone(),
                        part: Some(part),
                        kind: e,
                    },
                );
            },
        };
        let ghost old_keys = keys@;
        append_codes(&mut keys, &chord);
        let ghost old_cm = cm@;
        cm.insert(code, chord);
        proof {
            let mi1 = prefix_map(bv, bk, i + 1);
            assert(mi1 == mi.insert(k, bv[k]));
            assert(bv[k] == out@);
            assert forall|s: Seq<char>| #[trigger] mi1.contains_key(s) implies source_token_code(
                s,
            ) is Ok && chord_of(mi1[s]) is Some by {
                if s != k {
                    assert(mi.contains_key(s));
                }
            }
            assert forall|c: u16| #[trigger]
                cm@.contains_key(c) <==> coded_by(mi1, c) by {
                lemma_wins_extend(mi, k, bv[k], c, k);
            }
            assert forall|c: u16| #[trigger] cm@.contains_key(c) implies exists|s: Seq<char>|
                wins(mi1, c, s) && cm@[c] == chord_codes(#[trigger] bv[s]) by {
                if c == code {
                    lemma_wins_extend(mi, k, bv[k], c, k);
                    assert(wins(mi1, c, k) && cm@[c] == chord_codes(bv[k]));
                } else {
                    let s = choose|s: Seq<char>|
                        wins(mi, c, s) && old_cm[c] == chord_codes(#[trigger] bv[s]);
                    lemma_wins_extend(mi, k, bv[k], c, s);
                    assert(wins(mi1, c, s) && cm@[c] == chord_codes(bv[s]));
                }
            }
            assert forall|x: u16| keys@.contains(x) <==> outputs_of(mi1, x) by {
                if keys@.contains(x) {
                    let j = choose|j: int| 0 <= j < keys@.len() && keys@[j] == x;
                    if j < old_keys.len() {
                        assert(old_keys[j] == x);
                        assert(old_keys.contains(x));
                        let s = choose|s: Seq<char>| #[trigger]
                            mi.contains_key(s) && chord_codes(mi[s]).contains(x);
                        assert(mi1.contains_key(s) && chord_codes(mi1[s]).contains(x));
                    } else {
                        assert(chord@[j - old_keys.len()] == x);
                        assert(chord_codes(mi1[k]).contains(x));
                        assert(mi1.contains_key(k));
                    }
                }
                if outputs_of(mi1, x) {
                    let s = choose|s: Seq<char>| #[trigger]
                        mi1.contains_key(s) && chord_codes(mi1[s]).contains(x);
                    if s == k {
                        let j = choose|j: int| 0 <= j < chord@.len() && chord@[j] == x;
                        assert(keys@[old_keys.len() + j] == x);
                    } else {
                        assert(mi.contains_key(s) && chord_codes(mi[s]).contains(x));
                        assert(old_keys.contains(x));
                        let j = choose|j: int| 0 <= j < old_keys.len() && old_keys[j] == x;
                        assert(keys@[j] == x);
                    }
                }
            }
        }
    }
    proof {
        lemma_prefix_map_full(bv, bk);
        assert forall|c: u16| #[trigger] cm@.contains_key(c) implies cm@[c] == compiled_of(bv)[c] by {
            let s = choose|s: Seq<char>| wins(bv, c, s) && cm@[c] == chord_codes(#[trigger] bv[s]);
            lemma_winner(bv, c, s);
        }
        assert(cm@ =~= compiled_of(bv));
    }
    Ok((cm, keys))
}


/// Appends the codes `more` to `v`.
pub fn append_codes(v: &mut Vec<u16>, more: &Vec<u16>)
    ensures
        final(v)@ == old(v)@ + more@,
{
    let ghost v0 = v@;
    let mut t: usize = 0;
    while t < more.len()
        invariant
            t <= more@.len(),
            v@ == v0 + more@.take(t as int),
        decreases more@.len() - t,
    {
        v.push(more[t]);
        t = t + 1;
        assert(v@ =~= v0 + more@.take(t as int));
    }
    assert(more@.take(more@.len() as int) =~= more@);
}

/// Whether the bindings of every profile of `m` resolve.
pub open spec fn all_bindings_resolve(m: Map<Seq<char>, Map<Seq<char>, Seq<char>>>) -> bool {
    forall|p: Seq<char>| #[trigger] m.contains_key(p) ==> bindings_resolve(m[p])
}

/// Whether `k` is an output code of some chord of some profile of `m`.
pub open spec fn any_outputs(m: Map<Seq<char>, Map<Seq<char>, Seq<char>>>, k: u16) -> bool {
    exists|p: Seq<char>| #[trigger] m.contains_key(p) && outputs_of(m[p], k)
}

proof fn lemma_any_outputs_insert(
    m: Map<Seq<char>, Map<Seq<char>, Seq<char>>>,
    p: Seq<char>,
    b: Map<Seq<char>, Seq<char>>,
    k: u16,
)
    requires
        !m.contains_key(p),
    ensures
        any_outputs(m.insert(p, b), k) <==> any_outputs(m, k) || outputs_of(b, k),
{
    let m2 = m.insert(p, b);
    if any_outputs(m2, k) {
        let q = choose|q: Seq<char>| #[trigger] m2.contains_key(q) && outputs_of(m2[q], k);
        if q != p {
            assert(m.contains_key(q) && outputs_of(m[q], k));
        }
    }
    if any_outputs(m, k) {
        let q = choose|q: Seq<char>| #[trigger] m.contains_key(q) && outputs_of(m[q], k);
        assert(m2.contains_key(q) && outputs_of(m2[q], k));
    }
    if outputs_of(b, k) {
        assert(m2.contains_key(p) && outputs_of(m2[p], k));
    }
}

proof fn lemma_concat_contains(a: Seq<u16>, b: Seq<u16>, k: u16)
    ensures
        (a + b).contains(k) <==> a.contains(k) || b.contains(k),
{
    if (a + b).contains(k) {
        let j = choose|j: int| 0 <= j < (a + b).len() && (a + b)[j] == k;
        if j < a.len() {
            assert(a[j] == k);
        } else {
            assert(b[j - a.len()] == k);
        }
    }
    if a.contains(k) {
        let j = choose|j: int| 0 <= j < a.len() && a[j] == k;
        assert((a + b)[j] == k);
    }
    if b.contains(k) {
        let j = choose|j: int| 0 <= j < b.len() && b[j] == k;
        assert((a + b)[a.len() + j] == k);
    }
}

/// The M-key indicator entries of the profile switches `pk` read in the
/// key order `ks`: each source name that, trimmed and upper-cased, starts
/// with `M`, with the profile it selects.
pub open spec fn mkey_entries(ks: Seq<Seq<char>>, pk: Map<Seq<char>, Seq<char>>) -> Seq<
    (Seq<char>, Seq<char>),
>
    decreases ks.len(),
{
    if ks.len() == 0 {
        Seq::empty()
    } else {
        let rest = mkey_entries(ks.drop_last(), pk);
        let u = crate::text::uppercase(crate::text::trim(ks.last()));
        if u.len() > 0 && u[0] == 'M' {
            rest.push((u, pk[ks.last()]))
        } else {
            rest
        }
    }
}

/// The name under which a switching source key's indicator is listed: its
/// trimmed, upper-cased name.
pub open spec fn indicator_name(s: Seq<char>) -> Seq<char> {
    crate::text::uppercase(crate::text::trim(s))
}

/// Whether the switching source key `s` is an M-key (its indicator name
/// starts with `M`: M1, M2, M3, MR).
pub open spec fn is_mkey_name(s: Seq<char>) -> bool {
    indicator_name(s).len() > 0 && indicator_name(s)[0] == 'M'
}

/// Law: the M-key indicator entries are exactly the M-keys among the
/// switching source keys `ks`, each with the profile it selects, in the
/// order of `ks`: every M-key is listed (MR among them), and nothing else.
pub proof fn lemma_mkey_entries_exact(ks: Seq<Seq<char>>, pk: Map<Seq<char>, Seq<char>>)
    ensures
        forall|i: int|
            0 <= i < ks.len() && #[trigger] is_mkey_name(ks[i]) ==> mkey_entries(ks, pk).contains(
                (indicator_name(ks[i]), pk[ks[i]]),
            ),
        forall|j: int|
            0 <= j < mkey_entries(ks, pk).len() ==> exists|i: int|
                0 <= i < ks.len() && is_mkey_name(ks[i]) && #[trigger] mkey_entries(ks, pk)[j] == (
                    indicator_name(ks[i]),
                    pk[ks[i]],
                ),
        mkey_entries(ks, pk).len() <= ks.len(),
    decreases ks.len(),
{
    if ks.len() > 0 {
        let d = ks.drop_last();
        lemma_mkey_entries_exact(d, pk);
        let rest = mkey_entries(d, pk);
        let e = mkey_entries(ks, pk);
        assert forall|i: int|
            0 <= i < ks.len() && #[trigger] is_mkey_name(ks[i]) implies e.contains(
                (indicator_name(ks[i]), pk[ks[i]]),
            ) by {
            if i < ks.len() - 1 {
                assert(d[i] == ks[i]);
                assert(is_mkey_name(d[i]));
                assert(rest.contains((indicator_name(d[i]), pk[d[i]])));
                let j = choose|j: int| 0 <= j < rest.len() && rest[j] == (indicator_name(d[i]), pk[d[i]]);
                assert(e[j] == rest[j]);
            } else {
                assert(ks[i] == ks.last());
                assert(e[rest.len() as int] == (indicator_name(ks[i]), pk[ks[i]]));
            }
        }
        assert forall|j: int| 0 <= j < e.len() implies exists|i: int|
            0 <= i < ks.len() && is_mkey_name(ks[i]) && #[trigger] e[j] == (
                indicator_name(ks[i]),
                pk[ks[i]],
            ) by {
            if j < rest.len() {
                assert(e[j] == rest[j]);
                let i = choose|i: int|
                    0 <= i < d.len() && is_mkey_name(d[i]) && #[trigger] rest[j] == (
                        indicator_name(d[i]),
                        pk[d[i]],
                    );
                assert(d[i] == ks[i]);
            } else {
                let i = ks.len() - 1;
                assert(ks[i] == ks.last());
            }
        }
    }
}

/// The smallest name of `m`.
pub open spec fn least_name<X>(m: Map<Seq<char>, X>) -> Seq<char> {
    choose|k: Seq<char>|
        m.contains_key(k) && forall|k2: Seq<char>| #[trigger]
            m.contains_key(k2) ==> k2 == k || key_lt(k, k2)
}

/// The profile active at start: `"default"` if there is one, else the one
/// whose name sorts first.
pub open spec fn initial_active<X>(m: Map<Seq<char>, X>) -> Seq<char> {
    if m.contains_key(default_name()) || m.dom() == Set::<Seq<char>>::empty() {
        default_name()
    } else {
        least_name(m)
    }
}

/// The colour of every profile of `res` whose colour `cfg` names and
/// parses.
pub open spec fn colors_of(
    res: Map<Seq<char>, Map<Seq<char>, Seq<char>>>,
    profiles: Map<Seq<char>, (Option<Seq<char>>, Map<Seq<char>, Seq<char>>)>,
) -> Map<Seq<char>, (u8, u8, u8)> {
    Map::new(
        |p: Seq<char>| res.contains_key(p) && color_for_of(profiles, p) is Some,
        |p: Seq<char>|
            match color_for_of(profiles, p) {
                Some(c) => c,
                None => (0u8, 0u8, 0u8),
            },
    )
}

/// The profile that each switching source key's code selects.
pub open spec fn switch_of(pk: Map<Seq<char>, Seq<char>>) -> Map<u16, Seq<char>> {
    Map::new(|c: u16| coded_by(pk, c), |c: u16| pk[winner(pk, c)])
}

/// Whether `p` is the profile of `m` that sorts first among those whose
/// bindings do not all resolve.
pub open spec fn first_failing_profile(m: Map<Seq<char>, Map<Seq<char>, Seq<char>>>, p: Seq<char>) -> bool {
    &&& m.contains_key(p)
    &&& !bindings_resolve(m[p])
    &&& forall|q: Seq<char>| #[trigger] m.contains_key(q) && key_lt(q, p) ==> bindings_resolve(m[q])
}

/// Whether `source`, with error `kind`, is the switching source key of `pk`
/// that sorts first among those that do not resolve.
pub open spec fn first_switch_error(pk: Map<Seq<char>, Seq<char>>, source: Seq<char>, kind: KeyError) -> bool {
    &&& pk.contains_key(source)
    &&& source_token_code(source) == Err::<u16, KeyError>(kind)
    &&& forall|s: Seq<char>| #[trigger] pk.contains_key(s) && key_lt(s, source) ==> source_token_code(s) is Ok
}

/// Whether every switching source key of `pk` resolves.
pub open spec fn switches_resolve(pk: Map<Seq<char>, Seq<char>>) -> bool {
    forall|s: Seq<char>| #[trigger] pk.contains_key(s) ==> source_token_code(s) is Ok
}

/// The compiled keypad configuration and the active profile.
pub struct KeyMap {
    /// Profile name to code-to-chord table.
    pub profiles: StrMap<CodeMap<Vec<u16>>>,
    /// Backlight colour per profile.
    pub colors: StrMap<(u8, u8, u8)>,
    /// Source code of a switching key to the profile it selects.
    pub profile_switch: CodeMap<String>,
    /// M-key name and the profile it selects, for the indicator LEDs.
    pub mkey_profiles: Vec<(String, String)>,
    /// The active profile.
    pub active: String,
    /// Every output code that some chord uses.
    pub all_keys: Vec<u16>,
    /// Each source code that is held down, with the output keys its press
    /// pressed.
    pub held: CodeMap<Vec<u16>>,
}

/// The entries of a list of text pairs.
pub open spec fn pairs_view(v: Seq<(String, String)>) -> Seq<(Seq<char>, Seq<char>)> {
    v.map_values(|e: (String, String)| (e.0@, e.1@))
}

impl KeyMap {
    /// Compiles the configuration: every profile's bindings, the profile
    /// colours, the switching M-keys, and the profile active at start.
    pub fn new(cfg: &Config) -> (r: Result<KeyMap, CompileError>)
        ensures
            ({
                let res = resolved_of(cfg.profiles@, cfg.bindings@);
                let all_resolve = all_bindings_resolve(res) && switches_resolve(cfg.profile_keys@);
                match r {
                    Ok(km) => {
                        &&& all_resolve
                        &&& km.profiles@ == res.map_values(
                            |b: Map<Seq<char>, Seq<char>>| compiled_of(b),
                        )
                        &&& forall|k: u16| km.all_keys@.contains(k) <==> any_outputs(res, k)
                        &&& km.colors@ == colors_of(res, cfg.profiles@)
                        &&& km.profile_switch@ == switch_of(cfg.profile_keys@)
                        &&& pairs_view(km.mkey_profiles@) == mkey_entries(
                            cfg.profile_keys.keys(),
                            cfg.profile_keys@,
                        )
                        &&& km.active@ == initial_active(res)
                        &&& km.profiles@.contains_key(km.active@)
                        &&& km.held@ == Map::<u16, Seq<u16>>::empty()
                    },
                    Err(e) => {
                        &&& !all_resolve
                        &&& if all_bindings_resolve(res) {
                            &&& e.profile@ == Seq::<char>::empty()
                            &&& e.part is None
                            &&& first_switch_error(cfg.profile_keys@, e.source@, e.kind)
                        } else {
                            &&& first_failing_profile(res, e.profile@)
                            &&& first_binding_error(res[e.profile@], e.source@, text_opt(e.part), e.kind)
                        }
                    },
                }
            }),
    {
        let resolved = cfg.resolved();
        let ghost res = resolved@;
        let ghost rk = resolved.keys();
        let n = resolved.len();
        let mut profiles: StrMap<CodeMap<Vec<u16>>> = StrMap::new();
        let mut all_keys: Vec<u16> = Vec::new();
        for i in 0..n
            invariant
                n == rk.len(),
                rk == resolved.keys(),
                res == resolved@,
                res == resolved_of(cfg.profiles@, cfg.bindings@),
                ascending(rk),
                forall|p: Seq<char>| res.contains_key(p) <==> rk.contains(p),
                all_bindings_resolve(prefix_map(res, rk, i as int)),
                profiles@ == prefix_map(res, rk, i as int).map_values(
                    |b: Map<Seq<char>, Seq<char>>| compiled_of(b),
                ),
                forall|k: u16| all_keys@.contains(k) <==> any_outputs(prefix_map(res, rk, i as int), k),
        {
            let (pname, binds) = resolved.entry_at(i);
            let ghost pi = prefix_map(res, rk, i as int);
            let ghost pv = pname@;
            proof {
                lemma_prefix_map_step(res, rk, i as int);
                lemma_key_lt_irreflexive(pv);
                assert(!pi.contains_key(pv));
            }
            assert(binds@ == res[pv]);
            match compile_profile(pname, binds) {
                Ok((cm, keys)) => {
                    let ghost old_keys = all_keys@;
                    append_codes(&mut all_keys, &keys);
                    let ghost old_profiles = profiles@;
                    profiles.insert(pname.clone(), cm);
                    proof {
                        let pi1 = prefix_map(res, rk, i + 1);
                        assert(pi1 == pi.insert(pv, res[pv]));
                        assert(bindings_resolve(res[pv]));
                        assert(profiles@ =~= pi1.map_values(
                            |b: Map<Seq<char>, Seq<char>>| compiled_of(b),
                        ));
                        assert forall|p: Seq<char>| #[trigger]
                            pi1.contains_key(p) implies bindings_resolve(pi1[p]) by {
                            if p != pv {
                                assert(pi.contains_key(p));
                            }
                        }
                        assert forall|k: u16|
                            all_keys@.contains(k) <==> any_outputs(pi1, k) by {
                            lemma_concat_contains(old_keys, keys@, k);
                            lemma_any_outputs_insert(pi, pv, res[pv], k);
                        }
                    }
                },
                Err(e) => {
                    proof {
                        assert(res.contains_key(pv));
                        assert(!bindings_resolve(res[pv]));
                        assert(!all_bindings_resolve(res));
                        assert forall|q: Seq<char>| #[trigger]
                            res.contains_key(q) && key_lt(q, pv) implies bindings_resolve(res[q]) by {
                            lemma_sorts_before(res, rk, i as int, q);
                        }
                    }
                    return Err(e);
                },
            }
        }
        proof {
            lemma_prefix_map_full(res, rk);
        }
        let colors = Self::profile_colors(cfg, &resolved);
        let (profile_switch, mkey_profiles) = match Self::switches(cfg) {
            Ok(x) => x,
            Err(e) => {
                return Err(e);
            },
        };
        let active = match resolved.get("default") {
            Some(_) => "default".to_string(),
            None => match resolved.first_key() {
                Some(k) => k.clone(),
                None => "default".to_string(),
            },
        };
        proof {
            crate::config::lemma_resolved_nonempty(cfg.profiles@, cfg.bindings@);
            if !res.contains_key(default_name()) && res.dom() != Set::<Seq<char>>::empty() {
                let k = rk[0];
                assert(res.contains_key(k) && forall|k2: Seq<char>| #[trigger]
                    res.contains_key(k2) ==> k2 == k || key_lt(k, k2));
                let w = least_name(res);
                lemma_key_lt_asymmetric(k, w);
            }
        }
        Ok(KeyMap { profiles, colors, profile_switch, mkey_profiles, active, all_keys, held: CodeMap::new() })
    }

    /// The colour of every profile of `resolved` that `cfg` gives one.
    fn profile_colors(cfg: &Config, resolved: &StrMap<StrMap<String>>) -> (colors: StrMap<
        (u8, u8, u8),
    >)
        ensures
            colors@ == colors_of(resolved@, cfg.profiles@),
    {
        let n = resolved.len();
        let ghost res = resolved@;
        let ghost rk = resolved.keys();
        let mut colors: StrMap<(u8, u8, u8)> = StrMap::new();
        for i in 0..n
            invariant
                n == rk.len(),
                rk == resolved.keys(),
                res == resolved@,
                ascending(rk),
                forall|p: Seq<char>| res.contains_key(p) <==> rk.contains(p),
                colors@ == colors_of(prefix_map(res, rk, i as int), cfg.profiles@),
        {
            let (pname, _) = resolved.entry_at(i);
            proof {
                lemma_prefix_map_step(res, rk, i as int);
            }
            let ghost pi = prefix_map(res, rk, i as int);
            assert(prefix_map(res, rk, i + 1) == pi.insert(pname@, res[pname@]));
            match cfg.color_for(pname.as_str()) {
                Some(c) => {
                    colors.insert(pname.clone(), c);
                },
                None => {},
            }
            assert(colors@ =~= colors_of(prefix_map(res, rk, i + 1), cfg.profiles@));
        }
        proof {
            lemma_prefix_map_full(res, rk);
        }
        colors
    }

    /// The profile switches and the M-key indicator entries.
    fn switches(cfg: &Config) -> (r: Result<(CodeMap<String>, Vec<(String, String)>), CompileError>)
        ensures
            match r {
                Ok((sw, mk)) => {
                    &&& switches_resolve(cfg.profile_keys@)
                    &&& sw@ == switch_of(cfg.profile_keys@)
                    &&& pairs_view(mk@) == mkey_entries(cfg.profile_keys.keys(), cfg.profile_keys@)
                },
                Err(e) => {
                    &&& !switches_resolve(cfg.profile_keys@)
                    &&& e.profile@ == Seq::<char>::empty()
                    &&& e.part is None
                    &&& first_switch_error(cfg.profile_keys@, e.source@, e.kind)
                },
            },
    {
        let pkm = &cfg.profile_keys;
        let n = pkm.len();
        let ghost pk = pkm@;
        let ghost ks = pkm.keys();
        let mut sw: CodeMap<String> = CodeMap::new();
        let mut mk: Vec<(String, String)> = Vec::new();
        assert(ks.take(0) =~= Seq::<Seq<char>>::empty());
        assert(pairs_view(mk@) =~= mkey_entries(ks.take(0), pk));
        for i in 0..n
            invariant
                n == ks.len(),
                ks == pkm.keys(),
                pk == pkm@,
                pk == cfg.profile_keys@,
                ks == cfg.profile_keys.keys(),
                ascending(ks),
                forall|s: Seq<char>| pk.contains_key(s) <==> ks.contains(s),
                switches_resolve(prefix_map(pk, ks, i as int)),
                forall|c: u16| #[trigger]
                    sw@.contains_key(c) <==> coded_by(prefix_map(pk, ks, i as int), c),
                forall|c: u16| #[trigger]
                    sw@.contains_key(c) ==> exists|s: Seq<char>|
                        wins(prefix_map(pk, ks, i as int), c, s) && sw@[c] == #[trigger] pk[s],
                pairs_view(mk@) == mkey_entries(ks.take(i as int), pk),
        {
            let (src, pname) = pkm.entry_at(i);
            let ghost mi = prefix_map(pk, ks, i as int);
            let ghost k = ks[i as int];
            proof {
                lemma_prefix_map_step(pk, ks, i as int);
            }
            let code = match source_code(src.as_str()) {
                Ok(c) => c,
                Err(e) => {
                    proof {
                        assert(pk.contains_key(k));
                        assert(source_token_code(k) is Err);
                        assert(!switches_resolve(pk));
                        assert forall|q: Seq<char>| #[trigger]
                            pk.contains_key(q) && key_lt(q, k) implies source_token_code(q) is Ok by {
                            lemma_sorts_before(pk, ks, i as int, q);
                        }
                    }
                    return Err(
                        CompileError {
                            profile: String::new(),
                            source: src.clone(),
                            part: None,
                            kind: e,
                        },
                    );
                },
            };
            let ghost old_sw = sw@;
            sw.insert(code, pname.clone());
            let t = crate::text::trimmed(src.as_str());
            let u = crate::text::to_uppercase(t.as_str());
            let uv = chars_of(u.as_str());
            let ghost old_mk = mk@;
            if uv.len() > 0 && uv[0] == 'M' {
                mk.push((u, pname.clone()));
            }
            proof {
                let mi1 = prefix_map(pk, ks, i + 1);
                assert(mi1 == mi.insert(k, pk[k]));
                assert forall|s: Seq<char>| #[trigger] mi1.contains_key(s) implies source_token_code(
                    s,
                ) is Ok by {
                    if s != k {
                        assert(mi.contains_key(s));
                    }
                }
                assert forall|c: u16| #[trigger] sw@.contains_key(c) <==> coded_by(mi1, c) by {
                    lemma_wins_extend(mi, k, pk[k], c, k);
                }
                assert forall|c: u16| #[trigger] sw@.contains_key(c) implies exists|s: Seq<char>|
                    wins(mi1, c, s) && sw@[c] == #[trigger] pk[s] by {
                    if c == code {
                        lemma_wins_extend(mi, k, pk[k], c, k);
                        assert(wins(mi1, c, k) && sw@[c] == pk[k]);
                    } else {
                        let s = choose|s: Seq<char>| wins(mi, c, s) && old_sw[c] == #[trigger] pk[s];
                        lemma_wins_extend(mi, k, pk[k], c, s);
                        assert(wins(mi1, c, s) && sw@[c] == pk[s]);
                    }
                }
                assert(ks.take(i + 1).drop_last() =~= ks.take(i as int));
                assert(ks.take(i + 1).last() == k);
                assert(pairs_view(mk@) =~= mkey_entries(ks.take(i + 1), pk));
            }
        }
        proof {
            lemma_prefix_map_full(pk, ks);
            assert(ks.take(n as int) =~= ks);
            assert forall|c: u16| #[trigger] sw@.contains_key(c) implies sw@[c] == switch_of(pk)[c] by {
                let s = choose|s: Seq<char>| wins(pk, c, s) && sw@[c] == #[trigger] pk[s];
                lemma_winner(pk, c, s);
            }
            assert(sw@ =~= switch_of(pk));
        }
        Ok((sw, mk))
    }
}


/// Whether source code `code` is bound in profile `active`.
pub open spec fn bound_in(
    profiles: Map<Seq<char>, Map<u16, Seq<u16>>>,
    active: Seq<char>,
    code: u16,
) -> bool {
    profiles.contains_key(active) && profiles[active].contains_key(code)
}

/// The keys of `old` followed by those of `new` that are not among them
/// yet, in order.
pub open spec fn merged(old: Seq<u16>, new: Seq<u16>) -> Seq<u16>
    decreases new.len(),
{
    if new.len() == 0 {
        old
    } else {
        let m = merged(old, new.drop_last());
        if m.contains(new.last()) {
            m
        } else {
            m.push(new.last())
        }
    }
}

/// The output events for source code `code` with event value `value`,
/// with profile `active` active and `held` giving, for each source code
/// that is held down, the output keys its presses pressed: a press (1)
/// presses the key's chord in `active` in order; a release (0) of a held
/// key releases what its presses pressed, in reverse order, whatever
/// profile is active by then, and a release of a key that is not held
/// releases its chord in `active` in reverse order; anything else
/// (autorepeat) gives nothing, and so does a key that is not bound.
pub open spec fn key_events(
    profiles: Map<Seq<char>, Map<u16, Seq<u16>>>,
    active: Seq<char>,
    held: Map<u16, Seq<u16>>,
    code: u16,
    value: i32,
) -> Seq<(u16, i32)> {
    if value == 1 {
        if bound_in(profiles, active, code) {
            profiles[active][code].map_values(|k: u16| (k, 1i32))
        } else {
            Seq::empty()
        }
    } else if value == 0 {
        if held.contains_key(code) {
            held[code].reverse().map_values(|k: u16| (k, 0i32))
        } else if bound_in(profiles, active, code) {
            profiles[active][code].reverse().map_values(|k: u16| (k, 0i32))
        } else {
            Seq::empty()
        }
    } else {
        Seq::empty()
    }
}

/// The held source keys after that event: a press that emits a chord
/// records its keys (added to those an earlier press of the same key
/// recorded), a release forgets the key, anything else changes nothing.
pub open spec fn next_held(
    profiles: Map<Seq<char>, Map<u16, Seq<u16>>>,
    active: Seq<char>,
    held: Map<u16, Seq<u16>>,
    code: u16,
    value: i32,
) -> Map<u16, Seq<u16>> {
    if value == 1 {
        if bound_in(profiles, active, code) {
            if held.contains_key(code) {
                held.insert(code, merged(held[code], profiles[active][code]))
            } else {
                held.insert(code, profiles[active][code])
            }
        } else {
            held
        }
    } else if value == 0 {
        held.remove(code)
    } else {
        held
    }
}

/// Whether the event is the press of a profile-switching key.
pub open spec fn is_switch_press(switch: Map<u16, Seq<char>>, code: u16, value: i32) -> bool {
    value == 1 && switch.contains_key(code)
}

/// The held source keys after one event of the keypad: a switching press
/// changes nothing held.
pub open spec fn step_held(
    profiles: Map<Seq<char>, Map<u16, Seq<u16>>>,
    switch: Map<u16, Seq<char>>,
    active: Seq<char>,
    held: Map<u16, Seq<u16>>,
    code: u16,
    value: i32,
) -> Map<u16, Seq<u16>> {
    if is_switch_press(switch, code, value) {
        held
    } else {
        next_held(profiles, active, held, code, value)
    }
}

/// The output events of one event of the keypad: a switching press emits
/// nothing.
pub open spec fn step_events(
    profiles: Map<Seq<char>, Map<u16, Seq<u16>>>,
    switch: Map<u16, Seq<char>>,
    active: Seq<char>,
    held: Map<u16, Seq<u16>>,
    code: u16,
    value: i32,
) -> Seq<(u16, i32)> {
    if is_switch_press(switch, code, value) {
        Seq::empty()
    } else {
        key_events(profiles, active, held, code, value)
    }
}

/// The active profile and the held source keys after the events `events`
/// (source code and value), from `active` and `held`.
pub open spec fn run_events(
    profiles: Map<Seq<char>, Map<u16, Seq<u16>>>,
    switch: Map<u16, Seq<char>>,
    active: Seq<char>,
    held: Map<u16, Seq<u16>>,
    events: Seq<(u16, i32)>,
) -> (Seq<char>, Map<u16, Seq<u16>>)
    decreases events.len(),
{
    if events.len() == 0 {
        (active, held)
    } else {
        let (a, h) = run_events(profiles, switch, active, held, events.drop_last());
        let e = events.last();
        (next_active(profiles, switch, a, e.0, e.1), step_held(profiles, switch, a, h, e.0, e.1))
    }
}

/// Whether the last press or release of source code `code` among `events`
/// is a release, or there is none.
pub open spec fn ends_released(events: Seq<(u16, i32)>, code: u16) -> bool
    decreases events.len(),
{
    if events.len() == 0 {
        true
    } else if events.last().0 == code && events.last().1 == 0 {
        true
    } else if events.last().0 == code && events.last().1 == 1 {
        false
    } else {
        ends_released(events.drop_last(), code)
    }
}

/// Events on other source codes leave what `code` holds alone.
proof fn lemma_run_keeps(
    profiles: Map<Seq<char>, Map<u16, Seq<u16>>>,
    switch: Map<u16, Seq<char>>,
    active: Seq<char>,
    held: Map<u16, Seq<u16>>,
    events: Seq<(u16, i32)>,
    code: u16,
)
    requires
        forall|i: int| 0 <= i < events.len() ==> (#[trigger] events[i]).0 != code,
    ensures
        run_events(profiles, switch, active, held, events).1.contains_key(code)
            == held.contains_key(code),
        held.contains_key(code) ==> run_events(profiles, switch, active, held, events).1[code]
            == held[code],
    decreases events.len(),
{
    if events.len() > 0 {
        let d = events.drop_last();
        assert forall|i: int| 0 <= i < d.len() implies (#[trigger] d[i]).0 != code by {
            assert(d[i] == events[i]);
        }
        assert(events.last() == events[events.len() - 1]);
        lemma_run_keeps(profiles, switch, active, held, d, code);
    }
}

/// Law: releasing a bound source key releases exactly the keys that
/// pressing it pressed, in reverse order, whatever profile switches and
/// other keys came between: keys never stay stuck.
pub proof fn lemma_release_reverses_press(
    profiles: Map<Seq<char>, Map<u16, Seq<u16>>>,
    switch: Map<u16, Seq<char>>,
    active: Seq<char>,
    held: Map<u16, Seq<u16>>,
    code: u16,
    between: Seq<(u16, i32)>,
)
    requires
        !held.contains_key(code),
        !switch.contains_key(code),
        bound_in(profiles, active, code),
        forall|i: int| 0 <= i < between.len() ==> (#[trigger] between[i]).0 != code,
    ensures
        ({
            let pressed = step_events(profiles, switch, active, held, code, 1);
            let h1 = step_held(profiles, switch, active, held, code, 1);
            let a1 = next_active(profiles, switch, active, code, 1);
            let (a2, h2) = run_events(profiles, switch, a1, h1, between);
            let released = step_events(profiles, switch, a2, h2, code, 0);
            &&& released.map_values(|e: (u16, i32)| e.0) == pressed.map_values(
                |e: (u16, i32)| e.0,
            ).reverse()
            &&& forall|i: int| 0 <= i < pressed.len() ==> (#[trigger] pressed[i]).1 == 1
            &&& forall|i: int| 0 <= i < released.len() ==> (#[trigger] released[i]).1 == 0
            &&& !step_held(profiles, switch, a2, h2, code, 0).contains_key(code)
        }),
{
    let pressed = step_events(profiles, switch, active, held, code, 1);
    let h1 = step_held(profiles, switch, active, held, code, 1);
    let a1 = next_active(profiles, switch, active, code, 1);
    lemma_run_keeps(profiles, switch, a1, h1, between, code);
    let (a2, h2) = run_events(profiles, switch, a1, h1, between);
    let released = step_events(profiles, switch, a2, h2, code, 0);
    let ks = profiles[active][code];
    assert(h2[code] == ks);
    assert(released.map_values(|e: (u16, i32)| e.0) =~= ks.reverse());
    assert(pressed.map_values(|e: (u16, i32)| e.0) =~= ks);
}

/// Every key of `old` and of `new` is among the merged keys.
proof fn lemma_merged_contains(old: Seq<u16>, new: Seq<u16>)
    ensures
        forall|i: int| 0 <= i < old.len() ==> merged(old, new).contains(#[trigger] old[i]),
        forall|i: int| 0 <= i < new.len() ==> merged(old, new).contains(#[trigger] new[i]),
    decreases new.len(),
{
    if new.len() > 0 {
        let d = new.drop_last();
        lemma_merged_contains(old, d);
        let m = merged(old, d);
        assert forall|i: int| 0 <= i < old.len() implies merged(old, new).contains(#[trigger] old[i]) by {
            assert(m.contains(old[i]));
            if !m.contains(new.last()) {
                let j = choose|j: int| 0 <= j < m.len() && m[j] == old[i];
                assert(m.push(new.last())[j] == old[i]);
            }
        }
        assert forall|i: int| 0 <= i < new.len() implies merged(old, new).contains(#[trigger] new[i]) by {
            if i < new.len() - 1 {
                assert(d[i] == new[i]);
                assert(m.contains(d[i]));
                if !m.contains(new.last()) {
                    let j = choose|j: int| 0 <= j < m.len() && m[j] == new[i];
                    assert(m.push(new.last())[j] == new[i]);
                }
            } else {
                if !m.contains(new.last()) {
                    assert(m.push(new.last())[m.len() as int] == new.last());
                }
            }
        }
    }
}

/// Law: pressing a source key that is bound in the active profile and
/// switches no profile sends every key of its chord there, in order, each
/// pressed, and nothing else; the key is then held with every key of that
/// chord recorded (exactly that chord when it was not held before).
/// Releasing a bound key whose press was not recorded releases that
/// chord's keys in reverse order.
pub proof fn lemma_press_sends_chord(
    profiles: Map<Seq<char>, Map<u16, Seq<u16>>>,
    switch: Map<u16, Seq<char>>,
    active: Seq<char>,
    held: Map<u16, Seq<u16>>,
    code: u16,
)
    requires
        profiles.contains_key(active),
        profiles[active].contains_key(code),
        !switch.contains_key(code),
    ensures
        ({
            let chord = profiles[active][code];
            let pressed = step_events(profiles, switch, active, held, code, 1);
            let h = step_held(profiles, switch, active, held, code, 1);
            &&& pressed.len() == chord.len()
            &&& forall|i: int| 0 <= i < chord.len() ==> #[trigger] pressed[i] == (chord[i], 1i32)
            &&& h.contains_key(code)
            &&& forall|i: int| 0 <= i < chord.len() ==> h[code].contains(#[trigger] chord[i])
            &&& !held.contains_key(code) ==> h[code] == chord
            &&& forall|c: u16| c != code ==> #[trigger] h.contains_key(c) == held.contains_key(c)
            &&& !held.contains_key(code) ==> {
                let released = step_events(profiles, switch, active, held, code, 0);
                &&& released.len() == chord.len()
                &&& forall|i: int|
                    0 <= i < chord.len() ==> #[trigger] released[i] == (chord[chord.len() - 1 - i], 0i32)
            }
        }),
{
    let chord = profiles[active][code];
    if held.contains_key(code) {
        lemma_merged_contains(held[code], chord);
    }
}

/// Law: once every source key has been released, no source key is held and
/// so no output key is held down, whatever profile switches happened.
pub proof fn lemma_all_released(
    profiles: Map<Seq<char>, Map<u16, Seq<u16>>>,
    switch: Map<u16, Seq<char>>,
    active: Seq<char>,
    events: Seq<(u16, i32)>,
)
    requires
        forall|c: u16| #[trigger] ends_released(events, c),
    ensures
        run_events(profiles, switch, active, Map::empty(), events).1 == Map::<u16, Seq<u16>>::empty(),
{
    assert forall|c: u16| !#[trigger] run_events(profiles, switch, active, Map::empty(), events).1.contains_key(c) by {
        lemma_released_not_held(profiles, switch, active, events, c);
    }
    assert(run_events(profiles, switch, active, Map::empty(), events).1 =~= Map::<u16, Seq<u16>>::empty());
}

proof fn lemma_released_not_held(
    profiles: Map<Seq<char>, Map<u16, Seq<u16>>>,
    switch: Map<u16, Seq<char>>,
    active: Seq<char>,
    events: Seq<(u16, i32)>,
    c: u16,
)
    requires
        ends_released(events, c),
    ensures
        !run_events(profiles, switch, active, Map::empty(), events).1.contains_key(c),
    decreases events.len(),
{
    if events.len() > 0 {
        let e = events.last();
        if !(e.0 == c && e.1 == 0) {
            lemma_released_not_held(profiles, switch, active, events.drop_last(), c);
        }
    }
}

/// Law: autorepeat of a held source key emits nothing and changes nothing
/// held, so a chord stays held, unrepeated, for as long as its key is.
pub proof fn lemma_repeat_is_silent(
    profiles: Map<Seq<char>, Map<u16, Seq<u16>>>,
    switch: Map<u16, Seq<char>>,
    active: Seq<char>,
    held: Map<u16, Seq<u16>>,
    code: u16,
)
    ensures
        step_events(profiles, switch, active, held, code, 2) == Seq::<(u16, i32)>::empty(),
        step_held(profiles, switch, active, held, code, 2) == held,
        next_active(profiles, switch, active, code, 2) == active,
{
}

/// The profile active after source code `code` gives event value `value`
/// with `active` active: a press of a switching key selects its profile
/// when that profile exists; anything else keeps `active`.
pub open spec fn next_active(
    profiles: Map<Seq<char>, Map<u16, Seq<u16>>>,
    switch: Map<u16, Seq<char>>,
    active: Seq<char>,
    code: u16,
    value: i32,
) -> Seq<char> {
    if value == 1 && switch.contains_key(code) && profiles.contains_key(switch[code]) {
        switch[code]
    } else {
        active
    }
}

/// Each M-key indicator entry of `mk` (M-key, profile) with whether it is
/// lit while `active` is the active profile: exactly when it selects it.
pub open spec fn indicator_states(mk: Seq<(Seq<char>, Seq<char>)>, active: Seq<char>) -> Seq<
    (Seq<char>, bool),
> {
    mk.map_values(|e: (Seq<char>, Seq<char>)| (e.0, e.1 == active))
}

/// The entries of a list of texts with flags.
pub open spec fn flags_view(v: Seq<(String, bool)>) -> Seq<(Seq<char>, bool)> {
    v.map_values(|e: (String, bool)| (e.0@, e.1))
}

/// Law: pressing an M-key whose profile exists makes that profile active
/// and lights exactly the indicators of the M-keys that select it; any
/// other event keeps the active profile; and an active profile that
/// exists stays one that exists.
pub proof fn lemma_switch_lights(
    profiles: Map<Seq<char>, Map<u16, Seq<u16>>>,
    switch: Map<u16, Seq<char>>,
    mk: Seq<(Seq<char>, Seq<char>)>,
    active: Seq<char>,
    code: u16,
    value: i32,
)
    ensures
        value == 1 && switch.contains_key(code) && profiles.contains_key(switch[code]) ==> {
            &&& next_active(profiles, switch, active, code, value) == switch[code]
            &&& indicator_states(mk, next_active(profiles, switch, active, code, value)).len()
                == mk.len()
            &&& forall|i: int|
                0 <= i < mk.len() ==> (#[trigger] indicator_states(
                    mk,
                    next_active(profiles, switch, active, code, value),
                )[i]).1 == (mk[i].1 == switch[code])
        },
        !(value == 1 && switch.contains_key(code)) ==> next_active(
            profiles,
            switch,
            active,
            code,
            value,
        ) == active,
        profiles.contains_key(active) ==> profiles.contains_key(
            next_active(profiles, switch, active, code, value),
        ),
{
}

/// What one key event did.
pub struct KeyOutcome {
    /// The events to emit, in order.
    pub events: Vec<(u16, i32)>,
    /// Whether the active profile changed.
    pub switched: bool,
}

/// Appends the presses of `keys`, in order, to `events`, and gives a copy
/// of `keys`.
fn press_events(keys: &Vec<u16>, events: &mut Vec<(u16, i32)>) -> (pressed: Vec<u16>)
    ensures
        final(events)@ == old(events)@ + keys@.map_values(|k: u16| (k, 1i32)),
        pressed@ == keys@,
{
    let ghost e0 = events@;
    let n = keys.len();
    let mut pressed: Vec<u16> = Vec::new();
    for i in 0..n
        invariant
            n == keys@.len(),
            events@ == e0 + keys@.take(i as int).map_values(|k: u16| (k, 1i32)),
            pressed@ == keys@.take(i as int),
    {
        events.push((keys[i], 1));
        pressed.push(keys[i]);
        assert(keys@.take(i + 1).map_values(|k: u16| (k, 1i32)) =~= keys@.take(
            i as int,
        ).map_values(|k: u16| (k, 1i32)).push((keys@[i as int], 1i32)));
        assert(pressed@ =~= keys@.take(i + 1));
    }
    assert(keys@.take(n as int) =~= keys@);
    pressed
}

/// Appends the releases of `keys`, in reverse order, to `events`.
fn release_events(keys: &Vec<u16>, events: &mut Vec<(u16, i32)>)
    ensures
        final(events)@ == old(events)@ + keys@.reverse().map_values(|k: u16| (k, 0i32)),
{
    let ghost e0 = events@;
    let n = keys.len();
    let mut i = n;
    assert(keys@.subrange(n as int, n as int).reverse().map_values(|k: u16| (k, 0i32))
        =~= Seq::<(u16, i32)>::empty());
    while i > 0
        invariant
            n == keys@.len(),
            i <= n,
            events@ == e0 + keys@.subrange(i as int, n as int).reverse().map_values(
                |k: u16| (k, 0i32),
            ),
        decreases i,
    {
        i = i - 1;
        events.push((keys[i], 0));
        assert(keys@.subrange(i as int, n as int).reverse().map_values(|k: u16| (k, 0i32))
            =~= keys@.subrange(i + 1, n as int).reverse().map_values(|k: u16| (k, 0i32)).push(
            (keys@[i as int], 0i32),
        ));
    }
    assert(keys@.subrange(0, n as int) =~= keys@);
}

/// Whether `k` is among `v`.
fn has_code(v: &Vec<u16>, k: u16) -> (b: bool)
    ensures
        b == v@.contains(k),
{
    let mut i: usize = 0;
    while i < v.len()
        invariant
            i <= v@.len(),
            forall|j: int| 0 <= j < i ==> v@[j] != k,
        decreases v@.len() - i,
    {
        if v[i] == k {
            return true;
        }
        i = i + 1;
    }
    false
}

/// The keys of `old` followed by those of `new` not among them yet.
fn merge_codes(old: Vec<u16>, new: &Vec<u16>) -> (r: Vec<u16>)
    ensures
        r@ == merged(old@, new@),
{
    let ghost o = old@;
    let mut r = old;
    let n = new.len();
    assert(new@.take(0) =~= Seq::<u16>::empty());
    for i in 0..n
        invariant
            n == new@.len(),
            r@ == merged(o, new@.take(i as int)),
    {
        let k = new[i];
        assert(new@.take(i + 1).drop_last() =~= new@.take(i as int));
        assert(new@.take(i + 1).last() == k);
        if !has_code(&r, k) {
            r.push(k);
        }
    }
    assert(new@.take(n as int) =~= new@);
    r
}

impl KeyMap {
    /// Handles one key event of the keypad: a press of a profile-switching
    /// key selects its profile (when that profile exists) and emits
    /// nothing; otherwise a press presses the active profile's chord for
    /// the key and records it, a release releases what the key's presses
    /// pressed (the active chord when none was recorded), and autorepeat is
    /// left alone.
    pub fn handle(&mut self, code: u16, value: i32) -> (r: KeyOutcome)
        ensures
            final(self).profiles@ == old(self).profiles@,
            final(self).colors@ == old(self).colors@,
            final(self).profile_switch@ == old(self).profile_switch@,
            final(self).mkey_profiles@ == old(self).mkey_profiles@,
            final(self).all_keys@ == old(self).all_keys@,
            old(self).profiles@.contains_key(old(self).active@)
                ==> final(self).profiles@.contains_key(final(self).active@),
            final(self).active@ == next_active(
                old(self).profiles@,
                old(self).profile_switch@,
                old(self).active@,
                code,
                value,
            ),
            final(self).held@ == step_held(
                old(self).profiles@,
                old(self).profile_switch@,
                old(self).active@,
                old(self).held@,
                code,
                value,
            ),
            r.events@ == step_events(
                old(self).profiles@,
                old(self).profile_switch@,
                old(self).active@,
                old(self).held@,
                code,
                value,
            ),
            r.switched == (is_switch_press(old(self).profile_switch@, code, value)
                && old(self).profiles@.contains_key(old(self).profile_switch@[code])),
    {
        let mut events: Vec<(u16, i32)> = Vec::new();
        if value == 1 {
            match self.profile_switch.get(code) {
                Some(target) => {
                    if self.profiles.contains_key(target.as_str()) {
                        self.active = target.clone();
                        return KeyOutcome { events, switched: true };
                    }
                    return KeyOutcome { events, switched: false };
                },
                None => {},
            }
        }
        let action = match self.profiles.get(self.active.as_str()) {
            Some(m) => m.get(code),
            None => None,
        };
        if value == 1 {
            match action {
                None => {},
                Some(keys) => {
                    let pressed = press_events(keys, &mut events);
                    let ghost h0 = self.held@;
                    let record = match self.held.remove(code) {
                        None => pressed,
                        Some(old_keys) => merge_codes(old_keys, &pressed),
                    };
                    self.held.insert(code, record);
                    assert(self.held@ =~= step_held(
                        old(self).profiles@,
                        old(self).profile_switch@,
                        old(self).active@,
                        h0,
                        code,
                        value,
                    ));
                },
            }
        } else if value == 0 {
            match self.held.remove(code) {
                Some(keys) => {
                    release_events(&keys, &mut events);
                },
                None => {
                    match action {
                        Some(keys) => {
                            release_events(keys, &mut events);
                        },
                        None => {},
                    }
                },
            }
        }
        assert(events@ =~= step_events(
            old(self).profiles@,
            old(self).profile_switch@,
            old(self).active@,
            old(self).held@,
            code,
            value,
        ));
        KeyOutcome { events, switched: false }
    }

    /// The backlight colour of the active profile, if it has one, and for
    /// each M-key indicator whether it selects the active profile.
    pub fn indicators(&self) -> (r: (Option<(u8, u8, u8)>, Vec<(String, bool)>))
        ensures
            r.0 == (if self.colors@.contains_key(self.active@) {
                Some(self.colors@[self.active@])
            } else {
                None
            }),
            flags_view(r.1@) == indicator_states(pairs_view(self.mkey_profiles@), self.active@),
            r.1@.len() == self.mkey_profiles@.len(),
            forall|i: int|
                0 <= i < r.1@.len() ==> (#[trigger] r.1@[i]).0@ == self.mkey_profiles@[i].0@
                    && r.1@[i].1 == (self.mkey_profiles@[i].1@ == self.active@),
    {
        let color = match self.colors.get(self.active.as_str()) {
            Some(c) => Some(*c),
            None => None,
        };
        let n = self.mkey_profiles.len();
        let mut leds: Vec<(String, bool)> = Vec::new();
        for i in 0..n
            invariant
                n == self.mkey_profiles@.len(),
                leds@.len() == i,
                forall|j: int|
                    0 <= j < i ==> (#[trigger] leds@[j]).0@ == self.mkey_profiles@[j].0@
                        && leds@[j].1 == (self.mkey_profiles@[j].1@ == self.active@),
        {
            let e = &self.mkey_profiles[i];
            let on = crate::text::same_text(e.1.as_str(), self.active.as_str());
            let ghost before = leds@;
            leds.push((e.0.clone(), on));
            assert forall|j: int| 0 <= j < i + 1 implies (#[trigger] leds@[j]).0@
                == self.mkey_profiles@[j].0@ && leds@[j].1 == (self.mkey_profiles@[j].1@
                == self.active@) by {
                if j < i {
                    assert(leds@[j] == before[j]);
                }
            }
        }
        assert(flags_view(leds@) =~= indicator_states(pairs_view(self.mkey_profiles@), self.active@));
        (color, leds)
    }
}

} // verus!
