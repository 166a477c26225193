//! Character-level text helpers with exact specifications: whitespace,
//! trimming, splitting, decimal parsing and formatting.

use vstd::prelude::*;

verus! {

broadcast use {vstd::string::group_string_axioms, vstd::utf8::char_u32_cast, vstd::utf8::char_is_scalar};

/// The Unicode `White_Space` property, which `char::is_whitespace` tests.
pub open spec fn is_ws(c: char) -> bool {
    let u = c as u32;
    ||| 0x09 <= u <= 0x0d
    ||| u == 0x20
    ||| u == 0x85
    ||| u == 0xa0
    ||| u == 0x1680
    ||| 0x2000 <= u <= 0x200a
    ||| u == 0x2028
    ||| u == 0x2029
    ||| u == 0x202f
    ||| u == 0x205f
    ||| u == 0x3000
}

/// Whether `c` is white space.
pub fn is_whitespace(c: char) -> (b: bool)
    ensures
        b == is_ws(c),
{
    let u = c as u32;
    (0x09 <= u && u <= 0x0d) || u == 0x20 || u == 0x85 || u == 0xa0 || u == 0x1680 || (0x2000
        <= u && u <= 0x200a) || u == 0x2028 || u == 0x2029 || u == 0x202f || u == 0x205f || u
        == 0x3000
}

/// The characters of `s`, in order.
pub fn chars_of(s: &str) -> (v: Vec<char>)
    ensures
        v@ == s@,
{
    let mut v: Vec<char> = Vec::new();
    for c in it: s.chars()
        invariant
            v@ == it.seq().take(it.index() as int),
    {
        v.push(c);
    }
    v
}

/// `String::push`: appends one character.
#[verifier::external_body]
pub(crate) fn push_char(s: &mut String, c: char)
    ensures
        final(s)@ == old(s)@.push(c),
{
    s.push(c);
}

/// The string made of the characters `v[from..to]`.
pub fn string_of(v: &Vec<char>, from: usize, to: usize) -> (s: String)
    requires
        from <= to <= v.len(),
    ensures
        s@ == v@.subrange(from as int, to as int),
{
    let mut s = String::new();
    let mut i = from;
    while i < to
        invariant
            from <= i <= to <= v.len(),
            s@ == v@.subrange(from as int, i as int),
        decreases to - i,
    {
        push_char(&mut s, v[i]);
        i = i + 1;
        assert(s@ =~= v@.subrange(from as int, i as int));
    }
    s
}


/// `s` without its leading white space.
pub open spec fn trim_start(s: Seq<char>) -> Seq<char>
    decreases s.len(),
{
    if s.len() > 0 && is_ws(s[0]) {
        trim_start(s.drop_first())
    } else {
        s
    }
}

/// `s` without its trailing white space.
pub open spec fn trim_end(s: Seq<char>) -> Seq<char>
    decreases s.len(),
{
    if s.len() > 0 && is_ws(s.last()) {
        trim_end(s.drop_last())
    } else {
        s
    }
}

/// `s` without leading and trailing white space (`str::trim`).
pub open spec fn trim(s: Seq<char>) -> Seq<char> {
    trim_end(trim_start(s))
}

/// The bounds, within `v[from..to]`, of that range with its surrounding
/// white space removed.
pub fn trim_range(v: &Vec<char>, from: usize, to: usize) -> (r: (usize, usize))
    requires
        from <= to <= v.len(),
    ensures
        from <= r.0 <= r.1 <= to,
        v@.subrange(r.0 as int, r.1 as int) == trim(v@.subrange(from as int, to as int)),
{
    let mut a = from;
    while a < to && is_whitespace(v[a])
        invariant
            from <= a <= to <= v.len(),
            trim_start(v@.subrange(from as int, to as int)) == trim_start(
                v@.subrange(a as int, to as int),
            ),
        decreases to - a,
    {
        assert(v@.subrange(a as int, to as int).drop_first() =~= v@.subrange(
            a + 1,
            to as int,
        ));
        a = a + 1;
    }
    assert(trim_start(v@.subrange(a as int, to as int)) == v@.subrange(a as int, to as int));
    let mut b = to;
    while b > a && is_whitespace(v[b - 1])
        invariant
            from <= a <= b <= to <= v.len(),
            trim(v@.subrange(from as int, to as int)) == trim_end(
                v@.subrange(a as int, b as int),
            ),
        decreases b - a,
    {
        assert(v@.subrange(a as int, b as int).drop_last() =~= v@.subrange(
            a as int,
            b - 1,
        ));
        b = b - 1;
    }
    (a, b)
}

/// Whether `c` does not occur in `s`.
pub open spec fn lacks(s: Seq<char>, c: char) -> bool {
    forall|i: int| 0 <= i < s.len() ==> #[trigger] s[i] != c
}

/// The pieces of `s` between occurrences of `sep` (`str::split` with a
/// character pattern): one more piece than there are separators.
pub open spec fn split_on(s: Seq<char>, sep: char) -> Seq<Seq<char>>
    decreases s.len(),
{
    if s.len() == 0 {
        seq![Seq::<char>::empty()]
    } else {
        let rest = split_on(s.drop_last(), sep);
        if s.last() == sep {
            rest.push(Seq::<char>::empty())
        } else {
            rest.update(rest.len() - 1, rest.last().push(s.last()))
        }
    }
}

pub proof fn lemma_split_on_nonempty(s: Seq<char>, sep: char)
    ensures
        split_on(s, sep).len() >= 1,
    decreases s.len(),
{
    if s.len() > 0 {
        lemma_split_on_nonempty(s.drop_last(), sep);
    }
}

/// The strings that the ranges `rs` select from `v`.
pub open spec fn pieces(v: Seq<char>, rs: Seq<(usize, usize)>) -> Seq<Seq<char>> {
    rs.map_values(|r: (usize, usize)| v.subrange(r.0 as int, r.1 as int))
}

/// Whether every range of `rs` lies within `v[from..to]`.
pub open spec fn ranges_within(rs: Seq<(usize, usize)>, from: int, to: int) -> bool {
    forall|i: int| 0 <= i < rs.len() ==> from <= #[trigger] rs[i].0 <= rs[i].1 <= to
}

/// The ranges of the pieces of `v[from..to]` between occurrences of `sep`.
pub fn split_ranges(v: &Vec<char>, from: usize, to: usize, sep: char) -> (rs: Vec<(usize, usize)>)
    requires
        from <= to <= v.len(),
    ensures
        ranges_within(rs@, from as int, to as int),
        pieces(v@, rs@) == split_on(v@.subrange(from as int, to as int), sep),
{
    let mut rs: Vec<(usize, usize)> = Vec::new();
    let mut start = from;
    let mut i = from;
    assert(v@.subrange(from as int, from as int) =~= Seq::<char>::empty());
    assert(pieces(v@, rs@).push(v@.subrange(start as int, i as int)) =~= split_on(
        v@.subrange(from as int, i as int),
        sep,
    ));
    while i < to
        invariant
            from <= start <= i <= to <= v.len(),
            ranges_within(rs@, from as int, to as int),
            pieces(v@, rs@).push(v@.subrange(start as int, i as int)) == split_on(
                v@.subrange(from as int, i as int),
                sep,
            ),
        decreases to - i,
    {
        let ghost before = v@.subrange(from as int, i as int);
        let ghost after = v@.subrange(from as int, i + 1);
        assert(after.drop_last() =~= before);
        assert(after.last() == v@[i as int]);
        if v[i] == sep {
            let ghost p = pieces(v@, rs@);
            let ghost cur = v@.subrange(start as int, i as int);
            rs.push((start, i));
            assert(pieces(v@, rs@) =~= p.push(cur));
            start = i + 1;
            i = i + 1;
            assert(v@.subrange(start as int, i as int) =~= Seq::<char>::empty());
            assert(pieces(v@, rs@).push(v@.subrange(start as int, i as int)) =~= split_on(
                after,
                sep,
            ));
        } else {
            let ghost p = pieces(v@, rs@);
            let ghost cur = v@.subrange(start as int, i as int);
            let ghost rest = split_on(before, sep);
            assert(rest == p.push(cur));
            assert(rest.last() == cur);
            assert(rest.update(rest.len() - 1, cur.push(v@[i as int])) =~= p.push(
                cur.push(v@[i as int]),
            ));
            i = i + 1;
            assert(v@.subrange(start as int, i as int) =~= cur.push(v@[i - 1]));
            assert(pieces(v@, rs@).push(v@.subrange(start as int, i as int)) =~= split_on(
                after,
                sep,
            ));
        }
    }
    let ghost p = pieces(v@, rs@);
    rs.push((start, to));
    assert(pieces(v@, rs@) =~= p.push(v@.subrange(start as int, to as int)));
    assert(pieces(v@, rs@) =~= split_on(v@.subrange(from as int, to as int), sep));
    rs
}


/// The white-space separated words of `s`, built left to right: the words
/// completed so far and the word being read.
pub open spec fn words_acc(s: Seq<char>) -> (Seq<Seq<char>>, Seq<char>)
    decreases s.len(),
{
    if s.len() == 0 {
        (Seq::<Seq<char>>::empty(), Seq::<char>::empty())
    } else {
        let (w, cur) = words_acc(s.drop_last());
        if is_ws(s.last()) {
            if cur.len() > 0 {
                (w.push(cur), Seq::<char>::empty())
            } else {
                (w, cur)
            }
        } else {
            (w, cur.push(s.last()))
        }
    }
}

/// The white-space separated words of `s` (`str::split_whitespace`).
pub open spec fn words(s: Seq<char>) -> Seq<Seq<char>> {
    let (w, cur) = words_acc(s);
    if cur.len() > 0 {
        w.push(cur)
    } else {
        w
    }
}

/// The ranges of the white-space separated words of `v[from..to]`.
pub fn word_ranges(v: &Vec<char>, from: usize, to: usize) -> (rs: Vec<(usize, usize)>)
    requires
        from <= to <= v.len(),
    ensures
        ranges_within(rs@, from as int, to as int),
        pieces(v@, rs@) == words(v@.subrange(from as int, to as int)),
{
    let mut rs: Vec<(usize, usize)> = Vec::new();
    let mut start = from;
    let mut i = from;
    assert(v@.subrange(from as int, from as int) =~= Seq::<char>::empty());
    while i < to
        invariant
            from <= start <= i <= to <= v.len(),
            ranges_within(rs@, from as int, to as int),
            words_acc(v@.subrange(from as int, i as int)) == (
                pieces(v@, rs@),
                v@.subrange(start as int, i as int),
            ),
        decreases to - i,
    {
        let ghost before = v@.subrange(from as int, i as int);
        let ghost after = v@.subrange(from as int, i + 1);
        let ghost p = pieces(v@, rs@);
        let ghost cur = v@.subrange(start as int, i as int);
        assert(after.drop_last() =~= before);
        assert(after.last() == v@[i as int]);
        if is_whitespace(v[i]) {
            if start < i {
                rs.push((start, i));
                assert(pieces(v@, rs@) =~= p.push(cur));
            } else {
                assert(cur =~= Seq::<char>::empty());
            }
            start = i + 1;
            i = i + 1;
            assert(v@.subrange(start as int, i as int) =~= Seq::<char>::empty());
        } else {
            i = i + 1;
            assert(v@.subrange(start as int, i as int) =~= cur.push(v@[i - 1]));
        }
    }
    if start < to {
        let ghost p = pieces(v@, rs@);
        rs.push((start, to));
        assert(pieces(v@, rs@) =~= p.push(v@.subrange(start as int, to as int)));
    }
    rs
}

/// Whether `c` is an ASCII decimal digit.
pub open spec fn is_digit(c: char) -> bool {
    48 <= (c as u32) <= 57
}

/// The value of the decimal digit `c`.
pub open spec fn digit_val(c: char) -> nat {
    ((c as u32) - 48) as nat
}

pub open spec fn all_digits(s: Seq<char>) -> bool {
    forall|i: int| 0 <= i < s.len() ==> is_digit(#[trigger] s[i])
}

/// The number that the decimal digits `s` write.
pub open spec fn digits_value(s: Seq<char>) -> nat
    decreases s.len(),
{
    if s.len() == 0 {
        0
    } else {
        digits_value(s.drop_last()) * 10 + digit_val(s.last())
    }
}

/// `s` with one leading `+` removed.
pub open spec fn unsigned_digits(s: Seq<char>) -> Seq<char> {
    if s.len() > 0 && s[0] == '+' {
        s.drop_first()
    } else {
        s
    }
}

/// What `FromStr` for an unsigned integer type whose largest value is `max`
/// makes of `s`: an optional `+` and then at least one decimal digit, whose
/// value must not exceed `max`.
pub open spec fn parse_unsigned(s: Seq<char>, max: nat) -> Option<nat> {
    let d = unsigned_digits(s);
    if d.len() > 0 && all_digits(d) && digits_value(d) <= max {
        Some(digits_value(d))
    } else {
        None
    }
}

proof fn lemma_digits_value_prefix(s: Seq<char>, k: int)
    requires
        all_digits(s),
        0 <= k <= s.len(),
    ensures
        digits_value(s.take(k)) <= digits_value(s),
    decreases s.len(),
{
    if k < s.len() {
        assert(all_digits(s.drop_last()));
        lemma_digits_value_prefix(s.drop_last(), k);
        assert(s.drop_last().take(k) =~= s.take(k));
    } else {
        assert(s.take(k) =~= s);
    }
}

/// Parses `v[from..to]` as an unsigned decimal number no larger than `max`.
pub fn parse_unsigned_range(v: &Vec<char>, from: usize, to: usize, max: u64) -> (r: Option<u64>)
    requires
        from <= to <= v.len(),
    ensures
        match r {
            Some(n) => parse_unsigned(v@.subrange(from as int, to as int), max as nat) == Some(
                n as nat,
            ),
            None => parse_unsigned(v@.subrange(from as int, to as int), max as nat) is None,
        },
{
    let ghost s = v@.subrange(from as int, to as int);
    let mut start = from;
    if from < to && v[from] == '+' {
        start = from + 1;
    }
    assert(unsigned_digits(s) =~= v@.subrange(start as int, to as int));
    if start == to {
        return None;
    }
    let ghost d = v@.subrange(start as int, to as int);
    assert(unsigned_digits(s) == d);
    let mut acc: u64 = 0;
    let mut i = start;
    assert(d.take(0) =~= Seq::<char>::empty());
    while i < to
        invariant
            from <= start <= i <= to <= v.len(),
            d == v@.subrange(start as int, to as int),
            s == v@.subrange(from as int, to as int),
            unsigned_digits(s) == d,
            d.len() > 0,
            all_digits(d.take(i - start)),
            acc as nat == digits_value(d.take(i - start)),
            acc <= max,
        decreases to - i,
    {
        let c = v[i];
        let u = c as u32;
        assert(d[i - start] == c);
        if u < 48 || u > 57 {
            assert(!is_digit(d[i - start]));
            return None;
        }
        let dig = (u - 48) as u64;
        assert(d.take(i - start + 1).drop_last() =~= d.take(i - start));
        assert(d.take(i - start + 1).last() == c);
        if dig > max || acc > (max - dig) / 10 {
            assert(acc * 10 + dig > max) by (nonlinear_arith)
                requires
                    dig > max || acc > (max - dig) / 10,
                    dig <= 9,
            ;
            proof {
                if all_digits(d) {
                    lemma_digits_value_prefix(d, i - start + 1);
                }
            }
            return None;
        }
        assert(acc * 10 + dig <= max) by (nonlinear_arith)
            requires
                acc <= (max - dig) / 10,
                dig <= max,
        ;
        acc = acc * 10 + dig;
        i = i + 1;
        assert forall|j: int| 0 <= j < d.take(i - start).len() implies is_digit(
            #[trigger] d.take(i - start)[j],
        ) by {
            if j < i - start - 1 {
                assert(d.take(i - start)[j] == d.take(i - start - 1)[j]);
            }
        }
    }
    assert(d.take(to - start) =~= d);
    Some(acc)
}


/// The character of the decimal digit `d`.
pub open spec fn digit_char(d: int) -> char {
    (48 + d) as char
}

/// The decimal numeral of `n`, without leading zeros.
pub open spec fn decimal(n: nat) -> Seq<char>
    decreases n,
{
    if n < 10 {
        seq![digit_char(n as int)]
    } else {
        decimal(n / 10).push(digit_char((n % 10) as int))
    }
}

fn digit_to_char(d: u64) -> (c: char)
    requires
        d < 10,
    ensures
        c == digit_char(d as int),
        is_digit(c),
        digit_val(c) == d,
{
    let b: u8 = 48 + d as u8;
    b as char
}

/// The decimal numeral of `n` appended to `s`.
pub fn push_decimal(s: &mut String, n: u64)
    ensures
        final(s)@ == old(s)@ + decimal(n as nat),
    decreases n,
{
    if n < 10 {
        push_char(s, digit_to_char(n));
        assert(decimal(n as nat) =~= seq![digit_char(n as int)]);
    } else {
        push_decimal(s, n / 10);
        push_char(s, digit_to_char(n % 10));
    }
}

/// The decimal numeral of `n` (`n.to_string()`).
pub fn decimal_string(n: u64) -> (s: String)
    ensures
        s@ == decimal(n as nat),
{
    let mut s = String::new();
    push_decimal(&mut s, n);
    assert(s@ =~= decimal(n as nat));
    s
}

/// A numeral is made of digits, is not empty and is read back as its number.
pub proof fn lemma_decimal_digits(n: nat)
    ensures
        decimal(n).len() > 0,
        all_digits(decimal(n)),
        digits_value(decimal(n)) == n,
        decimal(n)[0] != '+',
    decreases n,
{
    if n < 10 {
        assert(decimal(n).drop_last() =~= Seq::<char>::empty());
        assert(digits_value(Seq::<char>::empty()) == 0);
        assert(digit_val(digit_char(n as int)) == n);
        assert(digits_value(decimal(n)) == n);
    } else {
        lemma_decimal_digits(n / 10);
        let d = decimal(n / 10);
        assert(decimal(n).drop_last() =~= d);
        let r = (n % 10) as int;
        assert(0 <= r < 10);
        assert(digit_val(digit_char(r)) == r);
        assert(n == (n / 10) * 10 + r);
        assert(decimal(n).last() == digit_char(r));
        assert(digits_value(decimal(n)) == digits_value(d) * 10 + digit_val(digit_char(r)));
        assert forall|i: int| 0 <= i < decimal(n).len() implies is_digit(#[trigger] decimal(n)[i]) by {
            if i < d.len() {
                assert(decimal(n)[i] == d[i]);
            }
        }
    }
}

/// Law: the decimal numeral of a number no larger than `max` parses back
/// to that number.
pub proof fn lemma_parse_decimal(n: nat, max: nat)
    requires
        n <= max,
    ensures
        parse_unsigned(decimal(n), max) == Some(n),
{
    lemma_decimal_digits(n);
    assert(unsigned_digits(decimal(n)) == decimal(n));
}

/// `decimal(n)` padded on the left with zeros to at least two characters
/// (the `{:02}` format).
pub open spec fn decimal_02(n: nat) -> Seq<char> {
    if n < 10 {
        seq!['0'].add(decimal(n))
    } else {
        decimal(n)
    }
}

/// `decimal(n)` padded on the left with spaces to at least three characters
/// (the `{:3}` format).
pub open spec fn decimal_3(n: nat) -> Seq<char> {
    if n < 10 {
        seq![' ', ' '].add(decimal(n))
    } else if n < 100 {
        seq![' '].add(decimal(n))
    } else {
        decimal(n)
    }
}

/// Appends `n` formatted as `{:02}`.
pub fn push_decimal_02(s: &mut String, n: u64)
    ensures
        final(s)@ == old(s)@ + decimal_02(n as nat),
{
    let ghost s0 = s@;
    if n < 10 {
        push_char(s, '0');
    }
    push_decimal(s, n);
    assert(s@ =~= s0 + decimal_02(n as nat));
}

/// Appends `n` formatted as `{:3}`.
pub fn push_decimal_3(s: &mut String, n: u64)
    ensures
        final(s)@ == old(s)@ + decimal_3(n as nat),
{
    let ghost s0 = s@;
    if n < 10 {
        push_char(s, ' ');
        push_char(s, ' ');
    } else if n < 100 {
        push_char(s, ' ');
    }
    push_decimal(s, n);
    assert(s@ =~= s0 + decimal_3(n as nat));
}

/// Appends the characters `t`.
pub fn push_str(s: &mut String, t: &str)
    ensures
        final(s)@ == old(s)@ + t@,
{
    let ghost s0 = s@;
    for c in it: t.chars()
        invariant
            s@ == s0 + it.seq().take(it.index() as int),
    {
        push_char(s, c);
        assert(s@ =~= s0 + it.seq().take(it.index() + 1));
    }
    assert(s@ =~= s0 + t@);
}

/// Whether `s` begins with `p`.
pub open spec fn has_prefix(s: Seq<char>, p: Seq<char>) -> bool {
    p.len() <= s.len() && s.take(p.len() as int) == p
}

/// Whether `p` occurs in `s` at position `i`.
pub open spec fn occurs_at(s: Seq<char>, p: Seq<char>, i: int) -> bool {
    0 <= i && i + p.len() <= s.len() && s.subrange(i, i + p.len()) == p
}

/// Whether `p` occurs in `s` (`str::contains` with a string pattern).
pub open spec fn has_infix(s: Seq<char>, p: Seq<char>) -> bool {
    exists|i: int| occurs_at(s, p, i)
}

/// Whether `v[at..]` begins with `p`.
pub fn matches_at(v: &Vec<char>, at: usize, p: &Vec<char>) -> (b: bool)
    requires
        at <= v.len(),
    ensures
        b == occurs_at(v@, p@, at as int),
{
    if p.len() > v.len() - at {
        return false;
    }
    let mut j: usize = 0;
    while j < p.len()
        invariant
            at + p.len() <= v.len(),
            j <= p.len(),
            forall|k: int| 0 <= k < j ==> v@[at + k] == p@[k],
        decreases p.len() - j,
    {
        if v[at + j] != p[j] {
            assert(v@.subrange(at as int, at + p.len())[j as int] != p@[j as int]);
            return false;
        }
        j = j + 1;
    }
    assert(v@.subrange(at as int, at + p.len()) =~= p@);
    true
}

/// Whether `p` occurs in `v`.
pub fn contains_chars(v: &Vec<char>, p: &Vec<char>) -> (b: bool)
    ensures
        b == has_infix(v@, p@),
{
    if p.len() > v.len() {
        return false;
    }
    let last = v.len() - p.len();
    let mut i: usize = 0;
    while i < last
        invariant
            last == v.len() - p.len(),
            i <= last,
            forall|k: int| 0 <= k < i ==> !occurs_at(v@, p@, k),
        decreases last - i,
    {
        if matches_at(v, i, p) {
            return true;
        }
        i = i + 1;
    }
    if matches_at(v, last, p) {
        return true;
    }
    assert forall|k: int| !occurs_at(v@, p@, k) by {
        if 0 <= k && k + p@.len() <= v@.len() && k < last {
            assert(k < i);
        }
    }
    false
}

/// The name of what `str::to_uppercase` returns for `s`.
pub uninterp spec fn uppercase(s: Seq<char>) -> Seq<char>;

/// The name of what `str::to_lowercase` returns for `s`.
pub uninterp spec fn lowercase(s: Seq<char>) -> Seq<char>;

/// Whether every character of `s` is ASCII.
pub open spec fn all_ascii(s: Seq<char>) -> bool {
    forall|i: int| 0 <= i < s.len() ==> (#[trigger] s[i] as u32) < 128
}

/// The ASCII upper-case of `c`: `a`..`z` become `A`..`Z`, anything else
/// stays.
pub open spec fn ascii_upper(c: char) -> char {
    if 97 <= (c as u32) <= 122 {
        ((c as u32) - 32) as char
    } else {
        c
    }
}

/// The ASCII lower-case of `c`: `A`..`Z` become `a`..`z`, anything else
/// stays.
pub open spec fn ascii_lower(c: char) -> char {
    if 65 <= (c as u32) <= 90 {
        ((c as u32) + 32) as char
    } else {
        c
    }
}

/// `str::to_uppercase`: the Unicode upper-case mapping of every character,
/// a function of `s` alone. On ASCII text it maps `a`..`z` to `A`..`Z` and
/// keeps every other character; what it does beyond ASCII is left to the
/// Unicode tables that std carries and is not stated here.
#[verifier::external_body]
pub(crate) fn to_uppercase(s: &str) -> (r: String)
    ensures
        r@ == uppercase(s@),
        all_ascii(s@) ==> r@ == s@.map_values(|c: char| ascii_upper(c)),
{
    s.to_uppercase()
}

/// `str::to_lowercase`: the Unicode lower-case mapping of every character,
/// a function of `s` alone. On ASCII text it maps `A`..`Z` to `a`..`z` and
/// keeps every other character; what it does beyond ASCII is left to the
/// Unicode tables that std carries and is not stated here.
#[verifier::external_body]
pub(crate) fn to_lowercase(s: &str) -> (r: String)
    ensures
        r@ == lowercase(s@),
        all_ascii(s@) ==> r@ == s@.map_values(|c: char| ascii_lower(c)),
{
    s.to_lowercase()
}

/// The string `s` with surrounding white space removed.
pub fn trimmed(s: &str) -> (r: String)
    ensures
        r@ == trim(s@),
{
    let v = chars_of(s);
    let (a, b) = trim_range(&v, 0, v.len());
    assert(v@.subrange(0, v@.len() as int) =~= v@);
    string_of(&v, a, b)
}


/// The order of `String`: lexicographic by code point.
pub open spec fn key_lt(a: Seq<char>, b: Seq<char>) -> bool
    decreases a.len(),
{
    if a.len() == 0 {
        b.len() > 0
    } else if b.len() == 0 {
        false
    } else if a[0] != b[0] {
        (a[0] as u32) < (b[0] as u32)
    } else {
        key_lt(a.drop_first(), b.drop_first())
    }
}

pub proof fn lemma_key_lt_irreflexive(a: Seq<char>)
    ensures
        !key_lt(a, a),
    decreases a.len(),
{
    if a.len() > 0 {
        lemma_key_lt_irreflexive(a.drop_first());
    }
}

pub proof fn lemma_key_lt_asymmetric(a: Seq<char>, b: Seq<char>)
    ensures
        key_lt(a, b) ==> !key_lt(b, a),
    decreases a.len(),
{
    if a.len() > 0 && b.len() > 0 && a[0] == b[0] {
        lemma_key_lt_asymmetric(a.drop_first(), b.drop_first());
    }
}

pub proof fn lemma_key_lt_transitive(a: Seq<char>, b: Seq<char>, c: Seq<char>)
    requires
        key_lt(a, b),
        key_lt(b, c),
    ensures
        key_lt(a, c),
    decreases a.len(),
{
    if a.len() > 0 && b.len() > 0 && c.len() > 0 && a[0] == b[0] && b[0] == c[0] {
        lemma_key_lt_transitive(a.drop_first(), b.drop_first(), c.drop_first());
    }
}

pub proof fn lemma_key_lt_total(a: Seq<char>, b: Seq<char>)
    ensures
        a == b || key_lt(a, b) || key_lt(b, a),
    decreases a.len(),
{
    if a.len() > 0 && b.len() > 0 {
        lemma_char_u32_injective(a[0], b[0]);
        if a[0] == b[0] {
            lemma_key_lt_total(a.drop_first(), b.drop_first());
            if a.drop_first() == b.drop_first() {
                assert(a =~= seq![a[0]] + a.drop_first());
                assert(b =~= seq![b[0]] + b.drop_first());
            }
        }
    } else if a.len() == 0 && b.len() == 0 {
        assert(a =~= b);
    }
}

pub proof fn lemma_char_u32_injective(a: char, b: char)
    ensures
        (a as u32) == (b as u32) ==> a == b,
{
    vstd::utf8::char_u32_cast(a, a as u32);
    vstd::utf8::char_u32_cast(b, b as u32);
}

/// The outcome of comparing two texts.
pub enum KeyOrder {
    Less,
    Equal,
    Greater,
}

/// Compares `a` and `b` in the order of `key_lt`.
pub fn compare_text(a: &Vec<char>, b: &Vec<char>) -> (r: KeyOrder)
    ensures
        r is Less <==> key_lt(a@, b@),
        r is Equal <==> a@ == b@,
        r is Greater <==> key_lt(b@, a@),
{
    proof {
        lemma_key_lt_total(a@, b@);
        lemma_key_lt_asymmetric(a@, b@);
        lemma_key_lt_irreflexive(a@);
    }
    let mut i: usize = 0;
    assert(a@.skip(0) =~= a@);
    assert(b@.skip(0) =~= b@);
    while i < a.len() && i < b.len()
        invariant
            i <= a.len(),
            i <= b.len(),
            key_lt(a@, b@) == key_lt(a@.skip(i as int), b@.skip(i as int)),
            key_lt(b@, a@) == key_lt(b@.skip(i as int), a@.skip(i as int)),
            (a@ == b@) == (a@.skip(i as int) == b@.skip(i as int)),
        decreases a.len() - i,
    {
        let ghost sa = a@.skip(i as int);
        let ghost sb = b@.skip(i as int);
        assert(sa[0] == a@[i as int]);
        assert(sb[0] == b@[i as int]);
        proof {
            lemma_char_u32_injective(a@[i as int], b@[i as int]);
        }
        if a[i] != b[i] {
            if (a[i] as u32) < (b[i] as u32) {
                return KeyOrder::Less;
            } else {
                assert(sa != sb);
                return KeyOrder::Greater;
            }
        }
        assert(sa.drop_first() =~= a@.skip(i + 1));
        assert(sb.drop_first() =~= b@.skip(i + 1));
        proof {
            if sa.drop_first() == sb.drop_first() {
                assert(sa =~= seq![sa[0]] + sa.drop_first());
                assert(sb =~= seq![sb[0]] + sb.drop_first());
            }
        }
        i = i + 1;
    }
    if a.len() < b.len() {
        assert(a@.skip(i as int).len() == 0);
        KeyOrder::Less
    } else if b.len() < a.len() {
        assert(b@.skip(i as int).len() == 0);
        KeyOrder::Greater
    } else {
        assert(a@.skip(i as int) =~= b@.skip(i as int));
        KeyOrder::Equal
    }
}

/// Whether `a` and `b` hold the same characters.
pub fn same_text(a: &str, b: &str) -> (r: bool)
    ensures
        r == (a@ == b@),
{
    let va = chars_of(a);
    let vb = chars_of(b);
    match compare_text(&va, &vb) {
        KeyOrder::Equal => true,
        _ => false,
    }
}


/// Text without the separator is one piece.
pub proof fn lemma_split_on_lacks(s: Seq<char>, sep: char)
    requires
        lacks(s, sep),
    ensures
        split_on(s, sep) == seq![s],
    decreases s.len(),
{
    if s.len() > 0 {
        assert(lacks(s.drop_last(), sep));
        lemma_split_on_lacks(s.drop_last(), sep);
        assert(s.drop_last().push(s.last()) =~= s);
        assert(seq![s.drop_last()].update(0, s.drop_last().push(s.last())) =~= seq![s]);
    } else {
        assert(s =~= Seq::<char>::empty());
    }
}

/// A separator followed by text without it adds that text as a piece.
pub proof fn lemma_split_on_append(a: Seq<char>, sep: char, b: Seq<char>)
    requires
        lacks(b, sep),
    ensures
        split_on(a.push(sep) + b, sep) == split_on(a, sep).push(b),
    decreases b.len(),
{
    if b.len() == 0 {
        assert(a.push(sep) + b =~= a.push(sep));
        assert((a.push(sep)).drop_last() =~= a);
        assert(b =~= Seq::<char>::empty());
    } else {
        let s = a.push(sep) + b;
        assert(lacks(b.drop_last(), sep));
        lemma_split_on_append(a, sep, b.drop_last());
        assert(s.drop_last() =~= a.push(sep) + b.drop_last());
        assert(s.last() == b.last());
        let rest = split_on(a, sep).push(b.drop_last());
        assert(b.drop_last().push(b.last()) =~= b);
        assert(rest.last() == b.drop_last());
        assert(rest.update(rest.len() - 1, rest.last().push(b.last())) =~= split_on(a, sep).push(
            b,
        ));
    }
}

/// Digits hold no white space, so trimming leaves them as they are.
pub proof fn lemma_trim_digits(s: Seq<char>)
    requires
        all_digits(s),
        s.len() > 0,
    ensures
        trim(s) == s,
{
    assert(!is_ws(s[0]));
    assert(trim_start(s) == s);
    assert(!is_ws(s.last()));
}

/// A numeral holds no character but digits.
pub proof fn lemma_decimal_lacks(n: nat, c: char)
    requires
        !is_digit(c),
    ensures
        lacks(decimal(n), c),
{
    lemma_decimal_digits(n);
}


/// A line without a carriage return that ended it.
pub open spec fn strip_cr(l: Seq<char>) -> Seq<char> {
    if l.len() > 0 && l.last() == '\r' {
        l.drop_last()
    } else {
        l
    }
}

/// The lines of `s` (`str::lines`): split at `\n`, a `\r` before the `\n`
/// removed, and no empty line after a final `\n`.
pub open spec fn lines(s: Seq<char>) -> Seq<Seq<char>> {
    let parts = split_on(s, '\n');
    let n = parts.len() as int;
    let head = parts.take(n - 1).map_values(|l: Seq<char>| strip_cr(l));
    if parts[n - 1].len() > 0 {
        head.push(parts[n - 1])
    } else {
        head
    }
}

/// The ranges of the lines of `v`.
pub fn line_ranges(v: &Vec<char>) -> (ls: Vec<(usize, usize)>)
    ensures
        ranges_within(ls@, 0, v@.len() as int),
        pieces(v@, ls@) == lines(v@),
{
    let rs = split_ranges(v, 0, v.len(), '\n');
    assert(v@.subrange(0, v@.len() as int) =~= v@);
    let ghost parts = split_on(v@, '\n');
    proof {
        lemma_split_on_nonempty(v@, '\n');
    }
    let n = rs.len();
    let mut ls: Vec<(usize, usize)> = Vec::new();
    for j in 0..n - 1
        invariant
            n == rs@.len(),
            n >= 1,
            parts == pieces(v@, rs@),
            ranges_within(rs@, 0, v@.len() as int),
            ranges_within(ls@, 0, v@.len() as int),
            pieces(v@, ls@) == parts.take(j as int).map_values(|l: Seq<char>| strip_cr(l)),
    {
        let (a, b) = rs[j];
        assert(rs@[j as int].0 <= rs@[j as int].1 <= v@.len());
        let ghost p0 = pieces(v@, ls@);
        let ghost l = parts[j as int];
        assert(l == v@.subrange(a as int, b as int));
        if b > a && v[b - 1] == '\r' {
            ls.push((a, b - 1));
            assert(v@.subrange(a as int, b - 1) =~= strip_cr(l));
        } else {
            ls.push((a, b));
        }
        assert(pieces(v@, ls@) =~= p0.push(strip_cr(l)));
        assert(parts.take(j + 1).map_values(|l: Seq<char>| strip_cr(l)) =~= parts.take(
            j as int,
        ).map_values(|l: Seq<char>| strip_cr(l)).push(strip_cr(l)));
    }
    let (a, b) = rs[n - 1];
    assert(rs@[n - 1].0 <= rs@[n - 1].1 <= v@.len());
    if a < b {
        let ghost p0 = pieces(v@, ls@);
        ls.push((a, b));
        assert(pieces(v@, ls@) =~= p0.push(parts[n - 1]));
    } else {
        assert(parts[n - 1].len() == 0);
    }
    ls
}

/// Whether `v[a..b]` holds the characters of `t`.
pub fn range_is(v: &Vec<char>, a: usize, b: usize, t: &str) -> (r: bool)
    requires
        a <= b <= v.len(),
    ensures
        r == (v@.subrange(a as int, b as int) == t@),
{
    let tv = chars_of(t);
    if b - a != tv.len() {
        return false;
    }
    let mut i: usize = 0;
    while i < tv.len()
        invariant
            b - a == tv@.len(),
            a <= b <= v.len(),
            i <= tv@.len(),
            tv@ == t@,
            forall|j: int| 0 <= j < i ==> v@[a + j] == tv@[j],
        decreases tv@.len() - i,
    {
        if v[a + i] != tv[i] {
            assert(v@.subrange(a as int, b as int)[i as int] != tv@[i as int]);
            return false;
        }
        i = i + 1;
    }
    assert(v@.subrange(a as int, b as int) =~= tv@);
    true
}

} // verus!
