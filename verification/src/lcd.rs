//! The G13's 160x43 monochrome LCD: its output report (a report ID, three
//! padding bytes, 160 columns by 6 pages of 8 rows, one bit per pixel with
//! the least significant bit on top, and trailing padding), and the text
//! of the system monitor shown on it.

use crate::text::{
    chars_of, decimal, decimal_02, decimal_3, line_ranges, lines, parse_unsigned,
    parse_unsigned_range, pieces, push_decimal, push_decimal_02, push_decimal_3, push_str, range_is,
    ranges_within, word_ranges, words, push_char,
};
use vstd::prelude::*;

verus! {

/// Width of the LCD in pixels.
pub const LCD_W: i32 = 160;
/// Height of the LCD in pixels.
pub const LCD_H: i32 = 43;
/// Offset of the pixel data in the report: report ID and three padding bytes.
pub const DATA_OFFSET: usize = 4;
/// Length of the report.
pub const BUF_LEN: usize = 992;
/// Report ID of the LCD output report.
pub const REPORT_ID: u8 = 0x03;

/// The byte holding pixel (`x`, `y`).
pub open spec fn pixel_index(x: int, y: int) -> int {
    4 + (y / 8) * 160 + x
}

/// Whether (`x`, `y`) lies on the LCD.
pub open spec fn on_screen(x: int, y: int) -> bool {
    0 <= x < 160 && 0 <= y < 43
}

/// Whether pixel (`x`, `y`) is lit in the report `b`.
pub open spec fn lit(b: Seq<u8>, x: int, y: int) -> bool {
    (b[pixel_index(x, y)] >> ((y % 8) as u8)) & 1u8 == 1u8
}

/// An LCD report being drawn.
pub struct LcdFrame {
    bytes: Vec<u8>,
}

impl LcdFrame {
    /// The report keeps its length and report ID.
    #[verifier::type_invariant]
    closed spec fn wf(&self) -> bool {
        self.bytes@.len() == 992 && self.bytes@[0] == 0x03
    }

    /// The report's bytes.
    pub closed spec fn report(&self) -> Seq<u8> {
        self.bytes@
    }

    /// A blank report.
    pub fn new() -> (f: Self)
        ensures
            f.report().len() == BUF_LEN,
            f.report()[0] == REPORT_ID,
            forall|i: int| 1 <= i < BUF_LEN ==> f.report()[i] == 0,
    {
        let mut bytes: Vec<u8> = Vec::new();
        bytes.push(REPORT_ID);
        while bytes.len() < BUF_LEN
            invariant
                1 <= bytes@.len() <= BUF_LEN,
                bytes@[0] == REPORT_ID,
                forall|i: int| 1 <= i < bytes@.len() ==> bytes@[i] == 0,
            decreases BUF_LEN - bytes@.len(),
        {
            bytes.push(0);
        }
        LcdFrame { bytes }
    }

    /// Blanks every pixel, keeping the report ID.
    pub fn clear(&mut self)
        ensures
            final(self).report().len() == BUF_LEN,
            final(self).report()[0] == REPORT_ID,
            forall|i: int| 1 <= i < BUF_LEN ==> final(self).report()[i] == 0,
    {
        proof {
            use_type_invariant(&*self);
        }
        let mut i: usize = 1;
        while i < BUF_LEN
            invariant
                self.bytes@.len() == BUF_LEN,
                1 <= i <= BUF_LEN,
                self.bytes@[0] == REPORT_ID,
                forall|j: int| 1 <= j < i ==> self.bytes@[j] == 0,
            decreases BUF_LEN - i,
        {
            self.bytes[i] = 0;
            i = i + 1;
        }
    }

    /// The report's bytes, to send to the device.
    pub fn as_bytes(&self) -> (b: &[u8])
        ensures
            b@ == self.report(),
            b@.len() == BUF_LEN,
            b@[0] == REPORT_ID,
    {
        proof {
            use_type_invariant(self);
        }
        self.bytes.as_slice()
    }

    /// The size of the drawing area: 160 by 43.
    pub fn size(&self) -> (s: (u32, u32))
        ensures
            s == (160u32, 43u32),
    {
        (LCD_W as u32, LCD_H as u32)
    }

    /// Lights (`on`) or blanks pixel (`x`, `y`); points off the screen are
    /// left alone.
    pub fn set_pixel(&mut self, x: i32, y: i32, on: bool)
        ensures
            !on_screen(x as int, y as int) ==> final(self).report() == old(self).report(),
            on_screen(x as int, y as int) ==> {
                let idx = pixel_index(x as int, y as int);
                let bit = 1u8 << ((y % 8) as u8);
                let b = old(self).report()[idx];
                final(self).report() == old(self).report().update(
                    idx,
                    if on {
                        b | bit
                    } else {
                        b & !bit
                    },
                )
            },
    {
        proof {
            use_type_invariant(&*self);
        }
        if x < 0 || x >= LCD_W || y < 0 || y >= LCD_H {
            return;
        }
        let page = y as usize / 8;
        assert(page <= 5);
        let idx = DATA_OFFSET + page * 160 + x as usize;
        assert(idx == pixel_index(x as int, y as int));
        let bit: u8 = 1u8 << ((y as usize % 8) as u8);
        assert(((y as usize % 8) as u8) == ((y % 8) as u8));
        let b = self.bytes[idx];
        let nb = if on {
            b | bit
        } else {
            b & !bit
        };
        self.bytes[idx] = nb;
    }
}

/// Setting bit `k` of a byte reads back as set, clearing it as clear, and
/// leaves the other bits alone.
proof fn lemma_bit_update(b: u8, k: u8, k2: u8, on: bool)
    requires
        k < 8,
        k2 < 8,
    ensures
        ((if on {
            b | (1u8 << k)
        } else {
            b & !(1u8 << k)
        }) >> k) & 1u8 == (if on {
            1u8
        } else {
            0u8
        }),
        k2 != k ==> ((if on {
            b | (1u8 << k)
        } else {
            b & !(1u8 << k)
        }) >> k2) & 1u8 == (b >> k2) & 1u8,
{
    if on {
        assert(((b | (1u8 << k)) >> k) & 1u8 == 1u8) by (bit_vector)
            requires
                k < 8,
        ;
        assert(k2 != k ==> ((b | (1u8 << k)) >> k2) & 1u8 == (b >> k2) & 1u8) by (bit_vector)
            requires
                k < 8,
                k2 < 8,
        ;
    } else {
        assert(((b & !(1u8 << k)) >> k) & 1u8 == 0u8) by (bit_vector)
            requires
                k < 8,
        ;
        assert(k2 != k ==> ((b & !(1u8 << k)) >> k2) & 1u8 == (b >> k2) & 1u8) by (bit_vector)
            requires
                k < 8,
                k2 < 8,
        ;
    }
}

/// Law: after setting a pixel on the screen, that pixel reads back as set
/// and every other pixel reads as before.
pub proof fn lemma_set_pixel_reads_back(
    before: Seq<u8>,
    after: Seq<u8>,
    x: int,
    y: int,
    on: bool,
    x2: int,
    y2: int,
)
    requires
        before.len() == 992,
        on_screen(x, y),
        on_screen(x2, y2),
        after == before.update(
            pixel_index(x, y),
            if on {
                before[pixel_index(x, y)] | (1u8 << ((y % 8) as u8))
            } else {
                before[pixel_index(x, y)] & !(1u8 << ((y % 8) as u8))
            },
        ),
    ensures
        lit(after, x2, y2) == if x2 == x && y2 == y {
            on
        } else {
            lit(before, x2, y2)
        },
{
    let b = before[pixel_index(x, y)];
    let k = (y % 8) as u8;
    let k2 = (y2 % 8) as u8;
    lemma_bit_update(b, k, k2, on);
    if pixel_index(x2, y2) == pixel_index(x, y) {
        assert(x2 == x && y2 / 8 == y / 8);
        if y2 != y {
            assert(k2 != k);
        }
    }
}


broadcast use vstd::string::group_string_axioms;

/// The numbers among the words `ws` that parse as `u64`, in order; the
/// others are skipped.
pub open spec fn parsed_u64s(ws: Seq<Seq<char>>) -> Seq<u64>
    decreases ws.len(),
{
    if ws.len() == 0 {
        Seq::empty()
    } else {
        let rest = parsed_u64s(ws.drop_last());
        match parse_unsigned(ws.last(), u64::MAX as nat) {
            Some(n) => rest.push(n as u64),
            None => rest,
        }
    }
}

/// The counters of the first line of `/proc/stat`: every word after the
/// first that parses as a number; none when the text has no line.
pub open spec fn cpu_fields_of(text: Seq<char>) -> Option<Seq<u64>> {
    let ls = lines(text);
    if ls.len() == 0 {
        None
    } else {
        let ws = words(ls[0]);
        Some(parsed_u64s(if ws.len() > 0 { ws.drop_first() } else { ws }))
    }
}

/// Reads the counters of the first line of the text of `/proc/stat`.
pub fn cpu_fields(text: &str) -> (r: Option<Vec<u64>>)
    ensures
        match r {
            Some(v) => cpu_fields_of(text@) == Some(v@),
            None => cpu_fields_of(text@) is None,
        },
{
    let v = chars_of(text);
    let ls = line_ranges(&v);
    if ls.len() == 0 {
        return None;
    }
    let (a, b) = ls[0];
    assert(ls@[0].0 <= ls@[0].1 <= v@.len());
    let ws = word_ranges(&v, a, b);
    let ghost wl = words(v@.subrange(a as int, b as int));
    let ghost rest = if wl.len() > 0 { wl.drop_first() } else { wl };
    let mut nums: Vec<u64> = Vec::new();
    let start: usize = if ws.len() > 0 { 1 } else { 0 };
    assert(rest =~= wl.subrange(start as int, wl.len() as int));
    let n = ws.len();
    let mut i = start;
    assert(wl.subrange(start as int, start as int) =~= Seq::<Seq<char>>::empty());
    while i < n
        invariant
            start <= i <= n,
            n == ws@.len(),
            wl == pieces(v@, ws@),
            ranges_within(ws@, a as int, b as int),
            b <= v@.len(),
            nums@ == parsed_u64s(wl.subrange(start as int, i as int)),
        decreases n - i,
    {
        let (c, d) = ws[i];
        assert(ws@[i as int].0 <= ws@[i as int].1 <= v@.len());
        assert(wl.subrange(start as int, i + 1).drop_last() =~= wl.subrange(start as int, i as int));
        assert(wl.subrange(start as int, i + 1).last() == v@.subrange(c as int, d as int));
        match parse_unsigned_range(&v, c, d, u64::MAX) {
            Some(x) => {
                nums.push(x);
            },
            None => {},
        }
        i = i + 1;
    }
    assert(wl.subrange(start as int, n as int) =~= rest);
    Some(nums)
}

/// The sum of `s`.
pub open spec fn seq_sum(s: Seq<u64>) -> int
    decreases s.len(),
{
    if s.len() == 0 {
        0
    } else {
        seq_sum(s.drop_last()) + s.last()
    }
}

/// The idle time of the counters `s`: idle plus iowait (the fourth and
/// fifth, the fifth counting 0 when absent).
pub open spec fn idle_of(s: Seq<u64>) -> int {
    s[3] + if s.len() > 4 {
        s[4] as int
    } else {
        0
    }
}

/// A sample of the CPU time counters.
#[derive(Clone, Copy)]
pub struct CpuSample {
    pub total: u64,
    pub idle: u64,
}

/// The CPU sample of the counters `nums`: none with fewer than four.
pub fn cpu_sample(nums: &Vec<u64>) -> (r: Option<CpuSample>)
    requires
        nums@.len() >= 4 ==> seq_sum(nums@) <= u64::MAX && idle_of(nums@) <= u64::MAX,
    ensures
        nums@.len() < 4 ==> r is None,
        nums@.len() >= 4 ==> (r matches Some(c) && c.total == seq_sum(nums@) && c.idle == idle_of(
            nums@,
        )),
{
    if nums.len() < 4 {
        return None;
    }
    let idle = nums[3] + if nums.len() > 4 {
        nums[4]
    } else {
        0
    };
    let mut total: u64 = 0;
    let mut i: usize = 0;
    while i < nums.len()
        invariant
            i <= nums@.len(),
            seq_sum(nums@) <= u64::MAX,
            total == seq_sum(nums@.take(i as int)),
        decreases nums@.len() - i,
    {
        assert(nums@.take(i + 1).drop_last() =~= nums@.take(i as int));
        proof {
            lemma_seq_sum_prefix(nums@, i + 1);
        }
        total = total + nums[i];
        i = i + 1;
    }
    assert(nums@.take(nums@.len() as int) =~= nums@);
    Some(CpuSample { total, idle })
}

proof fn lemma_seq_sum_prefix(s: Seq<u64>, k: int)
    requires
        0 <= k <= s.len(),
    ensures
        seq_sum(s.take(k)) <= seq_sum(s),
    decreases s.len(),
{
    if k < s.len() {
        lemma_seq_sum_prefix(s.drop_last(), k);
        assert(s.drop_last().take(k) =~= s.take(k));
    } else {
        assert(s.take(k) =~= s);
    }
}

/// `a - b`, or 0 when `b` is larger.
pub open spec fn sat_sub(a: int, b: int) -> int {
    if a >= b {
        a - b
    } else {
        0
    }
}

/// The busy share, in percent, between two CPU samples: zero when no time
/// passed.
pub open spec fn cpu_pct_of(prev: CpuSample, curr: CpuSample) -> int {
    let dt = sat_sub(curr.total as int, prev.total as int);
    if dt == 0 {
        0
    } else {
        let used = sat_sub(dt, sat_sub(curr.idle as int, prev.idle as int));
        (used * 100) / dt
    }
}

/// The busy time between two samples, times 100, fits a `u64`.
pub open spec fn cpu_pct_fits(prev: CpuSample, curr: CpuSample) -> bool {
    let dt = sat_sub(curr.total as int, prev.total as int);
    sat_sub(dt, sat_sub(curr.idle as int, prev.idle as int)) * 100 <= u64::MAX
}

/// The CPU busy percentage between two samples.
pub fn cpu_pct(prev: CpuSample, curr: CpuSample) -> (p: u32)
    requires
        cpu_pct_fits(prev, curr),
    ensures
        p == cpu_pct_of(prev, curr),
        p <= 100,
{
    let dt = curr.total.saturating_sub(prev.total);
    if dt == 0 {
        return 0;
    }
    let used = dt.saturating_sub(curr.idle.saturating_sub(prev.idle));
    let q = (used * 100) / dt;
    assert(q <= 100) by (nonlinear_arith)
        requires
            used <= dt,
            dt > 0,
            q as int == (used as int * 100) / (dt as int),
    ;
    q as u32
}

/// The number in the second word of `w`, or 0 when there is none that
/// parses.
pub open spec fn second_number(w: Seq<Seq<char>>) -> u64 {
    if w.len() > 1 {
        match parse_unsigned(w[1], u64::MAX as nat) {
            Some(n) => n as u64,
            None => 0,
        }
    } else {
        0
    }
}

/// Total and available memory as the lines `ls` of `/proc/meminfo` give
/// them: the value of the last `MemTotal:` and `MemAvailable:` line, 0
/// when there is none.
pub open spec fn mem_scan(ls: Seq<Seq<char>>) -> (u64, u64)
    decreases ls.len(),
{
    if ls.len() == 0 {
        (0, 0)
    } else {
        let (t, a) = mem_scan(ls.drop_last());
        let w = words(ls.last());
        if w.len() > 0 && w[0] == "MemTotal:"@ {
            (second_number(w), a)
        } else if w.len() > 0 && w[0] == "MemAvailable:"@ {
            (t, second_number(w))
        } else {
            (t, a)
        }
    }
}

/// Total and available memory from the text of `/proc/meminfo`.
pub fn mem_fields(text: &str) -> (r: (u64, u64))
    ensures
        r == mem_scan(lines(text@)),
{
    let v = chars_of(text);
    let ls = line_ranges(&v);
    let ghost lv = lines(v@);
    let mut total: u64 = 0;
    let mut avail: u64 = 0;
    let n = ls.len();
    assert(lv.take(0) =~= Seq::<Seq<char>>::empty());
    for i in 0..n
        invariant
            n == ls@.len(),
            lv == pieces(v@, ls@),
            ranges_within(ls@, 0, v@.len() as int),
            (total, avail) == mem_scan(lv.take(i as int)),
    {
        let (a, b) = ls[i];
        assert(ls@[i as int].0 <= ls@[i as int].1 <= v@.len());
        assert(lv.take(i + 1).drop_last() =~= lv.take(i as int));
        assert(lv.take(i + 1).last() == v@.subrange(a as int, b as int));
        let ws = word_ranges(&v, a, b);
        let ghost w = words(v@.subrange(a as int, b as int));
        if ws.len() > 0 {
            let (c, d) = ws[0];
            assert(ws@[0].0 <= ws@[0].1 <= v@.len());
            let is_total = range_is(&v, c, d, "MemTotal:");
            let is_avail = range_is(&v, c, d, "MemAvailable:");
            if is_total || is_avail {
                let mut value: u64 = 0;
                if ws.len() > 1 {
                    let (e, f) = ws[1];
                    assert(ws@[1].0 <= ws@[1].1 <= v@.len());
                    value = match parse_unsigned_range(&v, e, f, u64::MAX) {
                        Some(x) => x,
                        None => 0,
                    };
                }
                assert(value == second_number(w));
                if is_total {
                    total = value;
                } else {
                    avail = value;
                }
            }
        }
    }
    assert(lv.take(n as int) =~= lv);
    (total, avail)
}

/// The share of memory in use, in percent: zero when the total is zero.
pub open spec fn mem_pct_of(total: u64, avail: u64) -> int {
    if total == 0 {
        0
    } else {
        (sat_sub(total as int, avail as int) * 100) / (total as int)
    }
}

/// The memory in use, times 100, fits a `u64`.
pub open spec fn mem_pct_fits(total: u64, avail: u64) -> bool {
    sat_sub(total as int, avail as int) * 100 <= u64::MAX
}

/// The memory use percentage.
pub fn mem_pct(total: u64, avail: u64) -> (p: u32)
    requires
        mem_pct_fits(total, avail),
    ensures
        p == mem_pct_of(total, avail),
        p <= 100,
{
    if total == 0 {
        return 0;
    }
    let used = total.saturating_sub(avail);
    let q = (used * 100) / total;
    assert(q <= 100) by (nonlinear_arith)
        requires
            used <= total,
            total > 0,
            q as int == (used as int * 100) / (total as int),
    ;
    q as u32
}

/// The uptime line for `secs` seconds: days, hours and minutes when up a
/// day or more, hours and minutes when up an hour or more, else minutes.
pub open spec fn uptime_of(secs: nat) -> Seq<char> {
    let d = secs / 86400;
    let h = (secs % 86400) / 3600;
    let m = (secs % 3600) / 60;
    if d > 0 {
        "Up "@ + decimal(d) + "d "@ + decimal_02(h) + "h "@ + decimal_02(m) + "m"@
    } else if h > 0 {
        "Up "@ + decimal(h) + "h "@ + decimal_02(m) + "m"@
    } else {
        "Up "@ + decimal(m) + "m"@
    }
}

/// The uptime line for `secs` seconds.
pub fn uptime_text(secs: u64) -> (s: String)
    ensures
        s@ == uptime_of(secs as nat),
{
    let d = secs / 86400;
    let h = (secs % 86400) / 3600;
    let m = (secs % 3600) / 60;
    let mut s = "Up ".to_string();
    if d > 0 {
        push_decimal(&mut s, d);
        push_str(&mut s, "d ");
        push_decimal_02(&mut s, h);
        push_str(&mut s, "h ");
        push_decimal_02(&mut s, m);
        push_str(&mut s, "m");
    } else if h > 0 {
        push_decimal(&mut s, h);
        push_str(&mut s, "h ");
        push_decimal_02(&mut s, m);
        push_str(&mut s, "m");
    } else {
        push_decimal(&mut s, m);
        push_str(&mut s, "m");
    }
    assert(s@ =~= uptime_of(secs as nat));
    s
}

/// The words `ws` joined by single spaces (`join(" ")`).
pub open spec fn join_spaced(ws: Seq<Seq<char>>) -> Seq<char>
    decreases ws.len(),
{
    if ws.len() == 0 {
        Seq::empty()
    } else if ws.len() == 1 {
        ws[0]
    } else {
        join_spaced(ws.drop_last()).push(' ') + ws.last()
    }
}

/// The load line for the text of `/proc/loadavg`: its first three words;
/// `Load -` when it could not be read.
pub open spec fn load_of(text: Option<Seq<char>>) -> Seq<char> {
    match text {
        Some(t) => "Load "@ + join_spaced(words(t).take(
            if words(t).len() < 3 {
                words(t).len() as int
            } else {
                3
            },
        )),
        None => "Load -"@,
    }
}

/// The load line for the text of `/proc/loadavg`, if it could be read.
pub fn load_text(text: Option<&str>) -> (s: String)
    ensures
        s@ == load_of(
            match text {
                Some(t) => Some(t@),
                None => None,
            },
        ),
{
    match text {
        None => "Load -".to_string(),
        Some(t) => {
            let v = chars_of(t);
            let ws = word_ranges(&v, 0, v.len());
            assert(v@.subrange(0, v@.len() as int) =~= t@);
            let ghost wl = words(t@);
            let k: usize = if ws.len() < 3 {
                ws.len()
            } else {
                3
            };
            let mut s = "Load ".to_string();
            let ghost s0 = s@;
            assert(wl.take(0) =~= Seq::<Seq<char>>::empty());
            for i in 0..k
                invariant
                    k <= ws@.len(),
                    wl == pieces(v@, ws@),
                    ranges_within(ws@, 0, v@.len() as int),
                    s@ == s0 + join_spaced(wl.take(i as int)),
            {
                let (a, b) = ws[i];
                assert(ws@[i as int].0 <= ws@[i as int].1 <= v@.len());
                let ghost s_old = s@;
                if i > 0 {
                    push_char(&mut s, ' ');
                }
                let ghost before = s@;
                let mut j = a;
                while j < b
                    invariant
                        a <= j <= b <= v@.len(),
                        s@ == before + v@.subrange(a as int, j as int),
                    decreases b - j,
                {
                    push_char(&mut s, v[j]);
                    j = j + 1;
                    assert(s@ =~= before + v@.subrange(a as int, j as int));
                }
                assert(wl.take(i + 1).drop_last() =~= wl.take(i as int));
                assert(wl.take(i + 1).last() == v@.subrange(a as int, b as int));
                let ghost word = v@.subrange(a as int, b as int);
                assert(s@ == before + word);
                if i == 0 {
                    assert(join_spaced(wl.take(1)) == wl.take(1)[0]);
                    assert(before == s_old);
                    assert(wl.take(0) =~= Seq::<Seq<char>>::empty());
                    assert(s@ =~= s0 + join_spaced(wl.take(i + 1)));
                } else {
                    assert(before == s_old.push(' '));
                    assert(join_spaced(wl.take(i + 1)) == join_spaced(wl.take(i as int)).push(' ')
                        + word);
                    assert(s@ =~= s0 + join_spaced(wl.take(i + 1)));
                }
            }
            s
        },
    }
}

/// The width in pixels of the filled part of a usage bar for `pct`
/// percent: the bar's 118 inner pixels times the percentage (capped at
/// 100), rounded down.
pub fn bar_fill_width(pct: u32) -> (w: u32)
    ensures
        w == (if pct < 100 {
            pct as int
        } else {
            100
        }) * 118 / 100,
        w <= 118,
{
    let p = if pct < 100 {
        pct
    } else {
        100
    };
    (p * 118) / 100
}

/// A percentage right-aligned in three columns and followed by `%`
/// (the `{:3}%` format).
pub fn pct_text(v: u32) -> (s: String)
    ensures
        s@ == decimal_3(v as nat) + "%"@,
{
    let mut s = String::new();
    push_decimal_3(&mut s, v as u64);
    push_str(&mut s, "%");
    assert(s@ =~= decimal_3(v as nat) + "%"@);
    s
}


/// Whether the HID device named `name` is a G13 (vendor 046D, product
/// C21C), the name upper-cased.
pub fn is_g13_hid(name: &str) -> (b: bool)
    ensures
        b == crate::text::has_infix(crate::text::uppercase(name@), "046D:C21C"@),
{
    let u = crate::text::to_uppercase(name);
    let v = chars_of(u.as_str());
    let p = chars_of("046D:C21C");
    crate::text::contains_chars(&v, &p)
}

} // verus!
