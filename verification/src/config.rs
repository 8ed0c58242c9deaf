//! Loaders for the CSV configuration tables: item definitions, generator
//! output tables, the initial board, order templates and audio entries.
//! Every table starts with three header rows (column names, field types,
//! descriptions); blank lines are skipped.
use vstd::prelude::*;

use crate::items::{opt_str_view, ChainType, GenerationOption, ItemDef};
use crate::orders::strings_view;
use crate::text::{
    chars_of, line_ranges, lines_from, ranges_view, ranges_within, split_all, split_ranges,
    splitn_from, string_of, trim, trim_range,
};

verus! {

/// Number of columns of the item table.
pub const ITEMS_CSV_COLUMNS: usize = 16;

/// Number of header rows of every table.
pub const HEADER_ROWS: usize = 3;

/// Whether line `k` of a table holds data: it follows the header and is
/// not blank.
pub open spec fn data_line(lines: Seq<Seq<char>>, k: int) -> bool {
    k >= HEADER_ROWS && trim(lines[k]).len() > 0
}

/// The chain a (trimmed) name denotes, if any.
pub open spec fn chain_of(t: Seq<char>) -> Option<ChainType> {
    if t == "Poultry"@ {
        Some(ChainType::Poultry)
    } else if t == "Egg"@ {
        Some(ChainType::Egg)
    } else if t == "Teapot"@ {
        Some(ChainType::Teapot)
    } else if t == "CoolTea"@ {
        Some(ChainType::CoolTea)
    } else if t == "RiceBall"@ {
        Some(ChainType::RiceBall)
    } else if t == "Basket"@ {
        Some(ChainType::Basket)
    } else if t == "Dough"@ {
        Some(ChainType::Dough)
    } else if t == "Watermelon"@ {
        Some(ChainType::Watermelon)
    } else if t == "CraftBox"@ {
        Some(ChainType::CraftBox)
    } else if t == "Lantern"@ {
        Some(ChainType::Lantern)
    } else if t == "Dresser"@ {
        Some(ChainType::Dresser)
    } else if t == "Ring"@ {
        Some(ChainType::Ring)
    } else if t == "PeaceLock"@ {
        Some(ChainType::PeaceLock)
    } else if t == "Loom"@ {
        Some(ChainType::Loom)
    } else if t == "Fabric"@ {
        Some(ChainType::Fabric)
    } else if t == "Pouch"@ {
        Some(ChainType::Pouch)
    } else if t == "RedBox"@ {
        Some(ChainType::RedBox)
    } else if t == "GreenBox"@ {
        Some(ChainType::GreenBox)
    } else if t == "Gold"@ {
        Some(ChainType::Gold)
    } else if t == "Gourd"@ {
        Some(ChainType::Gourd)
    } else if t == "Ruby"@ {
        Some(ChainType::Ruby)
    } else {
        None
    }
}

/// Whether `buf[lo..hi]` reads `lit`.
fn range_is(buf: &Vec<char>, lo: usize, hi: usize, lit: &str) -> (r: bool)
    requires
        lo <= hi <= buf@.len(),
    ensures
        r == (buf@.subrange(lo as int, hi as int) == lit@),
{
    let n = lit.unicode_len();
    if hi - lo != n {
        return false;
    }
    let mut i: usize = 0;
    while i < n
        invariant
            n == lit@.len(),
            hi - lo == n,
            lo <= hi <= buf@.len(),
            i <= n,
            forall|j: int| 0 <= j < i ==> buf@[lo + j] == lit@[j],
        decreases n - i,
    {
        if buf[lo + i] != lit.get_char(i) {
            assert(buf@.subrange(lo as int, hi as int)[i as int] != lit@[i as int]);
            return false;
        }
        i = i + 1;
    }
    assert(buf@.subrange(lo as int, hi as int) =~= lit@);
    true
}

/// The chain named by `buf[lo..hi]`, if any.
fn chain_in(buf: &Vec<char>, lo: usize, hi: usize) -> (r: Option<ChainType>)
    requires
        lo <= hi <= buf@.len(),
    ensures
        r == chain_of(buf@.subrange(lo as int, hi as int)),
{
    if range_is(buf, lo, hi, "Poultry") {
        Some(ChainType::Poultry)
    } else if range_is(buf, lo, hi, "Egg") {
        Some(ChainType::Egg)
    } else if range_is(buf, lo, hi, "Teapot") {
        Some(ChainType::Teapot)
    } else if range_is(buf, lo, hi, "CoolTea") {
        Some(ChainType::CoolTea)
    } else if range_is(buf, lo, hi, "RiceBall") {
        Some(ChainType::RiceBall)
    } else if range_is(buf, lo, hi, "Basket") {
        Some(ChainType::Basket)
    } else if range_is(buf, lo, hi, "Dough") {
        Some(ChainType::Dough)
    } else if range_is(buf, lo, hi, "Watermelon") {
        Some(ChainType::Watermelon)
    } else if range_is(buf, lo, hi, "CraftBox") {
        Some(ChainType::CraftBox)
    } else if range_is(buf, lo, hi, "Lantern") {
        Some(ChainType::Lantern)
    } else if range_is(buf, lo, hi, "Dresser") {
        Some(ChainType::Dresser)
    } else if range_is(buf, lo, hi, "Ring") {
        Some(ChainType::Ring)
    } else if range_is(buf, lo, hi, "PeaceLock") {
        Some(ChainType::PeaceLock)
    } else if range_is(buf, lo, hi, "Loom") {
        Some(ChainType::Loom)
    } else if range_is(buf, lo, hi, "Fabric") {
        Some(ChainType::Fabric)
    } else if range_is(buf, lo, hi, "Pouch") {
        Some(ChainType::Pouch)
    } else if range_is(buf, lo, hi, "RedBox") {
        Some(ChainType::RedBox)
    } else if range_is(buf, lo, hi, "GreenBox") {
        Some(ChainType::GreenBox)
    } else if range_is(buf, lo, hi, "Gold") {
        Some(ChainType::Gold)
    } else if range_is(buf, lo, hi, "Gourd") {
        Some(ChainType::Gourd)
    } else if range_is(buf, lo, hi, "Ruby") {
        Some(ChainType::Ruby)
    } else {
        None
    }
}

/// A flag field: true when its trimmed text is `true`.
pub open spec fn spec_parse_bool(s: Seq<char>) -> bool {
    trim(s) == "true"@
}

/// An optional text field: its trimmed text, absent when empty.
pub open spec fn spec_parse_opt_str(s: Seq<char>) -> Option<Seq<char>> {
    if trim(s).len() > 0 {
        Some(trim(s))
    } else {
        None
    }
}

fn bool_in(buf: &Vec<char>, lo: usize, hi: usize) -> (r: bool)
    requires
        lo <= hi <= buf@.len(),
    ensures
        r == spec_parse_bool(buf@.subrange(lo as int, hi as int)),
{
    let (a, b) = trim_range(buf, lo, hi);
    range_is(buf, a, b, "true")
}

fn opt_str_in(buf: &Vec<char>, lo: usize, hi: usize) -> (r: Option<String>)
    requires
        lo <= hi <= buf@.len(),
    ensures
        opt_str_view(r) == spec_parse_opt_str(buf@.subrange(lo as int, hi as int)),
{
    let (a, b) = trim_range(buf, lo, hi);
    if a < b {
        Some(string_of(buf, a, b))
    } else {
        None
    }
}

fn trimmed_string_in(buf: &Vec<char>, lo: usize, hi: usize) -> (r: String)
    requires
        lo <= hi <= buf@.len(),
    ensures
        r@ == trim(buf@.subrange(lo as int, hi as int)),
{
    let (a, b) = trim_range(buf, lo, hi);
    string_of(buf, a, b)
}

/// Parses a flag field ("true" / anything else).
pub fn parse_bool(s: &str) -> (r: bool)
    ensures
        r == spec_parse_bool(s@),
{
    let buf = chars_of(s);
    assert(buf@.subrange(0, buf@.len() as int) =~= buf@);
    bool_in(&buf, 0, buf.len())
}

/// Parses an optional text field: an empty field becomes `None`.
pub fn parse_opt_str(s: &str) -> (r: Option<String>)
    ensures
        opt_str_view(r) == spec_parse_opt_str(s@),
{
    let buf = chars_of(s);
    assert(buf@.subrange(0, buf@.len() as int) =~= buf@);
    opt_str_in(&buf, 0, buf.len())
}

/// Parses the name of a chain.
pub fn parse_chain(s: &str) -> (r: ChainType)
    requires
        chain_of(trim(s@)) is Some,
    ensures
        Some(r) == chain_of(trim(s@)),
{
    let buf = chars_of(s);
    assert(buf@.subrange(0, buf@.len() as int) =~= buf@);
    let (a, b) = trim_range(&buf, 0, buf.len());
    match chain_in(&buf, a, b) {
        Some(c) => c,
        None => ChainType::Poultry,
    }
}

// ── Numbers ──────────────────────────────────────────────────────────────────

pub open spec fn is_digit(c: char) -> bool {
    '0' <= c && c <= '9'
}

/// Value of a string of decimal digits.
pub open spec fn digits_value(s: Seq<char>) -> nat
    decreases s.len(),
{
    if s.len() == 0 {
        0
    } else {
        digits_value(s.drop_last()) * 10 + ((s.last() as nat) - ('0' as nat)) as nat
    }
}

pub open spec fn all_digits(s: Seq<char>) -> bool {
    forall|i: int| 0 <= i < s.len() ==> is_digit(#[trigger] s[i])
}

/// `t` without a leading plus sign.
pub open spec fn unsigned_body(t: Seq<char>) -> Seq<char> {
    if t.len() > 0 && t[0] == '+' {
        t.drop_first()
    } else {
        t
    }
}

/// The value of an unsigned decimal number (an optional plus sign, then
/// at least one digit), as `str::parse` reads it before range checks.
pub open spec fn parse_nat(t: Seq<char>) -> Option<nat> {
    let d = unsigned_body(t);
    if d.len() > 0 && all_digits(d) {
        Some(digits_value(d))
    } else {
        None
    }
}

/// The value of a number field (trimmed) that fits below `max`, else `default`.
pub open spec fn number_or(s: Seq<char>, max: int, default: int) -> int {
    match parse_nat(trim(s)) {
        Some(v) => if v <= max {
            v as int
        } else {
            default
        },
        None => default,
    }
}

proof fn lemma_digits_prefix(s: Seq<char>, k: int)
    requires
        0 <= k <= s.len(),
        all_digits(s),
    ensures
        digits_value(s.take(k)) <= digits_value(s),
    decreases s.len(),
{
    if k < s.len() {
        assert(s.drop_last().take(k) =~= s.take(k));
        lemma_digits_prefix(s.drop_last(), k);
    } else {
        assert(s.take(k) =~= s);
    }
}

/// The value of the digits `buf[lo..hi]`, when it is at most `max`.
fn digits_in(buf: &Vec<char>, lo: usize, hi: usize, max: u64) -> (r: Option<u64>)
    requires
        lo <= hi <= buf@.len(),
    ensures
        all_digits(buf@.subrange(lo as int, hi as int)) && digits_value(
            buf@.subrange(lo as int, hi as int),
        ) <= max ==> r == Some(digits_value(buf@.subrange(lo as int, hi as int)) as u64),
        !(all_digits(buf@.subrange(lo as int, hi as int)) && digits_value(
            buf@.subrange(lo as int, hi as int),
        ) <= max) ==> r is None,
{
    let ghost s = buf@.subrange(lo as int, hi as int);
    let mut v: u64 = 0;
    let mut i = lo;
    while i < hi
        invariant
            lo <= i <= hi <= buf@.len(),
            s == buf@.subrange(lo as int, hi as int),
            all_digits(s.take(i - lo)),
            v == digits_value(s.take(i - lo)),
            v <= max,
        decreases hi - i,
    {
        let c = buf[i];
        assert(s[i - lo] == c);
        if !('0' <= c && c <= '9') {
            return None;
        }
        let d = (c as u32 - '0' as u32) as u64;
        let ghost t = s.take(i - lo + 1);
        assert(t.drop_last() =~= s.take(i - lo));
        assert(t.last() == c);
        assert(digits_value(t) == v * 10 + d);
        if d > max || v > (max - d) / 10 {
            proof {
                if d <= max {
                    assert(v * 10 + d > max) by (nonlinear_arith)
                        requires
                            v > (max - d) / 10,
                            d <= max,
                    ;
                }
                assert forall|j: int| 0 <= j < t.len() implies is_digit(#[trigger] t[j]) by {
                    if j < t.len() - 1 {
                        assert(t[j] == s.take(i - lo)[j]);
                    }
                }
                if all_digits(s) {
                    lemma_digits_prefix(s, i - lo + 1);
                }
            }
            return None;
        }
        assert(v * 10 + d <= max) by (nonlinear_arith)
            requires
                v <= (max - d) / 10,
                d <= max,
        ;
        v = v * 10 + d;
        assert forall|j: int| 0 <= j < t.len() implies is_digit(#[trigger] t[j]) by {
            if j < t.len() - 1 {
                assert(t[j] == s.take(i - lo)[j]);
            }
        }
        i = i + 1;
    }
    assert(s.take(i - lo) =~= s);
    Some(v)
}

/// Reads a number field: its trimmed text parsed as an unsigned number
/// at most `max`, or `default`.
fn number_in(buf: &Vec<char>, lo: usize, hi: usize, max: u64, default: u64) -> (r: u64)
    requires
        lo <= hi <= buf@.len(),
        default <= max,
    ensures
        r == number_or(buf@.subrange(lo as int, hi as int), max as int, default as int),
{
    let (a, b) = trim_range(buf, lo, hi);
    let ghost t = buf@.subrange(a as int, b as int);
    let start = if a < b && buf[a] == '+' {
        a + 1
    } else {
        a
    };
    assert(unsigned_body(t) =~= buf@.subrange(start as int, b as int));
    if start == b {
        return default;
    }
    match digits_in(buf, start, b, max) {
        Some(v) => v,
        None => default,
    }
}

// ── Seconds fields ───────────────────────────────────────────────────────────

/// Ten to the power `n`.
pub open spec fn pow10(n: nat) -> nat
    decreases n,
{
    if n == 0 {
        1
    } else {
        10 * pow10((n - 1) as nat)
    }
}

/// Position of the first exponent mark (`e` or `E`) of `d` at or after
/// `i`, or the length of `d`.
pub open spec fn exp_mark(d: Seq<char>, i: int) -> int
    decreases d.len() - i,
{
    if i < 0 || i >= d.len() {
        d.len() as int
    } else if d[i] == 'e' || d[i] == 'E' {
        i
    } else {
        exp_mark(d, i + 1)
    }
}

/// The decimal exponent `x` writes: an optional sign, then digits (a
/// magnitude beyond the largest counter value counts as that value).
pub open spec fn exponent(x: Seq<char>) -> Option<int> {
    let neg = x.len() > 0 && x[0] == '-';
    let xs = if x.len() > 0 && (x[0] == '-' || x[0] == '+') {
        x.drop_first()
    } else {
        x
    };
    let mag: int = if digits_value(xs) <= u64::MAX {
        digits_value(xs) as int
    } else {
        u64::MAX as int
    };
    if xs.len() > 0 && all_digits(xs) {
        Some(if neg {
            -mag
        } else {
            mag
        })
    } else {
        None
    }
}

/// The digits of a seconds value `t` (an optional plus sign, digits,
/// optionally a point and more digits, at least one digit in all, then
/// optionally an exponent) and how many of them stand before the
/// millisecond point, which may lie outside the digits.
pub open spec fn secs_digits(t: Seq<char>) -> Option<(Seq<char>, int)> {
    let d = unsigned_body(t);
    let e = exp_mark(d, 0);
    let m = d.take(e);
    let p = crate::text::find_char(m, '.', 0);
    let ip = m.take(p);
    let fp = if p < m.len() {
        m.skip(p + 1)
    } else {
        Seq::empty()
    };
    let x = if e < d.len() {
        exponent(d.skip(e + 1))
    } else {
        Some(0int)
    };
    if all_digits(ip) && all_digits(fp) && ip.len() + fp.len() > 0 && x is Some {
        Some((ip + fp, ip.len() + x->Some_0 + 3))
    } else {
        None
    }
}

/// Whole milliseconds written by the digits `ds` when `pos` of them stand
/// before the millisecond point.
pub open spec fn whole_ms(ds: Seq<char>, pos: int) -> nat {
    if pos <= 0 {
        0
    } else if pos >= ds.len() {
        digits_value(ds) * pow10((pos - ds.len()) as nat)
    } else {
        digits_value(ds.take(pos))
    }
}

/// `v`, or the largest counter value when `v` is larger.
pub open spec fn sat(v: int) -> u64 {
    if v <= u64::MAX {
        v as u64
    } else {
        u64::MAX
    }
}

/// A plain seconds value `t` in whole milliseconds (see `secs_digits`),
/// never beyond the largest counter value; 0 when `t` is not such a value.
pub open spec fn plain_interval(t: Seq<char>) -> u64 {
    match secs_digits(t) {
        Some((ds, pos)) => sat(whole_ms(ds, pos) as int),
        None => 0,
    }
}

/// Character `c` is letter `w` (a lower-case letter) in either case, or
/// equals `w`.
pub open spec fn same_letter(c: char, w: char) -> bool {
    c == w || ('a' <= w && w <= 'z' && c as u32 + 32 == w as u32)
}

/// `t` spells the lower-case word `w`, letters in either case.
pub open spec fn spells(t: Seq<char>, w: Seq<char>) -> bool {
    &&& t.len() == w.len()
    &&& forall|i: int| 0 <= i < t.len() ==> same_letter(#[trigger] t[i], w[i])
}

/// `t` names a value that is not a number ("nan").
pub open spec fn names_nan(t: Seq<char>) -> bool {
    spells(t, seq!['n', 'a', 'n'])
}

/// `t` names infinity ("inf" or "infinity").
pub open spec fn names_inf(t: Seq<char>) -> bool {
    spells(t, seq!['i', 'n', 'f']) || spells(t, seq!['i', 'n', 'f', 'i', 'n', 'i', 't', 'y'])
}

/// An interval field in milliseconds.  A value that never comes round
/// (infinity, or not a number) is the largest counter value; a negative
/// value, which comes round at every tick, and text that is no number at
/// all are 0; otherwise the seconds value (see `plain_interval`), never beyond
/// the largest counter value.
pub open spec fn interval_ms_or_zero(s: Seq<char>) -> u64 {
    let t = trim(s);
    if t.len() > 0 && t[0] == '-' {
        if names_nan(t.drop_first()) {
            u64::MAX
        } else {
            0
        }
    } else if names_nan(unsigned_body(t)) || names_inf(unsigned_body(t)) {
        u64::MAX
    } else {
        plain_interval(t)
    }
}

/// Whether `buf[lo..hi]` spells the lower-case word `w`, letters in either case.
fn spells_in(buf: &Vec<char>, lo: usize, hi: usize, w: &Vec<char>) -> (r: bool)
    requires
        lo <= hi <= buf@.len(),
    ensures
        r == spells(buf@.subrange(lo as int, hi as int), w@),
{
    let ghost t = buf@.subrange(lo as int, hi as int);
    if hi - lo != w.len() {
        return false;
    }
    let mut i: usize = 0;
    while i < w.len()
        invariant
            lo <= hi <= buf@.len(),
            hi - lo == w@.len(),
            t == buf@.subrange(lo as int, hi as int),
            i <= w@.len(),
            forall|j: int| 0 <= j < i ==> same_letter(#[trigger] t[j], w@[j]),
        decreases w@.len() - i,
    {
        let c = buf[lo + i];
        let wc = w[i];
        assert(t[i as int] == c);
        if !(c == wc || ('a' <= wc && wc <= 'z' && c as u32 == wc as u32 - 32)) {
            return false;
        }
        i = i + 1;
    }
    true
}

/// Whether `buf[lo..hi]` consists of decimal digits.
fn all_digits_in(buf: &Vec<char>, lo: usize, hi: usize) -> (r: bool)
    requires
        lo <= hi <= buf@.len(),
    ensures
        r == all_digits(buf@.subrange(lo as int, hi as int)),
{
    let mut i = lo;
    while i < hi
        invariant
            lo <= i <= hi <= buf@.len(),
            forall|j: int| lo <= j < i ==> is_digit(#[trigger] buf@[j]),
        decreases hi - i,
    {
        if !('0' <= buf[i] && buf[i] <= '9') {
            assert(!is_digit(buf@.subrange(lo as int, hi as int)[i - lo]));
            return false;
        }
        i = i + 1;
    }
    assert forall|j: int| 0 <= j < hi - lo implies is_digit(
        #[trigger] buf@.subrange(lo as int, hi as int)[j],
    ) by {
        assert(buf@.subrange(lo as int, hi as int)[j] == buf@[lo + j]);
    }
    true
}

/// Ten to a power is positive and grows with the power.
proof fn lemma_pow10_mono(j: nat, k: nat)
    requires
        j <= k,
    ensures
        1 <= pow10(j) <= pow10(k),
    decreases k,
{
    if j < k {
        lemma_pow10_mono(j, (k - 1) as nat);
    } else if k > 0 {
        lemma_pow10_mono(0, (k - 1) as nat);
    }
}

/// Position of the first exponent mark in `buf[lo..hi]`, or `hi`.
fn exp_mark_in(buf: &Vec<char>, lo: usize, hi: usize) -> (q: usize)
    requires
        lo <= hi <= buf@.len(),
    ensures
        lo <= q <= hi,
        q - lo == exp_mark(buf@.subrange(lo as int, hi as int), 0),
{
    let ghost s = buf@.subrange(lo as int, hi as int);
    let mut q = lo;
    while q < hi
        invariant
            lo <= q <= hi <= buf@.len(),
            s == buf@.subrange(lo as int, hi as int),
            exp_mark(s, 0) == exp_mark(s, q - lo),
        decreases hi - q,
    {
        assert(s[q - lo] == buf@[q as int]);
        if buf[q] == 'e' || buf[q] == 'E' {
            return q;
        }
        q = q + 1;
    }
    q
}

/// The first `n` digits of `buf[lo1..hi1]` followed by `buf[lo2..hi2]`, as
/// a number, never beyond the largest counter value.
fn sat_digits(buf: &Vec<char>, lo1: usize, hi1: usize, lo2: usize, hi2: usize, n: usize) -> (r: u64)
    requires
        lo1 <= hi1 <= buf@.len(),
        lo2 <= hi2 <= buf@.len(),
        all_digits(buf@.subrange(lo1 as int, hi1 as int) + buf@.subrange(lo2 as int, hi2 as int)),
        n <= (hi1 - lo1) + (hi2 - lo2),
    ensures
        r == sat(
            digits_value(
                (buf@.subrange(lo1 as int, hi1 as int) + buf@.subrange(lo2 as int, hi2 as int)).take(
                    n as int,
                ),
            ) as int,
        ),
{
    let ghost ds = buf@.subrange(lo1 as int, hi1 as int) + buf@.subrange(lo2 as int, hi2 as int);
    let len1 = hi1 - lo1;
    let mut v: u64 = 0;
    let mut k: usize = 0;
    assert(ds.take(0) =~= Seq::<char>::empty());
    while k < n
        invariant
            lo1 <= hi1 <= buf@.len(),
            lo2 <= hi2 <= buf@.len(),
            len1 == hi1 - lo1,
            ds == buf@.subrange(lo1 as int, hi1 as int) + buf@.subrange(lo2 as int, hi2 as int),
            all_digits(ds),
            n <= ds.len(),
            k <= n,
            v == sat(digits_value(ds.take(k as int)) as int),
        decreases n - k,
    {
        let c = if k < len1 {
            buf[lo1 + k]
        } else {
            buf[lo2 + (k - len1)]
        };
        assert(ds[k as int] == c);
        assert(is_digit(ds[k as int]));
        let ghost t = ds.take(k + 1);
        assert(t.drop_last() =~= ds.take(k as int));
        assert(t.last() == c);
        let ghost dv = digits_value(ds.take(k as int));
        let d = (c as u32 - '0' as u32) as u64;
        assert(digits_value(t) == dv * 10 + d);
        if v == u64::MAX {
            assert(dv * 10 + d >= u64::MAX) by (nonlinear_arith)
                requires
                    dv >= u64::MAX,
            ;
        } else if v > (u64::MAX - d) / 10 {
            assert(dv * 10 + d > u64::MAX) by (nonlinear_arith)
                requires
                    dv == v,
                    v > (u64::MAX - d) / 10,
                    d <= 9,
            ;
            v = u64::MAX;
        } else {
            assert(v * 10 + d <= u64::MAX) by (nonlinear_arith)
                requires
                    v <= (u64::MAX - d) / 10,
                    d <= 9,
            ;
            v = v * 10 + d;
        }
        k = k + 1;
    }
    v
}

/// `v` times ten to the power `k`, never beyond the largest counter value.
fn sat_scale(v: u64, k: u128) -> (r: u64)
    ensures
        r == sat(v * pow10(k as nat)),
{
    let mut w = v;
    let mut j: u128 = 0;
    assert(pow10(0) == 1);
    assert(v * pow10(0) == v);
    while j < k
        invariant
            j <= k,
            w == sat(v * pow10(j as nat)),
        decreases k - j,
    {
        proof {
            lemma_pow10_mono(j as nat, k as nat);
        }
        if w == 0 {
            assert(v == 0) by (nonlinear_arith)
                requires
                    v * pow10(j as nat) == 0,
                    pow10(j as nat) >= 1,
            ;
            assert(v * pow10(k as nat) == 0);
            return 0;
        }
        if w == u64::MAX {
            assert(v * pow10(k as nat) >= u64::MAX) by (nonlinear_arith)
                requires
                    v * pow10(j as nat) >= u64::MAX,
                    pow10(j as nat) <= pow10(k as nat),
            ;
            return u64::MAX;
        }
        assert(pow10((j + 1) as nat) == 10 * pow10(j as nat));
        assert(v * pow10((j + 1) as nat) == 10 * (v * pow10(j as nat))) by (nonlinear_arith)
            requires
                pow10((j + 1) as nat) == 10 * pow10(j as nat),
        ;
        if w > u64::MAX / 10 {
            w = u64::MAX;
        } else {
            w = w * 10;
        }
        j = j + 1;
    }
    w
}

/// A value beyond the largest counter value stays beyond it when scaled up.
proof fn lemma_sat_scale(dv: nat, p: nat)
    requires
        p >= 1,
    ensures
        sat(sat(dv as int) * p) == sat((dv * p) as int),
{
    if dv > u64::MAX {
        assert(u64::MAX * p >= u64::MAX) by (nonlinear_arith)
            requires
                p >= 1,
        ;
        assert(dv * p >= u64::MAX) by (nonlinear_arith)
            requires
                p >= 1,
                dv > u64::MAX,
        ;
    }
}

/// Reads a plain seconds value `buf[a..b]` as whole milliseconds (see
/// `plain_interval`).
#[verifier::rlimit(40)]
#[verifier::spinoff_prover]
fn plain_interval_in(buf: &Vec<char>, a: usize, b: usize) -> (r: u64)
    requires
        a <= b <= buf@.len(),
    ensures
        r == plain_interval(buf@.subrange(a as int, b as int)),
{
    let ghost t = buf@.subrange(a as int, b as int);
    let start = if a < b && buf[a] == '+' {
        a + 1
    } else {
        a
    };
    let ghost d = unsigned_body(t);
    assert(d =~= buf@.subrange(start as int, b as int));
    let e = exp_mark_in(buf, start, b);
    let ghost m = d.take(e - start);
    assert(m =~= buf@.subrange(start as int, e as int));
    let p = crate::text::find_in(buf, start, e, start, '.');
    let ghost ip = m.take(p - start);
    assert(ip =~= buf@.subrange(start as int, p as int));
    let fp_lo = if p < e {
        p + 1
    } else {
        e
    };
    let ghost fp = if p - start < m.len() {
        m.skip(p - start + 1)
    } else {
        Seq::<char>::empty()
    };
    assert(fp =~= buf@.subrange(fp_lo as int, e as int));
    if !all_digits_in(buf, start, p) || !all_digits_in(buf, fp_lo, e) || (p == start && fp_lo == e) {
        return 0;
    }
    // the exponent, when there is one
    let mut x: i128 = 0;
    if e < b {
        let ghost xt = d.skip(e - start + 1);
        assert(xt =~= buf@.subrange(e + 1, b as int));
        match exponent_in(buf, e + 1, b) {
            Some(v) => {
                x = v;
            },
            None => {
                return 0;
            },
        }
    }
    let ghost ds = buf@.subrange(start as int, p as int) + buf@.subrange(fp_lo as int, e as int);
    assert(ds =~= ip + fp);
    proof {
        assert forall|j: int| 0 <= j < ds.len() implies is_digit(#[trigger] ds[j]) by {
            if j < ip.len() {
                assert(ds[j] == ip[j]);
            } else {
                assert(ds[j] == fp[j - ip.len()]);
            }
        }
    }
    let ilen = p - start;
    let pos: i128 = ilen as i128 + x + 3;
    assert(secs_digits(t) == Some((ds, pos as int)));
    whole_ms_in(buf, start, p, fp_lo, e, pos)
}

/// Whole milliseconds written by the digits `buf[lo1..hi1]` followed by
/// `buf[lo2..hi2]` when `pos` of them stand before the millisecond point,
/// never beyond the largest counter value.
fn whole_ms_in(buf: &Vec<char>, lo1: usize, hi1: usize, lo2: usize, hi2: usize, pos: i128) -> (r: u64)
    requires
        lo1 <= hi1 <= lo2 <= hi2 <= buf@.len(),
        all_digits(buf@.subrange(lo1 as int, hi1 as int) + buf@.subrange(lo2 as int, hi2 as int)),
    ensures
        r == sat(
            whole_ms(
                buf@.subrange(lo1 as int, hi1 as int) + buf@.subrange(lo2 as int, hi2 as int),
                pos as int,
            ) as int,
        ),
{
    let ghost ds = buf@.subrange(lo1 as int, hi1 as int) + buf@.subrange(lo2 as int, hi2 as int);
    let dlen = (hi1 - lo1) + (hi2 - lo2);
    if pos <= 0 {
        0
    } else if pos >= dlen as i128 {
        let v = sat_digits(buf, lo1, hi1, lo2, hi2, dlen);
        assert(ds.take(dlen as int) =~= ds);
        let k = (pos - dlen as i128) as u128;
        let r = sat_scale(v, k);
        proof {
            lemma_pow10_mono(0, k as nat);
            lemma_sat_scale(digits_value(ds), pow10(k as nat));
        }
        r
    } else {
        sat_digits(buf, lo1, hi1, lo2, hi2, pos as usize)
    }
}

/// Reads an exponent `buf[lo..hi]` (see `exponent`).
fn exponent_in(buf: &Vec<char>, lo: usize, hi: usize) -> (r: Option<i128>)
    requires
        lo <= hi <= buf@.len(),
    ensures
        match r {
            Some(v) => exponent(buf@.subrange(lo as int, hi as int)) == Some(v as int),
            None => exponent(buf@.subrange(lo as int, hi as int)) is None,
        },
{
    let ghost xt = buf@.subrange(lo as int, hi as int);
    let neg = lo < hi && buf[lo] == '-';
    let xs_lo = if lo < hi && (buf[lo] == '-' || buf[lo] == '+') {
        lo + 1
    } else {
        lo
    };
    let ghost xs = buf@.subrange(xs_lo as int, hi as int);
    assert(xs =~= (if xt.len() > 0 && (xt[0] == '-' || xt[0] == '+') {
        xt.drop_first()
    } else {
        xt
    }));
    if xs_lo == hi || !all_digits_in(buf, xs_lo, hi) {
        return None;
    }
    let mag: u64 = match digits_in(buf, xs_lo, hi, u64::MAX) {
        Some(v) => v,
        None => u64::MAX,
    };
    let x: i128 = if neg {
        -(mag as i128)
    } else {
        mag as i128
    };
    Some(x)
}

/// Reads an interval field given in seconds, as milliseconds (see
/// `interval_ms_or_zero`).
fn interval_in(buf: &Vec<char>, lo: usize, hi: usize) -> (r: u64)
    requires
        lo <= hi <= buf@.len(),
    ensures
        r == interval_ms_or_zero(buf@.subrange(lo as int, hi as int)),
{
    let (a, b) = trim_range(buf, lo, hi);
    let ghost t = buf@.subrange(a as int, b as int);
    let nan = vec!['n', 'a', 'n'];
    let inf = vec!['i', 'n', 'f'];
    let infinity = vec!['i', 'n', 'f', 'i', 'n', 'i', 't', 'y'];
    assert(nan@ == seq!['n', 'a', 'n']);
    assert(inf@ == seq!['i', 'n', 'f']);
    assert(infinity@ == seq!['i', 'n', 'f', 'i', 'n', 'i', 't', 'y']);
    if a < b && buf[a] == '-' {
        assert(t.drop_first() =~= buf@.subrange(a + 1, b as int));
        return if spells_in(buf, a + 1, b, &nan) {
            u64::MAX
        } else {
            0
        };
    }
    let start = if a < b && buf[a] == '+' {
        a + 1
    } else {
        a
    };
    assert(unsigned_body(t) =~= buf@.subrange(start as int, b as int));
    if spells_in(buf, start, b, &nan) || spells_in(buf, start, b, &inf) || spells_in(
        buf,
        start,
        b,
        &infinity,
    ) {
        return u64::MAX;
    }
    plain_interval_in(buf, a, b)
}

// ── Initial board ────────────────────────────────────────────────────────────

/// The non-empty cells of one board row: (column, row, item id).
pub open spec fn row_cells(cells: Seq<Seq<char>>, row: int, m: int) -> Seq<(int, int, Seq<char>)>
    decreases m,
{
    if m <= 0 {
        Seq::empty()
    } else if trim(cells[m - 1]).len() > 0 {
        row_cells(cells, row, m - 1).push((m - 1, row, trim(cells[m - 1])))
    } else {
        row_cells(cells, row, m - 1)
    }
}

/// The initial pieces listed by the first `m` lines of the board table;
/// data line `k` describes board row `k - 3`, its comma-separated fields the
/// columns.
pub open spec fn board_init_upto(lines: Seq<Seq<char>>, m: int) -> Seq<(int, int, Seq<char>)>
    decreases m,
{
    if m <= 0 {
        Seq::empty()
    } else if data_line(lines, m - 1) {
        let cells = split_all(lines[m - 1], ',');
        board_init_upto(lines, m - 1) + row_cells(cells, m - 1 - HEADER_ROWS, cells.len() as int)
    } else {
        board_init_upto(lines, m - 1)
    }
}

/// The initial pieces listed by a board table.
pub open spec fn board_init_spec(text: Seq<char>) -> Seq<(int, int, Seq<char>)> {
    board_init_upto(lines_from(text, 0), lines_from(text, 0).len() as int)
}

/// View of a list of (column, row, item id) entries.
pub open spec fn entries_view(v: Seq<(usize, usize, String)>) -> Seq<(int, int, Seq<char>)> {
    Seq::new(v.len(), |i: int| (v[i].0 as int, v[i].1 as int, v[i].2@))
}

/// Whether line `lr` of `buf` holds data.
fn is_data_line(buf: &Vec<char>, lr: (usize, usize), k: usize) -> (r: bool)
    requires
        lr.0 <= lr.1 <= buf@.len(),
    ensures
        r == (k >= HEADER_ROWS && trim(buf@.subrange(lr.0 as int, lr.1 as int)).len() > 0),
{
    if k < HEADER_ROWS {
        return false;
    }
    let (a, b) = trim_range(buf, lr.0, lr.1);
    a < b
}

/// Reads the initial board layout: (column, row, item id) for every
/// non-blank field of every data line.
pub fn load_board_init(text: &str) -> (r: Vec<(usize, usize, String)>)
    requires
        text@.len() < usize::MAX,
    ensures
        entries_view(r@) == board_init_spec(text@),
{
    let buf = chars_of(text);
    let lines = line_ranges(&buf);
    let ghost ls = lines_from(buf@, 0);
    let mut entries: Vec<(usize, usize, String)> = Vec::new();
    let mut k: usize = 0;
    while k < lines.len()
        invariant
            ls == lines_from(buf@, 0),
            buf@.len() < usize::MAX,
            ranges_view(buf@, lines@) == ls,
            ranges_within(lines@, 0, buf@.len() as int),
            k <= lines@.len(),
            entries_view(entries@) == board_init_upto(ls, k as int),
        decreases lines@.len() - k,
    {
        let lr = lines[k];
        assert(ls[k as int] == buf@.subrange(lr.0 as int, lr.1 as int));
        if is_data_line(&buf, lr, k) {
            let board_row = k - HEADER_ROWS;
            let cells = split_ranges(&buf, lr.0, lr.1, ',', usize::MAX);
            let ghost cs = split_all(ls[k as int], ',');
            proof {
                crate::text::lemma_splitn_enough(
                    ls[k as int],
                    ',',
                    0,
                    usize::MAX as int,
                    ls[k as int].len() as int + 1,
                );
            }
            assert(ranges_view(buf@, cells@) == cs);
            let ghost start = entries_view(entries@);
            let mut col: usize = 0;
            while col < cells.len()
                invariant
                    ranges_view(buf@, cells@) == cs,
                    ranges_within(cells@, lr.0 as int, lr.1 as int),
                    lr.1 <= buf@.len(),
                    col <= cells@.len(),
                    entries_view(entries@) == start + row_cells(cs, board_row as int, col as int),
                decreases cells@.len() - col,
            {
                let cr = cells[col];
                assert(cs[col as int] == buf@.subrange(cr.0 as int, cr.1 as int));
                let (a, b) = trim_range(&buf, cr.0, cr.1);
                if a < b {
                    let id = string_of(&buf, a, b);
                    let ghost before = entries_view(entries@);
                    entries.push((col, board_row, id));
                    assert(entries_view(entries@) =~= before.push((col as int, board_row as int, id@)));
                }
                col = col + 1;
            }
        }
        k = k + 1;
    }
    entries
}


// ── Order templates ──────────────────────────────────────────────────────────

/// The trimmed non-empty pieces among the first `m` of `pieces`.
pub open spec fn trimmed_nonempty(pieces: Seq<Seq<char>>, m: int) -> Seq<Seq<char>>
    decreases m,
{
    if m <= 0 {
        Seq::empty()
    } else if trim(pieces[m - 1]).len() > 0 {
        trimmed_nonempty(pieces, m - 1).push(trim(pieces[m - 1]))
    } else {
        trimmed_nonempty(pieces, m - 1)
    }
}

/// The template a data line describes: the text before its last comma is
/// a semicolon-separated list of item ids, the text after it the coin
/// reward (0 when not a number).  `None` for a line without a comma or
/// without any item id.
pub open spec fn order_line(line: Seq<char>) -> Option<(Seq<Seq<char>>, u64)> {
    let p = crate::text::rfind_char(line, ',');
    if p < 0 {
        None
    } else {
        let pieces = split_all(line.subrange(0, p), ';');
        let ids = trimmed_nonempty(pieces, pieces.len() as int);
        if ids.len() == 0 {
            None
        } else {
            Some(
                (
                    ids,
                    number_or(line.subrange(p + 1, line.len() as int), u64::MAX as int, 0) as u64,
                ),
            )
        }
    }
}

/// How many of the first `m` pieces are non-empty once trimmed.
pub open spec fn nonempty_count(pieces: Seq<Seq<char>>, m: int) -> nat
    decreases m,
{
    if m <= 0 {
        0
    } else {
        nonempty_count(pieces, m - 1) + if trim(pieces[m - 1]).len() > 0 {
            1nat
        } else {
            0nat
        }
    }
}

proof fn lemma_trimmed_nonempty(pieces: Seq<Seq<char>>, m: int)
    requires
        0 <= m <= pieces.len(),
    ensures
        trimmed_nonempty(pieces, m).len() == nonempty_count(pieces, m),
        forall|k: int|
            0 <= k < m && trim(pieces[k]).len() > 0 ==> nonempty_count(pieces, k) < nonempty_count(
                pieces,
                m,
            ) && trimmed_nonempty(pieces, m)[#[trigger] nonempty_count(pieces, k) as int] == trim(
                pieces[k],
            ),
    decreases m,
{
    if m > 0 {
        lemma_trimmed_nonempty(pieces, m - 1);
        lemma_nonempty_count_mono(pieces, m - 1);
    }
}

proof fn lemma_nonempty_count_mono(pieces: Seq<Seq<char>>, m: int)
    requires
        0 <= m,
    ensures
        forall|k: int| 0 <= k <= m ==> #[trigger] nonempty_count(pieces, k) <= nonempty_count(pieces, m),
    decreases m,
{
    if m > 0 {
        lemma_nonempty_count_mono(pieces, m - 1);
    }
}

/// An order template keeps every non-empty piece of its items field, in
/// order and with repetitions: it has one item per non-empty piece, and
/// the `n`-th non-empty piece (trimmed) is its `n`-th item.
pub proof fn law_order_items_kept(line: Seq<char>)
    requires
        order_line(line) is Some,
    ensures
        ({
            let pieces = split_all(line.subrange(0, crate::text::rfind_char(line, ',')), ';');
            let ids = order_line(line)->Some_0.0;
            &&& ids.len() == nonempty_count(pieces, pieces.len() as int)
            &&& forall|k: int|
                0 <= k < pieces.len() && trim(pieces[k]).len() > 0 ==> ids[#[trigger] nonempty_count(
                    pieces,
                    k,
                ) as int] == trim(pieces[k])
        }),
{
    let pieces = split_all(line.subrange(0, crate::text::rfind_char(line, ',')), ';');
    lemma_trimmed_nonempty(pieces, pieces.len() as int);
}

/// The templates listed by the first `m` lines of the order table.
pub open spec fn orders_upto(lines: Seq<Seq<char>>, m: int) -> Seq<(Seq<Seq<char>>, u64)>
    decreases m,
{
    if m <= 0 {
        Seq::empty()
    } else if data_line(lines, m - 1) && order_line(lines[m - 1]) is Some {
        orders_upto(lines, m - 1).push(order_line(lines[m - 1])->Some_0)
    } else {
        orders_upto(lines, m - 1)
    }
}

/// The templates listed by an order table.
pub open spec fn orders_spec(text: Seq<char>) -> Seq<(Seq<Seq<char>>, u64)> {
    orders_upto(lines_from(text, 0), lines_from(text, 0).len() as int)
}

/// View of a list of templates.
pub open spec fn templates_view(v: Seq<(Vec<String>, u64)>) -> Seq<(Seq<Seq<char>>, u64)> {
    Seq::new(v.len(), |i: int| (strings_view(v[i].0@), v[i].1))
}

/// Position of the last `c` in `buf[lo..hi]`.
fn rfind_in(buf: &Vec<char>, lo: usize, hi: usize, c: char) -> (r: Option<usize>)
    requires
        lo <= hi <= buf@.len(),
    ensures
        r matches Some(p) ==> lo <= p < hi && p - lo == crate::text::rfind_char(
            buf@.subrange(lo as int, hi as int),
            c,
        ),
        r is None ==> crate::text::rfind_char(buf@.subrange(lo as int, hi as int), c) == -1,
{
    let mut j = hi;
    while j > lo
        invariant
            lo <= j <= hi <= buf@.len(),
            crate::text::rfind_char(buf@.subrange(lo as int, hi as int), c)
                == crate::text::rfind_char(buf@.subrange(lo as int, j as int), c),
        decreases j - lo,
    {
        assert(buf@.subrange(lo as int, j as int).drop_last() =~= buf@.subrange(
            lo as int,
            j - 1,
        ));
        if buf[j - 1] == c {
            return Some(j - 1);
        }
        j = j - 1;
    }
    None
}

/// The trimmed non-empty pieces of `buf[lo..hi]` separated by `c`.
fn trimmed_pieces(buf: &Vec<char>, lo: usize, hi: usize, c: char) -> (r: Vec<String>)
    requires
        lo <= hi <= buf@.len(),
        buf@.len() < usize::MAX,
    ensures
        strings_view(r@) == trimmed_nonempty(
            split_all(buf@.subrange(lo as int, hi as int), c),
            split_all(buf@.subrange(lo as int, hi as int), c).len() as int,
        ),
{
    let ghost s = buf@.subrange(lo as int, hi as int);
    let pieces = split_ranges(buf, lo, hi, c, usize::MAX);
    proof {
        crate::text::lemma_splitn_enough(s, c, 0, usize::MAX as int, s.len() as int + 1);
    }
    let ghost ps = split_all(s, c);
    let mut out: Vec<String> = Vec::new();
    let mut k: usize = 0;
    while k < pieces.len()
        invariant
            ranges_view(buf@, pieces@) == ps,
            ranges_within(pieces@, lo as int, hi as int),
            hi <= buf@.len(),
            k <= pieces@.len(),
            strings_view(out@) == trimmed_nonempty(ps, k as int),
        decreases pieces@.len() - k,
    {
        let pr = pieces[k];
        assert(ps[k as int] == buf@.subrange(pr.0 as int, pr.1 as int));
        let (a, b) = trim_range(buf, pr.0, pr.1);
        if a < b {
            let ghost before = strings_view(out@);
            let piece = string_of(buf, a, b);
            out.push(piece);
            assert(strings_view(out@) =~= before.push(piece@));
        }
        k = k + 1;
    }
    out
}

/// Reads the order templates: (item ids, coin reward) for every data line
/// that names at least one item.
pub fn load_orders(text: &str) -> (r: Vec<(Vec<String>, u64)>)
    requires
        text@.len() < usize::MAX,
    ensures
        templates_view(r@) == orders_spec(text@),
{
    let buf = chars_of(text);
    let lines = line_ranges(&buf);
    let ghost ls = lines_from(buf@, 0);
    let mut templates: Vec<(Vec<String>, u64)> = Vec::new();
    let mut k: usize = 0;
    while k < lines.len()
        invariant
            ls == lines_from(buf@, 0),
            buf@.len() < usize::MAX,
            ranges_view(buf@, lines@) == ls,
            ranges_within(lines@, 0, buf@.len() as int),
            k <= lines@.len(),
            templates_view(templates@) == orders_upto(ls, k as int),
        decreases lines@.len() - k,
    {
        let lr = lines[k];
        let ghost line = ls[k as int];
        assert(line == buf@.subrange(lr.0 as int, lr.1 as int));
        if is_data_line(&buf, lr, k) {
            match rfind_in(&buf, lr.0, lr.1, ',') {
                Some(p) => {
                    assert(buf@.subrange(lr.0 as int, p as int) =~= line.subrange(0, p - lr.0));
                    assert(buf@.subrange(p + 1, lr.1 as int) =~= line.subrange(
                        p - lr.0 + 1,
                        line.len() as int,
                    ));
                    let ids = trimmed_pieces(&buf, lr.0, p, ';');
                    let reward = number_in(&buf, p + 1, lr.1, u64::MAX, 0);
                    if ids.len() > 0 {
                        let ghost before = templates_view(templates@);
                        templates.push((ids, reward));
                        assert(templates_view(templates@) =~= before.push(
                            order_line(line)->Some_0,
                        ));
                    }
                },
                None => {},
            }
        }
        k = k + 1;
    }
    templates
}

// ── Audio table ──────────────────────────────────────────────────────────────

/// One entry of the audio table.
#[derive(Debug)]
pub struct AudioDef {
    /// Code the entry is looked up by.
    pub audio_code: String,
    /// Asset path of the clip.
    pub audio_path: String,
    /// Description of the clip.
    pub description: String,
}

/// The entry a data line describes: its first two comma-separated fields
/// and the rest of the line, trimmed; `None` with fewer than three fields.
pub open spec fn audio_line(line: Seq<char>) -> Option<(Seq<char>, Seq<char>, Seq<char>)> {
    let cols = splitn_from(line, ',', 0, 3);
    if cols.len() < 3 {
        None
    } else {
        Some((trim(cols[0]), trim(cols[1]), trim(cols[2])))
    }
}

/// The entries listed by the first `m` lines of the audio table.
pub open spec fn audio_upto(lines: Seq<Seq<char>>, m: int) -> Seq<(Seq<char>, Seq<char>, Seq<char>)>
    decreases m,
{
    if m <= 0 {
        Seq::empty()
    } else if data_line(lines, m - 1) && audio_line(lines[m - 1]) is Some {
        audio_upto(lines, m - 1).push(audio_line(lines[m - 1])->Some_0)
    } else {
        audio_upto(lines, m - 1)
    }
}

/// The entries listed by an audio table.
pub open spec fn audio_spec(text: Seq<char>) -> Seq<(Seq<char>, Seq<char>, Seq<char>)> {
    audio_upto(lines_from(text, 0), lines_from(text, 0).len() as int)
}

/// View of a list of audio entries.
pub open spec fn audio_view(v: Seq<AudioDef>) -> Seq<(Seq<char>, Seq<char>, Seq<char>)> {
    Seq::new(v.len(), |i: int| (v[i].audio_code@, v[i].audio_path@, v[i].description@))
}

/// Reads the audio table, in file order.
pub fn load_audio(text: &str) -> (r: Vec<AudioDef>)
    ensures
        audio_view(r@) == audio_spec(text@),
{
    let buf = chars_of(text);
    let lines = line_ranges(&buf);
    let ghost ls = lines_from(buf@, 0);
    let mut entries: Vec<AudioDef> = Vec::new();
    let mut k: usize = 0;
    while k < lines.len()
        invariant
            ls == lines_from(buf@, 0),
            ranges_view(buf@, lines@) == ls,
            ranges_within(lines@, 0, buf@.len() as int),
            k <= lines@.len(),
            audio_view(entries@) == audio_upto(ls, k as int),
        decreases lines@.len() - k,
    {
        let lr = lines[k];
        let ghost line = ls[k as int];
        assert(line == buf@.subrange(lr.0 as int, lr.1 as int));
        if is_data_line(&buf, lr, k) {
            let cols = split_ranges(&buf, lr.0, lr.1, ',', 3);
            if cols.len() >= 3 {
                assert(ranges_view(buf@, cols@)[0] == buf@.subrange(cols@[0].0 as int, cols@[0].1 as int));
                assert(ranges_view(buf@, cols@)[1] == buf@.subrange(cols@[1].0 as int, cols@[1].1 as int));
                assert(ranges_view(buf@, cols@)[2] == buf@.subrange(cols@[2].0 as int, cols@[2].1 as int));
                let code = trimmed_string_in(&buf, cols[0].0, cols[0].1);
                let path = trimmed_string_in(&buf, cols[1].0, cols[1].1);
                let description = trimmed_string_in(&buf, cols[2].0, cols[2].1);
                let ghost before = audio_view(entries@);
                entries.push(AudioDef { audio_code: code, audio_path: path, description });
                assert(audio_view(entries@) =~= before.push(audio_line(line)->Some_0));
            }
        }
        k = k + 1;
    }
    entries
}


// ── Item definitions ─────────────────────────────────────────────────────────

/// One output of a generator table line: (generator id, output id, weight).
pub open spec fn gen_line(line: Seq<char>) -> Option<(Seq<char>, Seq<char>, u32)> {
    let cols = splitn_from(line, ',', 0, 3);
    if cols.len() < 3 {
        None
    } else {
        Some((trim(cols[0]), trim(cols[1]), number_or(cols[2], u32::MAX as int, 0) as u32))
    }
}

/// The outputs listed by the first `m` lines of the generator table.
pub open spec fn gen_rows_upto(lines: Seq<Seq<char>>, m: int) -> Seq<(Seq<char>, Seq<char>, u32)>
    decreases m,
{
    if m <= 0 {
        Seq::empty()
    } else if data_line(lines, m - 1) && gen_line(lines[m - 1]) is Some {
        gen_rows_upto(lines, m - 1).push(gen_line(lines[m - 1])->Some_0)
    } else {
        gen_rows_upto(lines, m - 1)
    }
}

/// The outputs listed by a generator table.
pub open spec fn gen_rows(text: Seq<char>) -> Seq<(Seq<char>, Seq<char>, u32)> {
    gen_rows_upto(lines_from(text, 0), lines_from(text, 0).len() as int)
}

/// The sixteen fields of an item table line; `None` with fewer fields.
pub open spec fn item_line(line: Seq<char>) -> Option<Seq<Seq<char>>> {
    let cols = splitn_from(line, ',', 0, ITEMS_CSV_COLUMNS as int);
    if cols.len() < ITEMS_CSV_COLUMNS {
        None
    } else {
        Some(cols)
    }
}

/// The field lists of the item lines among the first `m` lines.
pub open spec fn item_lines_upto(lines: Seq<Seq<char>>, m: int) -> Seq<Seq<Seq<char>>>
    decreases m,
{
    if m <= 0 {
        Seq::empty()
    } else if data_line(lines, m - 1) && item_line(lines[m - 1]) is Some {
        item_lines_upto(lines, m - 1).push(item_line(lines[m - 1])->Some_0)
    } else {
        item_lines_upto(lines, m - 1)
    }
}

/// The field lists of the item lines of an item table.
pub open spec fn item_lines(text: Seq<char>) -> Seq<Seq<Seq<char>>> {
    item_lines_upto(lines_from(text, 0), lines_from(text, 0).len() as int)
}

/// The outputs, as (output id, weight), of generator `id` among the first
/// `m` rows, in table order.
pub open spec fn options_for(rows: Seq<(Seq<char>, Seq<char>, u32)>, id: Seq<char>, m: int) -> Seq<
    (Seq<char>, u32),
>
    decreases m,
{
    if m <= 0 {
        Seq::empty()
    } else if rows[m - 1].0 == id {
        options_for(rows, id, m - 1).push((rows[m - 1].1, rows[m - 1].2))
    } else {
        options_for(rows, id, m - 1)
    }
}

/// The output table of the `k`-th item line: every output listed for its
/// id, unless an earlier item line has the same id (that line takes them).
pub open spec fn generates_of(
    items: Seq<Seq<Seq<char>>>,
    k: int,
    rows: Seq<(Seq<char>, Seq<char>, u32)>,
) -> Seq<(Seq<char>, u32)> {
    if exists|j: int| 0 <= j < k && trim(#[trigger] items[j][0]) == trim(items[k][0]) {
        Seq::empty()
    } else {
        options_for(rows, trim(items[k][0]), rows.len() as int)
    }
}

/// View of an output table.
pub open spec fn options_view(v: Seq<GenerationOption>) -> Seq<(Seq<char>, u32)> {
    Seq::new(v.len(), |i: int| (v[i].item_id@, v[i].weight))
}

/// `def` is the definition written by the fields `cols` with output table `gens`.
pub open spec fn item_from(def: ItemDef, cols: Seq<Seq<char>>, gens: Seq<(Seq<char>, u32)>) -> bool {
    &&& def.id@ == trim(cols[0])
    &&& Some(def.chain) == chain_of(trim(cols[1]))
    &&& def.level == number_or(cols[2], u32::MAX as int, 1)
    &&& def.name@ == trim(cols[3])
    &&& opt_str_view(def.icon_path) == spec_parse_opt_str(cols[4])
    &&& def.is_generator == spec_parse_bool(cols[5])
    &&& def.is_auto_generator == spec_parse_bool(cols[6])
    &&& opt_str_view(def.generates_id) == spec_parse_opt_str(cols[7])
    &&& def.auto_gen_interval_ms == interval_ms_or_zero(cols[8])
    &&& opt_str_view(def.merge_result_id) == spec_parse_opt_str(cols[9])
    &&& def.bg_color.0@ == trim(cols[10])
    &&& def.bg_color.1@ == trim(cols[11])
    &&& def.bg_color.2@ == trim(cols[12])
    &&& def.generates_count == number_or(cols[13], u32::MAX as int, 1)
    &&& def.consumes_on_generate == spec_parse_bool(cols[14])
    &&& def.max_generate_count == number_or(cols[15], u32::MAX as int, 0)
    &&& options_view(def.generates@) == gens
}

/// Every item line of an item table names a known chain.
pub open spec fn chains_known(text: Seq<char>) -> bool {
    forall|k: int|
        0 <= k < item_lines(text).len() ==> chain_of(trim(#[trigger] item_lines(text)[k][1])) is Some
}

/// The three-column rows of the generator table, parsed.
fn read_gen_rows(text: &str) -> (r: Vec<(String, String, u32)>)
    ensures
        Seq::new(r@.len(), |i: int| (r@[i].0@, r@[i].1@, r@[i].2)) == gen_rows(text@),
{
    let buf = chars_of(text);
    let lines = line_ranges(&buf);
    let ghost ls = lines_from(buf@, 0);
    let mut rows: Vec<(String, String, u32)> = Vec::new();
    let mut k: usize = 0;
    while k < lines.len()
        invariant
            ls == lines_from(buf@, 0),
            ranges_view(buf@, lines@) == ls,
            ranges_within(lines@, 0, buf@.len() as int),
            k <= lines@.len(),
            Seq::new(rows@.len(), |i: int| (rows@[i].0@, rows@[i].1@, rows@[i].2))
                == gen_rows_upto(ls, k as int),
        decreases lines@.len() - k,
    {
        let lr = lines[k];
        let ghost line = ls[k as int];
        assert(line == buf@.subrange(lr.0 as int, lr.1 as int));
        if is_data_line(&buf, lr, k) {
            let cols = split_ranges(&buf, lr.0, lr.1, ',', 3);
            if cols.len() >= 3 {
                assert(ranges_view(buf@, cols@)[0] == buf@.subrange(cols@[0].0 as int, cols@[0].1 as int));
                assert(ranges_view(buf@, cols@)[1] == buf@.subrange(cols@[1].0 as int, cols@[1].1 as int));
                assert(ranges_view(buf@, cols@)[2] == buf@.subrange(cols@[2].0 as int, cols@[2].1 as int));
                let item_id = trimmed_string_in(&buf, cols[0].0, cols[0].1);
                let gen_id = trimmed_string_in(&buf, cols[1].0, cols[1].1);
                let weight = number_in(&buf, cols[2].0, cols[2].1, u32::MAX as u64, 0) as u32;
                let ghost before = Seq::new(rows@.len(), |i: int| (rows@[i].0@, rows@[i].1@, rows@[i].2));
                rows.push((item_id, gen_id, weight));
                assert(Seq::new(rows@.len(), |i: int| (rows@[i].0@, rows@[i].1@, rows@[i].2)) =~= before.push(
                    gen_line(line)->Some_0,
                ));
            }
        }
        k = k + 1;
    }
    rows
}

/// The outputs of generator `id` among `rows`, in table order.
fn options_of(rows: &Vec<(String, String, u32)>, id: &String) -> (r: Vec<GenerationOption>)
    ensures
        options_view(r@) == options_for(
            Seq::new(rows@.len(), |i: int| (rows@[i].0@, rows@[i].1@, rows@[i].2)),
            id@,
            rows@.len() as int,
        ),
{
    let ghost rv = Seq::new(rows@.len(), |i: int| (rows@[i].0@, rows@[i].1@, rows@[i].2));
    let mut out: Vec<GenerationOption> = Vec::new();
    let mut i: usize = 0;
    while i < rows.len()
        invariant
            rv == Seq::new(rows@.len(), |i: int| (rows@[i].0@, rows@[i].1@, rows@[i].2)),
            i <= rows@.len(),
            options_view(out@) == options_for(rv, id@, i as int),
        decreases rows@.len() - i,
    {
        if rows[i].0 == *id {
            let ghost before = options_view(out@);
            out.push(GenerationOption { item_id: rows[i].1.clone(), weight: rows[i].2 });
            assert(options_view(out@) =~= before.push((rv[i as int].1, rv[i as int].2)));
        }
        i = i + 1;
    }
    out
}

/// Reads the item definitions from the item table and attaches to each
/// item its outputs from the generator table (see `generates_of`).
pub fn load_items(items_csv: &str, generates_csv: &str) -> (r: Vec<ItemDef>)
    requires
        chains_known(items_csv@),
    ensures
        r@.len() == item_lines(items_csv@).len(),
        forall|k: int|
            0 <= k < r@.len() ==> item_from(
                #[trigger] r@[k],
                item_lines(items_csv@)[k],
                generates_of(item_lines(items_csv@), k, gen_rows(generates_csv@)),
            ),
{
    let rows = read_gen_rows(generates_csv);
    let ghost rv = gen_rows(generates_csv@);
    let buf = chars_of(items_csv);
    let lines = line_ranges(&buf);
    let ghost ls = lines_from(buf@, 0);
    let ghost all = item_lines(items_csv@);
    let mut items: Vec<ItemDef> = Vec::new();
    let mut seen: Vec<String> = Vec::new();
    let mut k: usize = 0;
    while k < lines.len()
        invariant
            ls == lines_from(buf@, 0),
            buf@ == items_csv@,
            all == item_lines(items_csv@),
            chains_known(items_csv@),
            rv == Seq::new(rows@.len(), |i: int| (rows@[i].0@, rows@[i].1@, rows@[i].2)),
            ranges_view(buf@, lines@) == ls,
            ranges_within(lines@, 0, buf@.len() as int),
            k <= lines@.len(),
            items@.len() == item_lines_upto(ls, k as int).len(),
            seen@.len() == items@.len(),
            forall|j: int| 0 <= j < seen@.len() ==> (#[trigger] seen@[j])@ == trim(item_lines_upto(ls, k as int)[j][0]),
            forall|j: int|
                0 <= j < items@.len() ==> item_from(
                    #[trigger] items@[j],
                    item_lines_upto(ls, k as int)[j],
                    generates_of(item_lines_upto(ls, k as int), j, rv),
                ),
        decreases lines@.len() - k,
    {
        proof {
            lemma_item_lines_prefix(ls, k as int + 1, ls.len() as int);
        }
        let lr = lines[k];
        let ghost line = ls[k as int];
        assert(line == buf@.subrange(lr.0 as int, lr.1 as int));
        let ghost prev = item_lines_upto(ls, k as int);
        if is_data_line(&buf, lr, k) {
            let cols = split_ranges(&buf, lr.0, lr.1, ',', ITEMS_CSV_COLUMNS);
            if cols.len() >= ITEMS_CSV_COLUMNS {
                let ghost cv = ranges_view(buf@, cols@);
                let ghost cur = prev.push(cv);
                assert(item_lines_upto(ls, k + 1) == cur);
                assert forall|f: int| 0 <= f < ITEMS_CSV_COLUMNS implies #[trigger] cv[f]
                    == buf@.subrange(cols@[f].0 as int, cols@[f].1 as int) by {}
                assert(item_lines_upto(ls, k + 1)[prev.len() as int] == cv);
                assert(ls.len() == lines@.len());
                assert(all == item_lines_upto(ls, ls.len() as int));
                assert(all[prev.len() as int] == cv);
                assert(chain_of(trim(cv[1])) is Some);
                let id = trimmed_string_in(&buf, cols[0].0, cols[0].1);
                let (ca, cb) = trim_range(&buf, cols[1].0, cols[1].1);
                let chain = match chain_in(&buf, ca, cb) {
                    Some(c) => c,
                    None => ChainType::Poultry,
                };
                let already = contains_string(&seen, &id);
                let generates = if already {
                    Vec::new()
                } else {
                    options_of(&rows, &id)
                };
                let def = ItemDef {
                    id,
                    chain,
                    level: number_in(&buf, cols[2].0, cols[2].1, u32::MAX as u64, 1) as u32,
                    name: trimmed_string_in(&buf, cols[3].0, cols[3].1),
                    icon_path: opt_str_in(&buf, cols[4].0, cols[4].1),
                    is_generator: bool_in(&buf, cols[5].0, cols[5].1),
                    is_auto_generator: bool_in(&buf, cols[6].0, cols[6].1),
                    generates,
                    generates_id: opt_str_in(&buf, cols[7].0, cols[7].1),
                    auto_gen_interval_ms: interval_in(&buf, cols[8].0, cols[8].1),
                    merge_result_id: opt_str_in(&buf, cols[9].0, cols[9].1),
                    bg_color: (
                        trimmed_string_in(&buf, cols[10].0, cols[10].1),
                        trimmed_string_in(&buf, cols[11].0, cols[11].1),
                        trimmed_string_in(&buf, cols[12].0, cols[12].1),
                    ),
                    generates_count: number_in(&buf, cols[13].0, cols[13].1, u32::MAX as u64, 1)
                        as u32,
                    consumes_on_generate: bool_in(&buf, cols[14].0, cols[14].1),
                    max_generate_count: number_in(&buf, cols[15].0, cols[15].1, u32::MAX as u64, 0)
                        as u32,
                };
                proof {
                    let kk = prev.len() as int;
                    assert(already == exists|j: int|
                        0 <= j < kk && trim(#[trigger] cur[j][0]) == trim(cur[kk][0])) by {
                        if already {
                            let j = choose|j: int| 0 <= j < seen@.len() && seen@[j]@ == def.id@;
                            assert(cur[j] == prev[j]);
                        } else {
                            assert forall|j: int| 0 <= j < kk implies trim(#[trigger] cur[j][0])
                                != trim(cur[kk][0]) by {
                                assert(cur[j] == prev[j]);
                                assert(seen@[j]@ == trim(prev[j][0]));
                            }
                        }
                    }
                    assert(def.id@ == trim(cv[0]));
                    assert(Some(def.chain) == chain_of(trim(cv[1])));
                    assert(def.level == number_or(cv[2], u32::MAX as int, 1));
                    assert(def.name@ == trim(cv[3]));
                    assert(opt_str_view(def.icon_path) == spec_parse_opt_str(cv[4]));
                    assert(def.auto_gen_interval_ms == interval_ms_or_zero(cv[8]));
                    assert(def.generates_count == number_or(cv[13], u32::MAX as int, 1));
                    assert(options_view(def.generates@) == generates_of(cur, kk, rv));
                    assert(item_from(def, cv, generates_of(cur, kk, rv)));
                }
                let id_copy = def.id.clone();
                items.push(def);
                seen.push(id_copy);
                proof {
                    let kk = prev.len() as int;
                    assert forall|j: int| 0 <= j < items@.len() implies item_from(
                        #[trigger] items@[j],
                        cur[j],
                        generates_of(cur, j, rv),
                    ) by {
                        if j < kk {
                            assert(cur[j] == prev[j]);
                            assert(generates_of(cur, j, rv) == generates_of(prev, j, rv)) by {
                                if exists|i: int| 0 <= i < j && trim(#[trigger] cur[i][0]) == trim(cur[j][0]) {
                                    let i = choose|i: int| 0 <= i < j && trim(#[trigger] cur[i][0]) == trim(cur[j][0]);
                                    assert(cur[i] == prev[i]);
                                }
                                if exists|i: int| 0 <= i < j && trim(#[trigger] prev[i][0]) == trim(prev[j][0]) {
                                    let i = choose|i: int| 0 <= i < j && trim(#[trigger] prev[i][0]) == trim(prev[j][0]);
                                    assert(cur[i] == prev[i]);
                                }
                            }
                        }
                    }
                    assert forall|j: int| 0 <= j < seen@.len() implies (#[trigger] seen@[j])@ == trim(
                        cur[j][0],
                    ) by {
                        if j < kk {
                            assert(cur[j] == prev[j]);
                        }
                    }
                }
            }
        }
        k = k + 1;
    }
    proof {
        assert(item_lines_upto(ls, k as int) == all);
    }
    items
}

/// The item lines among the first `m` lines are a prefix of those among
/// the first `n`.
proof fn lemma_item_lines_prefix(lines: Seq<Seq<char>>, m: int, n: int)
    requires
        0 <= m <= n,
    ensures
        item_lines_upto(lines, m).len() <= item_lines_upto(lines, n).len(),
        forall|j: int|
            0 <= j < item_lines_upto(lines, m).len() ==> #[trigger] item_lines_upto(lines, m)[j]
                == item_lines_upto(lines, n)[j],
    decreases n - m,
{
    if m < n {
        lemma_item_lines_prefix(lines, m, n - 1);
    }
}

/// Whether `v` holds a string equal to `x`.
fn contains_string(v: &Vec<String>, x: &String) -> (r: bool)
    ensures
        r == exists|j: int| 0 <= j < v@.len() && (#[trigger] v@[j])@ == x@,
{
    let mut i: usize = 0;
    while i < v.len()
        invariant
            i <= v@.len(),
            forall|j: int| 0 <= j < i ==> (#[trigger] v@[j])@ != x@,
        decreases v@.len() - i,
    {
        if v[i] == *x {
            return true;
        }
        i = i + 1;
    }
    false
}


/// Whether every item line of an item table names a known chain.
pub fn check_item_chains(items_csv: &str) -> (r: bool)
    ensures
        r == chains_known(items_csv@),
{
    let buf = chars_of(items_csv);
    let lines = line_ranges(&buf);
    let ghost ls = lines_from(buf@, 0);
    let ghost all = item_lines(items_csv@);
    let mut k: usize = 0;
    let ghost mut n: int = 0;
    while k < lines.len()
        invariant
            ls == lines_from(buf@, 0),
            buf@ == items_csv@,
            all == item_lines(items_csv@),
            ranges_view(buf@, lines@) == ls,
            ranges_within(lines@, 0, buf@.len() as int),
            k <= lines@.len(),
            n == item_lines_upto(ls, k as int).len(),
            forall|j: int|
                0 <= j < n ==> chain_of(trim(#[trigger] item_lines_upto(ls, k as int)[j][1])) is Some,
        decreases lines@.len() - k,
    {
        proof {
            lemma_item_lines_prefix(ls, k as int + 1, ls.len() as int);
        }
        let lr = lines[k];
        let ghost line = ls[k as int];
        assert(line == buf@.subrange(lr.0 as int, lr.1 as int));
        let ghost prev = item_lines_upto(ls, k as int);
        if is_data_line(&buf, lr, k) {
            let cols = split_ranges(&buf, lr.0, lr.1, ',', ITEMS_CSV_COLUMNS);
            if cols.len() >= ITEMS_CSV_COLUMNS {
                let ghost cv = ranges_view(buf@, cols@);
                let ghost cur = prev.push(cv);
                assert(item_lines_upto(ls, k + 1) == cur);
                assert(cv[1] == buf@.subrange(cols@[1].0 as int, cols@[1].1 as int));
                let (ca, cb) = trim_range(&buf, cols[1].0, cols[1].1);
                if chain_in(&buf, ca, cb).is_none() {
                    assert(item_lines_upto(ls, k + 1)[prev.len() as int] == cv);
                    assert(all == item_lines_upto(ls, ls.len() as int));
                    assert(all[prev.len() as int] == cv);
                    return false;
                }
                assert forall|j: int| 0 <= j < n + 1 implies chain_of(
                    trim(#[trigger] cur[j][1]),
                ) is Some by {
                    if j < n {
                        assert(cur[j] == prev[j]);
                    }
                }
                proof {
                    n = n + 1;
                }
            }
        }
        k = k + 1;
    }
    assert(item_lines_upto(ls, k as int) == all);
    true
}

} // verus!
