//! Character-level helpers shared by the configuration loaders and the
//! item lookup: string equality and string building.
use vstd::prelude::*;

verus! {

/// `String::push` appends one character at the end of the string.
pub assume_specification[ String::push ](s: &mut String, ch: char)
    ensures
        final(s)@ == old(s)@.push(ch),
;

/// Compares two string slices character by character.
pub fn str_eq(a: &str, b: &str) -> (r: bool)
    ensures
        r == (a@ == b@),
{
    let la = a.unicode_len();
    let lb = b.unicode_len();
    if la != lb {
        return false;
    }
    let mut i: usize = 0;
    while i < la
        invariant
            la == a@.len(),
            lb == b@.len(),
            la == lb,
            i <= la,
            forall|k: int| 0 <= k < i ==> a@[k] == b@[k],
        decreases la - i,
    {
        if a.get_char(i) != b.get_char(i) {
            return false;
        }
        i = i + 1;
    }
    assert(a@ =~= b@);
    true
}

/// Builds a `String` holding the characters `chars[lo..hi]`.
pub fn string_of(chars: &Vec<char>, lo: usize, hi: usize) -> (r: String)
    requires
        lo <= hi <= chars.len(),
    ensures
        r@ == chars@.subrange(lo as int, hi as int),
{
    let mut r = String::new();
    let mut i = lo;
    while i < hi
        invariant
            lo <= i <= hi <= chars.len(),
            r@ == chars@.subrange(lo as int, i as int),
        decreases hi - i,
    {
        r.push(chars[i]);
        assert(r@ =~= chars@.subrange(lo as int, i + 1));
        i = i + 1;
    }
    r
}

/// Collects the characters of a string slice.
pub fn chars_of(s: &str) -> (v: Vec<char>)
    ensures
        v@ == s@,
{
    let n = s.unicode_len();
    let mut v: Vec<char> = Vec::new();
    for c in it: s.chars()
        invariant
            it.seq() == s@,
            v@ == it.seq().take(it.index()),
    {
        v.push(c);
    }
    v
}


/// Whether `c` is a white-space character (the Unicode `White_Space` set).
pub open spec fn is_ws(c: char) -> bool {
    ||| c == '\t'
    ||| c == '\n'
    ||| c == '\u{0B}'
    ||| c == '\u{0C}'
    ||| c == '\r'
    ||| c == ' '
    ||| c == '\u{85}'
    ||| c == '\u{A0}'
    ||| c == '\u{1680}'
    ||| ('\u{2000}' <= c && c <= '\u{200A}')
    ||| c == '\u{2028}'
    ||| c == '\u{2029}'
    ||| c == '\u{202F}'
    ||| c == '\u{205F}'
    ||| c == '\u{3000}'
}

/// Whether `c` is a white-space character.
pub fn is_whitespace(c: char) -> (r: bool)
    ensures
        r == is_ws(c),
{
    c == '\t' || c == '\n' || c == '\u{0B}' || c == '\u{0C}' || c == '\r' || c == ' ' || c
        == '\u{85}' || c == '\u{A0}' || c == '\u{1680}' || ('\u{2000}' <= c && c <= '\u{200A}')
        || c == '\u{2028}' || c == '\u{2029}' || c == '\u{202F}' || c == '\u{205F}' || c
        == '\u{3000}'
}

/// Start of `s` after its leading white space, scanning from `i`.
pub open spec fn trim_lo(s: Seq<char>, i: int) -> int
    decreases s.len() - i,
{
    if i < 0 || i >= s.len() {
        s.len() as int
    } else if is_ws(s[i]) {
        trim_lo(s, i + 1)
    } else {
        i
    }
}

/// End of `s[..j]` before its trailing white space.
pub open spec fn trim_hi(s: Seq<char>, j: int) -> int
    decreases j,
{
    if j <= 0 || j > s.len() {
        0
    } else if is_ws(s[j - 1]) {
        trim_hi(s, j - 1)
    } else {
        j
    }
}

/// `s` without leading and trailing white space.
pub open spec fn trim(s: Seq<char>) -> Seq<char> {
    let lo = trim_lo(s, 0);
    let hi = trim_hi(s, s.len() as int);
    if lo < hi {
        s.subrange(lo, hi)
    } else {
        Seq::empty()
    }
}

/// Position of the first `c` at or after `i` in `s`, or `s.len()`.
pub open spec fn find_char(s: Seq<char>, c: char, i: int) -> int
    decreases s.len() - i,
{
    if i < 0 || i >= s.len() {
        s.len() as int
    } else if s[i] == c {
        i
    } else {
        find_char(s, c, i + 1)
    }
}

/// The pieces of `s[i..]` separated by `c`, at most `n` of them (the last
/// piece keeps the rest of the text), as `str::splitn` gives them.
pub open spec fn splitn_from(s: Seq<char>, c: char, i: int, n: int) -> Seq<Seq<char>>
    decreases n,
{
    if n <= 0 || i < 0 || i > s.len() {
        Seq::empty()
    } else if n == 1 || find_char(s, c, i) >= s.len() {
        seq![s.subrange(i, s.len() as int)]
    } else {
        seq![s.subrange(i, find_char(s, c, i))] + splitn_from(s, c, find_char(s, c, i) + 1, n - 1)
    }
}

/// All the pieces of `s` separated by `c`, as `str::split` gives them.
pub open spec fn split_all(s: Seq<char>, c: char) -> Seq<Seq<char>> {
    splitn_from(s, c, 0, s.len() as int + 1)
}

/// Allowing more pieces than `s[i..]` can have changes nothing.
pub proof fn lemma_splitn_enough(s: Seq<char>, c: char, i: int, n: int, m: int)
    requires
        0 <= i <= s.len(),
        n >= s.len() - i + 1,
        m >= s.len() - i + 1,
    ensures
        splitn_from(s, c, i, n) == splitn_from(s, c, i, m),
    decreases n,
{
    lemma_find_char(s, c, i);
    if find_char(s, c, i) < s.len() {
        lemma_splitn_enough(s, c, find_char(s, c, i) + 1, n - 1, m - 1);
    }
}

/// `s` without a final carriage return.
pub open spec fn strip_cr(s: Seq<char>) -> Seq<char> {
    if s.len() > 0 && s.last() == '\r' {
        s.drop_last()
    } else {
        s
    }
}

/// The lines of `s[i..]` as `str::lines` gives them: split at line feeds,
/// a carriage return before a line feed dropped, no line after a final
/// line feed.
pub open spec fn lines_from(s: Seq<char>, i: int) -> Seq<Seq<char>>
    decreases s.len() - i,
{
    if i < 0 || i >= s.len() {
        Seq::empty()
    } else if find_char(s, '\n', i) >= s.len() {
        seq![s.subrange(i, s.len() as int)]
    } else {
        proof {
            lemma_find_char(s, '\n', i);
        }
        seq![strip_cr(s.subrange(i, find_char(s, '\n', i)))] + lines_from(
            s,
            find_char(s, '\n', i) + 1,
        )
    }
}

/// Position of the last `c` in `s`, or -1.
pub open spec fn rfind_char(s: Seq<char>, c: char) -> int
    decreases s.len(),
{
    if s.len() == 0 {
        -1
    } else if s.last() == c {
        s.len() - 1
    } else {
        rfind_char(s.drop_last(), c)
    }
}

pub proof fn lemma_find_char(s: Seq<char>, c: char, i: int)
    requires
        0 <= i,
    ensures
        i <= find_char(s, c, i) <= s.len() || (i > s.len() && find_char(s, c, i) == s.len()),
        find_char(s, c, i) < s.len() ==> s[find_char(s, c, i)] == c,
        forall|k: int| i <= k < find_char(s, c, i) ==> s[k] != c,
    decreases s.len() - i,
{
    if i < s.len() && s[i] != c {
        lemma_find_char(s, c, i + 1);
    }
}

/// A range `lo..hi` of `buf`, trimmed of white space on both sides.
pub fn trim_range(buf: &Vec<char>, lo: usize, hi: usize) -> (r: (usize, usize))
    requires
        lo <= hi <= buf@.len(),
    ensures
        lo <= r.0 <= r.1 <= hi,
        buf@.subrange(r.0 as int, r.1 as int) == trim(buf@.subrange(lo as int, hi as int)),
{
    let ghost s = buf@.subrange(lo as int, hi as int);
    let mut a = lo;
    while a < hi && is_whitespace(buf[a])
        invariant
            lo <= a <= hi <= buf@.len(),
            s == buf@.subrange(lo as int, hi as int),
            trim_lo(s, 0) == trim_lo(s, a - lo),
        decreases hi - a,
    {
        a = a + 1;
    }
    let mut b = hi;
    while b > a && is_whitespace(buf[b - 1])
        invariant
            lo <= a <= b <= hi <= buf@.len(),
            s == buf@.subrange(lo as int, hi as int),
            a == hi || !is_ws(buf@[a as int]),
            trim_lo(s, 0) == a - lo,
            trim_hi(s, s.len() as int) == trim_hi(s, b - lo),
        decreases b - a,
    {
        b = b - 1;
    }
    proof {
        if a < hi {
            assert(s[a - lo] == buf@[a as int]);
        }
        if b > a {
            assert(s[b - lo - 1] == buf@[b - 1]);
            assert(trim_hi(s, b - lo) == b - lo);
        } else {
            lemma_trim_hi_le(s, b - lo, a - lo);
        }
    }
    if a < b {
        assert(buf@.subrange(a as int, b as int) =~= s.subrange(a - lo, b - lo));
        (a, b)
    } else {
        assert(buf@.subrange(a as int, a as int) =~= Seq::<char>::empty());
        (a, a)
    }
}

/// Below a non-white position `p` (or at the start), trimming the end
/// cannot pass `p`.
proof fn lemma_trim_hi_le(s: Seq<char>, j: int, p: int)
    requires
        0 <= j <= p,
        p <= s.len(),
        p == s.len() || !is_ws(s[p]),
    ensures
        trim_hi(s, j) <= p,
    decreases j,
{
    if j > 0 && is_ws(s[j - 1]) {
        lemma_trim_hi_le(s, j - 1, p);
    }
}


/// The texts of the ranges `r` of `buf`.
pub open spec fn ranges_view(buf: Seq<char>, r: Seq<(usize, usize)>) -> Seq<Seq<char>> {
    Seq::new(r.len(), |k: int| buf.subrange(r[k].0 as int, r[k].1 as int))
}

/// Every range of `r` lies inside `lo..hi` of `buf`.
pub open spec fn ranges_within(r: Seq<(usize, usize)>, lo: int, hi: int) -> bool {
    forall|k: int| 0 <= k < r.len() ==> lo <= (#[trigger] r[k]).0 <= r[k].1 <= hi
}

/// Position of the first `c` in `buf[p..hi]`, or `hi`.
pub fn find_in(buf: &Vec<char>, lo: usize, hi: usize, p: usize, c: char) -> (q: usize)
    requires
        lo <= p <= hi <= buf@.len(),
    ensures
        p <= q <= hi,
        q - lo == find_char(buf@.subrange(lo as int, hi as int), c, p - lo),
{
    let ghost s = buf@.subrange(lo as int, hi as int);
    let mut q = p;
    while q < hi && buf[q] != c
        invariant
            lo <= p <= q <= hi <= buf@.len(),
            s == buf@.subrange(lo as int, hi as int),
            find_char(s, c, p - lo) == find_char(s, c, q - lo),
        decreases hi - q,
    {
        assert(s[q - lo] == buf@[q as int]);
        q = q + 1;
    }
    if q < hi {
        assert(s[q - lo] == buf@[q as int]);
    }
    q
}

/// The pieces of `buf[lo..hi]` separated by `c`, at most `n` of them.
pub fn split_ranges(buf: &Vec<char>, lo: usize, hi: usize, c: char, n: usize) -> (r: Vec<
    (usize, usize),
>)
    requires
        lo <= hi <= buf@.len(),
        n >= 1,
    ensures
        ranges_within(r@, lo as int, hi as int),
        ranges_view(buf@, r@) == splitn_from(buf@.subrange(lo as int, hi as int), c, 0, n as int),
{
    let ghost s = buf@.subrange(lo as int, hi as int);
    let mut out: Vec<(usize, usize)> = Vec::new();
    let mut p = lo;
    let mut left = n;
    let mut done = false;
    while !done
        invariant
            lo <= p <= hi <= buf@.len(),
            s == buf@.subrange(lo as int, hi as int),
            ranges_within(out@, lo as int, hi as int),
            !done ==> left >= 1 && ranges_view(buf@, out@) + splitn_from(s, c, p - lo, left as int)
                == splitn_from(s, c, 0, n as int),
            done ==> ranges_view(buf@, out@) == splitn_from(s, c, 0, n as int),
        decreases hi - p + (if done {
            0int
        } else {
            1int
        }),
    {
        let ghost before = ranges_view(buf@, out@);
        if left <= 1 {
            out.push((p, hi));
            assert(buf@.subrange(p as int, hi as int) =~= s.subrange(p - lo, s.len() as int));
            assert(ranges_view(buf@, out@) =~= before + splitn_from(s, c, p - lo, left as int));
            done = true;
        } else {
            let q = find_in(buf, lo, hi, p, c);
            if q == hi {
                out.push((p, hi));
                assert(buf@.subrange(p as int, hi as int) =~= s.subrange(p - lo, s.len() as int));
                assert(ranges_view(buf@, out@) =~= before + splitn_from(s, c, p - lo, left as int));
                done = true;
            } else {
                out.push((p, q));
                assert(buf@.subrange(p as int, q as int) =~= s.subrange(p - lo, q - lo));
                assert(ranges_view(buf@, out@) =~= before.push(s.subrange(p - lo, q - lo)));
                assert(splitn_from(s, c, p - lo, left as int) == seq![s.subrange(p - lo, q - lo)]
                    + splitn_from(s, c, q + 1 - lo, left - 1));
                assert(ranges_view(buf@, out@) + splitn_from(s, c, q + 1 - lo, left - 1) =~= before
                    + splitn_from(s, c, p - lo, left as int));
                p = q + 1;
                left = left - 1;
            }
        }
    }
    out
}

/// The lines of `buf`, as `str::lines` gives them.
pub fn line_ranges(buf: &Vec<char>) -> (r: Vec<(usize, usize)>)
    ensures
        ranges_within(r@, 0, buf@.len() as int),
        ranges_view(buf@, r@) == lines_from(buf@, 0),
{
    let hi = buf.len();
    let mut out: Vec<(usize, usize)> = Vec::new();
    let mut p: usize = 0;
    assert(buf@.subrange(0, hi as int) =~= buf@);
    while p < hi
        invariant
            p <= hi == buf@.len(),
            ranges_within(out@, 0, hi as int),
            ranges_view(buf@, out@) + lines_from(buf@, p as int) == lines_from(buf@, 0),
        decreases hi - p,
    {
        let ghost before = ranges_view(buf@, out@);
        let q = find_in(buf, 0, hi, p, '\n');
        assert(buf@.subrange(0, hi as int) =~= buf@);
        if q == hi {
            out.push((p, hi));
            assert(ranges_view(buf@, out@) =~= before.push(buf@.subrange(p as int, hi as int)));
            assert(lines_from(buf@, hi as int) =~= Seq::<Seq<char>>::empty());
            assert(ranges_view(buf@, out@) + lines_from(buf@, hi as int) =~= before + lines_from(
                buf@,
                p as int,
            ));
            p = hi;
        } else {
            let end = if q > p && buf[q - 1] == '\r' {
                q - 1
            } else {
                q
            };
            out.push((p, end));
            assert(buf@.subrange(p as int, end as int) =~= strip_cr(buf@.subrange(p as int, q as int)));
            assert(ranges_view(buf@, out@) =~= before.push(strip_cr(buf@.subrange(p as int, q as int))));
            assert(ranges_view(buf@, out@) + lines_from(buf@, q + 1) =~= before + lines_from(
                buf@,
                p as int,
            ));
            p = q + 1;
        }
    }
    assert(lines_from(buf@, p as int) =~= Seq::<Seq<char>>::empty());
    assert(ranges_view(buf@, out@) + lines_from(buf@, p as int) =~= ranges_view(buf@, out@));
    out
}

} // verus!
