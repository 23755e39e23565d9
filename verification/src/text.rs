//! Byte-level text primitives shared by the importer and the exporter:
//! hexadecimal digits, splitting on a separator byte, and trimming
//! whitespace from both ends of a line.
//!
//! All of it works on the UTF-8 bytes of the text, so token lengths and
//! separator positions mean exactly what they mean in the byte string.

use vstd::prelude::*;

verus! {

/// The line separator: the importer cuts its input at every line feed.
pub const LF: u8 = 0x0a;

/// The word separator: each line is cut at every space.
pub const SP: u8 = 0x20;

// ---------- hexadecimal digits ----------

/// ASCII hexadecimal digits, upper or lower case.
pub open spec fn is_hex_digit(b: u8) -> bool {
    (0x30 <= b && b <= 0x39) || (0x41 <= b && b <= 0x46) || (0x61 <= b && b <= 0x66)
}

/// The numeric value of an ASCII hexadecimal digit.
pub open spec fn hex_value(b: u8) -> u8
    recommends
        is_hex_digit(b),
{
    if 0x30 <= b && b <= 0x39 {
        (b - 0x30) as u8
    } else if 0x41 <= b && b <= 0x46 {
        (b - 0x37) as u8
    } else {
        (b - 0x57) as u8
    }
}

/// Looks up the value of a hexadecimal digit; `None` for any other byte.
pub fn hex_digit_value(b: u8) -> (r: Option<u8>)
    ensures
        r is Some <==> is_hex_digit(b),
        is_hex_digit(b) ==> r == Some(hex_value(b)),
{
    if 0x30 <= b && b <= 0x39 {
        Some(b - 0x30)
    } else if 0x41 <= b && b <= 0x46 {
        Some(b - 0x37)
    } else if 0x61 <= b && b <= 0x66 {
        Some(b - 0x57)
    } else {
        None
    }
}

// ---------- splitting on a separator ----------

/// True when the byte `b` occurs somewhere in `s`.
pub open spec fn has_byte(s: Seq<u8>, b: u8) -> bool {
    exists|i: int| 0 <= i < s.len() && s[i] == b
}

/// The pieces of `s` between occurrences of `sep`, in order. Splitting an
/// empty sequence yields one empty piece; a separator at either end or two
/// adjacent separators yield empty pieces, as `str::split` does.
pub open spec fn seq_split(s: Seq<u8>, sep: u8) -> Seq<Seq<u8>>
    decreases s.len(),
{
    if s.len() == 0 {
        seq![Seq::<u8>::empty()]
    } else if s[0] == sep {
        seq![Seq::<u8>::empty()] + seq_split(s.drop_first(), sep)
    } else {
        let rest = seq_split(s.drop_first(), sep);
        seq![seq![s[0]] + rest[0]] + rest.drop_first()
    }
}

pub proof fn lemma_seq_split_len(s: Seq<u8>, sep: u8)
    ensures
        seq_split(s, sep).len() >= 1,
    decreases s.len(),
{
    if s.len() == 0 {
    } else if s[0] == sep {
    } else {
        lemma_seq_split_len(s.drop_first(), sep);
    }
}

/// A sequence free of the separator splits into just itself.
pub proof fn lemma_seq_split_no_sep(s: Seq<u8>, sep: u8)
    requires
        !has_byte(s, sep),
    ensures
        seq_split(s, sep) == seq![s],
    decreases s.len(),
{
    if s.len() == 0 {
        assert(s =~= Seq::<u8>::empty());
        assert(seq_split(s, sep) =~~= seq![s]);
    } else {
        assert(s[0] != sep);
        assert(forall|i: int| 0 <= i < s.drop_first().len() ==> s.drop_first()[i] == s[i + 1]);
        lemma_seq_split_no_sep(s.drop_first(), sep);
        assert(seq![s[0]] + s.drop_first() =~= s);
        assert(seq_split(s, sep) =~~= seq![s]);
    }
}

/// Splitting a text of the shape `a sep b`, where `a` is separator-free,
/// yields `a` followed by the pieces of `b`.
pub proof fn lemma_seq_split_concat(a: Seq<u8>, b: Seq<u8>, sep: u8)
    requires
        !has_byte(a, sep),
    ensures
        seq_split(a + seq![sep] + b, sep) == seq![a] + seq_split(b, sep),
    decreases a.len(),
{
    let s = a + seq![sep] + b;
    if a.len() == 0 {
        assert(s =~= seq![sep] + b);
        assert(s[0] == sep);
        assert(s.drop_first() =~= b);
        assert(seq_split(s, sep) =~~= seq![a] + seq_split(b, sep));
    } else {
        assert(s[0] == a[0]);
        assert(s[0] != sep);
        assert(forall|i: int| 0 <= i < a.drop_first().len() ==> a.drop_first()[i] == a[i + 1]);
        lemma_seq_split_concat(a.drop_first(), b, sep);
        assert(s.drop_first() =~= a.drop_first() + seq![sep] + b);
        let rest = seq_split(s.drop_first(), sep);
        lemma_seq_split_len(b, sep);
        assert(rest == seq![a.drop_first()] + seq_split(b, sep));
        assert(rest[0] == a.drop_first());
        assert(seq![s[0]] + rest[0] =~= a);
        assert(rest.drop_first() =~= seq_split(b, sep));
        assert(seq_split(s, sep) =~~= seq![a] + seq_split(b, sep));
    }
}

/// Cuts a byte string at every occurrence of `sep`.
pub fn split_bytes(s: &[u8], sep: u8) -> (r: Vec<Vec<u8>>)
    ensures
        r.deep_view() == seq_split(s@, sep),
{
    let mut r: Vec<Vec<u8>> = Vec::new();
    let mut cur: Vec<u8> = Vec::new();
    let n = s.len();
    let mut i: usize = 0;
    proof {
        lemma_seq_split_len(s@, sep);
        assert(s@.skip(0) =~= s@);
        assert(seq_split(s@, sep) =~~= r.deep_view() + seq![cur@ + seq_split(s@.skip(0), sep)[0]]
            + seq_split(s@.skip(0), sep).drop_first());
    }
    while i < n
        invariant
            i <= n,
            n == s@.len(),
            seq_split(s@, sep) == r.deep_view() + seq![cur@ + seq_split(s@.skip(i as int), sep)[0]]
                + seq_split(s@.skip(i as int), sep).drop_first(),
        decreases n - i,
    {
        let ghost tail = s@.skip(i as int);
        proof {
            assert(tail.len() > 0);
            assert(tail[0] == s@[i as int]);
            assert(tail.drop_first() =~= s@.skip(i as int + 1));
            lemma_seq_split_len(s@.skip(i as int + 1), sep);
        }
        if s[i] == sep {
            let ghost old_r = r.deep_view();
            let ghost old_cur = cur@;
            r.push(cur);
            cur = Vec::new();
            proof {
                assert(r.deep_view() =~~= old_r + seq![old_cur]);
                let next = seq_split(s@.skip(i as int + 1), sep);
                assert(seq_split(tail, sep) == seq![Seq::<u8>::empty()] + next);
                assert(old_cur + seq_split(tail, sep)[0] =~= old_cur);
                assert(seq_split(tail, sep).drop_first() =~= next);
                assert(old_r + seq![old_cur + seq_split(tail, sep)[0]]
                    + seq_split(tail, sep).drop_first() =~~= r.deep_view() + seq![cur@ + next[0]]
                    + next.drop_first());
            }
        } else {
            let ghost old_cur = cur@;
            cur.push(s[i]);
            proof {
                let next = seq_split(s@.skip(i as int + 1), sep);
                assert(seq_split(tail, sep) == seq![seq![tail[0]] + next[0]]
                    + next.drop_first());
                assert(cur@ + next[0] =~= old_cur + seq_split(tail, sep)[0]);
                assert(r.deep_view() + seq![old_cur + seq_split(tail, sep)[0]]
                    + seq_split(tail, sep).drop_first() =~~= r.deep_view() + seq![cur@ + next[0]]
                    + next.drop_first());
            }
        }
        i += 1;
    }
    let ghost old_r = r.deep_view();
    let ghost last = cur@;
    r.push(cur);
    proof {
        assert(s@.skip(n as int) =~= Seq::<u8>::empty());
        let tail_split = seq_split(s@.skip(n as int), sep);
        assert(tail_split == seq![Seq::<u8>::empty()]);
        assert(last + tail_split[0] =~= last);
        assert(tail_split.drop_first() =~= Seq::<Seq<u8>>::empty());
        assert(r.deep_view() =~~= old_r + seq![last]);
        assert(r.deep_view() =~~= seq_split(s@, sep));
    }
    r
}

// ---------- whitespace and trimming ----------

/// The single-byte whitespace characters: tab, line feed, vertical tab,
/// form feed, carriage return and space.
pub open spec fn is_ws1(b: u8) -> bool {
    b == 0x09 || b == 0x0a || b == 0x0b || b == 0x0c || b == 0x0d || b == 0x20
}

/// The two-byte UTF-8 whitespace characters: next line (U+0085) and
/// no-break space (U+00A0).
pub open spec fn is_ws2(b0: u8, b1: u8) -> bool {
    b0 == 0xc2 && (b1 == 0x85 || b1 == 0xa0)
}

/// The three-byte UTF-8 whitespace characters: ogham space mark (U+1680),
/// the typographic spaces U+2000 through U+200A, line and paragraph
/// separators (U+2028, U+2029), narrow no-break space (U+202F), medium
/// mathematical space (U+205F) and ideographic space (U+3000).
pub open spec fn is_ws3(b0: u8, b1: u8, b2: u8) -> bool {
    (b0 == 0xe1 && b1 == 0x9a && b2 == 0x80) || (b0 == 0xe2 && b1 == 0x80 && ((0x80 <= b2 && b2
        <= 0x8a) || b2 == 0xa8 || b2 == 0xa9 || b2 == 0xaf)) || (b0 == 0xe2 && b1 == 0x81 && b2
        == 0x9f) || (b0 == 0xe3 && b1 == 0x80 && b2 == 0x80)
}

/// The length of the whitespace character that `s` starts with, in bytes;
/// zero when `s` starts with anything else.
pub open spec fn ws_prefix_len(s: Seq<u8>) -> int {
    if s.len() >= 1 && is_ws1(s[0]) {
        1
    } else if s.len() >= 2 && is_ws2(s[0], s[1]) {
        2
    } else if s.len() >= 3 && is_ws3(s[0], s[1], s[2]) {
        3
    } else {
        0
    }
}

/// The length of the whitespace character that `s` ends with, in bytes;
/// zero when `s` ends with anything else.
pub open spec fn ws_suffix_len(s: Seq<u8>) -> int {
    let n = s.len() as int;
    if n >= 1 && is_ws1(s[n - 1]) {
        1
    } else if n >= 2 && is_ws2(s[n - 2], s[n - 1]) {
        2
    } else if n >= 3 && is_ws3(s[n - 3], s[n - 2], s[n - 1]) {
        3
    } else {
        0
    }
}

/// `s` without its leading whitespace.
pub open spec fn trim_start(s: Seq<u8>) -> Seq<u8>
    decreases s.len(),
{
    let k = ws_prefix_len(s);
    if k > 0 {
        trim_start(s.skip(k))
    } else {
        s
    }
}

/// `s` without its trailing whitespace.
pub open spec fn trim_end(s: Seq<u8>) -> Seq<u8>
    decreases s.len(),
{
    let k = ws_suffix_len(s);
    if k > 0 {
        trim_end(s.take(s.len() - k))
    } else {
        s
    }
}

/// `s` without leading and trailing whitespace.
pub open spec fn trim(s: Seq<u8>) -> Seq<u8> {
    trim_end(trim_start(s))
}

fn is_ws1_at(s: &Vec<u8>, i: usize) -> (r: bool)
    requires
        i < s@.len(),
    ensures
        r == is_ws1(s@[i as int]),
{
    let b = s[i];
    b == 0x09 || b == 0x0a || b == 0x0b || b == 0x0c || b == 0x0d || b == 0x20
}

/// The length of the whitespace character at the start of `s[lo..hi]`.
fn ws_prefix_at(s: &Vec<u8>, lo: usize, hi: usize) -> (k: usize)
    requires
        lo <= hi <= s@.len(),
    ensures
        k == ws_prefix_len(s@.subrange(lo as int, hi as int)),
        lo + k <= hi,
{
    let ghost sub = s@.subrange(lo as int, hi as int);
    let n = hi - lo;
    if n >= 1 && is_ws1_at(s, lo) {
        1
    } else if n >= 2 && s[lo] == 0xc2 && (s[lo + 1] == 0x85 || s[lo + 1] == 0xa0) {
        proof {
            assert(sub[0] == s@[lo as int]);
            assert(sub[1] == s@[lo as int + 1]);
        }
        2
    } else if n >= 3 && ((s[lo] == 0xe1 && s[lo + 1] == 0x9a && s[lo + 2] == 0x80) || (s[lo]
        == 0xe2 && s[lo + 1] == 0x80 && ((0x80 <= s[lo + 2] && s[lo + 2] <= 0x8a) || s[lo + 2]
        == 0xa8 || s[lo + 2] == 0xa9 || s[lo + 2] == 0xaf)) || (s[lo] == 0xe2 && s[lo + 1] == 0x81
        && s[lo + 2] == 0x9f) || (s[lo] == 0xe3 && s[lo + 1] == 0x80 && s[lo + 2] == 0x80)) {
        3
    } else {
        0
    }
}

/// The length of the whitespace character at the end of `s[lo..hi]`.
fn ws_suffix_at(s: &Vec<u8>, lo: usize, hi: usize) -> (k: usize)
    requires
        lo <= hi <= s@.len(),
    ensures
        k == ws_suffix_len(s@.subrange(lo as int, hi as int)),
        lo + k <= hi,
{
    let ghost sub = s@.subrange(lo as int, hi as int);
    let n = hi - lo;
    if n >= 1 && is_ws1_at(s, hi - 1) {
        1
    } else if n >= 2 && s[hi - 2] == 0xc2 && (s[hi - 1] == 0x85 || s[hi - 1] == 0xa0) {
        2
    } else if n >= 3 && ((s[hi - 3] == 0xe1 && s[hi - 2] == 0x9a && s[hi - 1] == 0x80) || (s[hi
        - 3] == 0xe2 && s[hi - 2] == 0x80 && ((0x80 <= s[hi - 1] && s[hi - 1] <= 0x8a) || s[hi - 1]
        == 0xa8 || s[hi - 1] == 0xa9 || s[hi - 1] == 0xaf)) || (s[hi - 3] == 0xe2 && s[hi - 2]
        == 0x81 && s[hi - 1] == 0x9f) || (s[hi - 3] == 0xe3 && s[hi - 2] == 0x80 && s[hi - 1]
        == 0x80)) {
        3
    } else {
        0
    }
}

/// Removes leading and trailing whitespace from a line.
pub fn trim_bytes(line: &Vec<u8>) -> (r: Vec<u8>)
    ensures
        r@ == trim(line@),
{
    let mut lo: usize = 0;
    let mut hi: usize = line.len();
    proof {
        assert(line@.subrange(0, line@.len() as int) =~= line@);
    }
    let mut k: usize = ws_prefix_at(line, lo, hi);
    while k > 0
        invariant
            lo <= hi <= line@.len(),
            k == ws_prefix_len(line@.subrange(lo as int, hi as int)),
            lo + k <= hi,
            trim_start(line@) == trim_start(line@.subrange(lo as int, hi as int)),
        decreases hi - lo,
    {
        let ghost sub = line@.subrange(lo as int, hi as int);
        lo += k;
        proof {
            assert(sub.skip(k as int) =~= line@.subrange(lo as int, hi as int));
        }
        k = ws_prefix_at(line, lo, hi);
    }
    proof {
        assert(trim_start(line@) == line@.subrange(lo as int, hi as int));
    }
    let mut k2: usize = ws_suffix_at(line, lo, hi);
    while k2 > 0
        invariant
            lo <= hi <= line@.len(),
            k2 == ws_suffix_len(line@.subrange(lo as int, hi as int)),
            lo + k2 <= hi,
            trim(line@) == trim_end(line@.subrange(lo as int, hi as int)),
        decreases hi - lo,
    {
        let ghost sub = line@.subrange(lo as int, hi as int);
        hi -= k2;
        proof {
            assert(sub.take(sub.len() - k2 as int) =~= line@.subrange(lo as int, hi as int));
        }
        k2 = ws_suffix_at(line, lo, hi);
    }
    proof {
        assert(trim(line@) == line@.subrange(lo as int, hi as int));
    }
    let mut r: Vec<u8> = Vec::new();
    let mut j: usize = lo;
    while j < hi
        invariant
            lo <= j <= hi <= line@.len(),
            r@ == line@.subrange(lo as int, j as int),
        decreases hi - j,
    {
        r.push(line[j]);
        j += 1;
        proof {
            assert(line@.subrange(lo as int, j as int) =~= line@.subrange(
                lo as int,
                j as int - 1,
            ).push(line@[j as int - 1]));
        }
    }
    r
}

} // verus!
