//! The importer: reads a hexdump text into the bytes it denotes.
//!
//! Each line is trimmed and cut into space-separated words. A word is then
//! classified by its position and its length: empty words (from runs of
//! spaces) only record that padding was seen; a first word longer than two
//! bytes is an offset column and is skipped; a two-byte word is a hex byte,
//! except that a final two-byte word after padding is a trailing annotation;
//! every other word is a trailing annotation and is ignored. A two-byte word
//! that should be a hex byte but is not fails the whole import.

use vstd::prelude::*;

use crate::text::hex_digit_value;
use crate::text::hex_value;
use crate::text::is_hex_digit;
use crate::text::seq_split;
use crate::text::split_bytes;
use crate::text::trim;
use crate::text::trim_bytes;
use crate::text::LF;
use crate::text::SP;
use vstd::utf8::encode_utf8;

verus! {

/// The byte a two-byte word stands for: two hexadecimal digits, or a plus
/// sign followed by one digit, as `u64::from_str_radix` accepts; `None`
/// for anything else.
pub open spec fn parse_pair(w: Seq<u8>) -> Option<u8>
    recommends
        w.len() == 2,
{
    if is_hex_digit(w[0]) && is_hex_digit(w[1]) {
        Some((hex_value(w[0]) * 16 + hex_value(w[1])) as u8)
    } else if w[0] == 0x2b && is_hex_digit(w[1]) {
        Some(hex_value(w[1]))
    } else {
        None
    }
}

/// The bytes that the words of one line denote, read from position `i`
/// onward with `pad` recording whether padding (a run of spaces) has been
/// seen since the last parsed byte; `None` when a two-byte word fails to
/// parse.
pub open spec fn run_words(ws: Seq<Seq<u8>>, i: int, pad: bool) -> Option<Seq<u8>>
    decreases ws.len() - i,
{
    if i < 0 || i >= ws.len() {
        Some(Seq::<u8>::empty())
    } else {
        let w = ws[i];
        if w.len() == 0 {
            run_words(ws, i + 1, true)
        } else if i == 0 && w.len() > 2 {
            run_words(ws, i + 1, pad)
        } else if w.len() == 2 {
            if i == ws.len() - 1 && pad {
                run_words(ws, i + 1, pad)
            } else {
                match parse_pair(w) {
                    Some(b) => match run_words(ws, i + 1, false) {
                        Some(rest) => Some(seq![b] + rest),
                        None => None,
                    },
                    None => None,
                }
            }
        } else {
            run_words(ws, i + 1, pad)
        }
    }
}

/// The bytes one line denotes: its trimmed text is cut at spaces and the
/// words are classified from the start of the line.
pub open spec fn line_bytes(line: Seq<u8>) -> Option<Seq<u8>> {
    run_words(seq_split(trim(line), SP), 0, false)
}

/// The bytes of the lines from position `i` onward, concatenated in line
/// order; `None` as soon as one line fails.
pub open spec fn lines_bytes(ls: Seq<Seq<u8>>, i: int) -> Option<Seq<u8>>
    decreases ls.len() - i,
{
    if i < 0 || i >= ls.len() {
        Some(Seq::<u8>::empty())
    } else {
        match line_bytes(ls[i]) {
            Some(bs) => match lines_bytes(ls, i + 1) {
                Some(rest) => Some(bs + rest),
                None => None,
            },
            None => None,
        }
    }
}

/// What `import` yields on a text, given as the text's UTF-8 bytes.
pub open spec fn import_spec(d: Seq<u8>) -> Option<Seq<u8>> {
    lines_bytes(seq_split(d, LF), 0)
}

/// The byte a two-byte word stands for, or `None`.
fn parse_pair_word(w: &Vec<u8>) -> (r: Option<u8>)
    requires
        w@.len() == 2,
    ensures
        r == parse_pair(w@),
{
    let d0 = hex_digit_value(w[0]);
    let d1 = hex_digit_value(w[1]);
    match (d0, d1) {
        (Some(hi), Some(lo)) => Some(16 * hi + lo),
        _ => {
            if w[0] == 0x2b {
                match d1 {
                    Some(lo) => Some(lo),
                    None => None,
                }
            } else {
                None
            }
        },
    }
}

/// Parses one line's words, appending the bytes they denote to `buffer`;
/// `false` when the line is malformed (`buffer` is then abandoned).
fn parse_line(words: &Vec<Vec<u8>>, buffer: &mut Vec<u8>) -> (ok: bool)
    ensures
        match run_words(words.deep_view(), 0, false) {
            Some(bs) => ok && final (buffer)@ == old(buffer)@ + bs,
            None => !ok,
        },
{
    let ghost wdv = words.deep_view();
    let n = words.len();
    let mut pad = false;
    let mut i: usize = 0;
    let ghost mut emitted: Seq<u8> = Seq::<u8>::empty();
    proof {
        assert(buffer@ =~= old(buffer)@ + emitted);
    }
    while i < n
        invariant
            i <= n,
            n == wdv.len(),
            wdv == words.deep_view(),
            buffer@ == old(buffer)@ + emitted,
            match run_words(wdv, i as int, pad) {
                Some(rest) => run_words(wdv, 0, false) == Some(emitted + rest),
                None => run_words(wdv, 0, false) is None,
            },
        decreases n - i,
    {
        let w = &words[i];
        let wlen = w.len();
        proof {
            assert(wdv[i as int] == w@);
        }
        if wlen == 0 {
            pad = true;
        } else if i == 0 && wlen > 2 {
        } else if wlen == 2 {
            if i == n - 1 && pad {
            } else {
                match parse_pair_word(w) {
                    Some(v) => {
                        let ghost old_emitted = emitted;
                        buffer.push(v);
                        proof {
                            emitted = emitted + seq![v];
                            assert(buffer@ =~= old(buffer)@ + emitted);
                            assert(run_words(wdv, i as int, pad) == match run_words(
                                wdv,
                                i as int + 1,
                                false,
                            ) {
                                Some(rest) => Some(seq![v] + rest),
                                None => None::<Seq<u8>>,
                            });
                            match run_words(wdv, i as int + 1, false) {
                                Some(rest) => {
                                    assert(old_emitted + (seq![v] + rest) =~= emitted + rest);
                                },
                                None => {},
                            }
                        }
                        pad = false;
                    },
                    None => {
                        return false;
                    },
                }
            }
        } else {
        }
        i += 1;
    }
    proof {
        assert(run_words(wdv, n as int, pad) == Some(Seq::<u8>::empty()));
        assert(emitted + Seq::<u8>::empty() =~= emitted);
    }
    true
}

/// Reads a hexdump text into bytes: offset columns and trailing ASCII
/// annotations are skipped, every well-formed hex pair is collected, and
/// any malformed pair fails the whole import.
pub fn import(data: &str) -> (r: Option<Vec<u8>>)
    ensures
        r is Some <==> import_spec(encode_utf8(data@)) is Some,
        r matches Some(v) ==> Some(v@) == import_spec(encode_utf8(data@)),
{
    let bytes: &[u8] = data.as_bytes();
    let lines = split_bytes(bytes, LF);
    let ghost ldv = lines.deep_view();
    let n = lines.len();
    let mut buffer: Vec<u8> = Vec::new();
    proof {
        assert(buffer@ =~= Seq::<u8>::empty() + buffer@);
    }
    let mut li: usize = 0;
    while li < n
        invariant
            li <= n,
            n == ldv.len(),
            ldv == lines.deep_view(),
            ldv == seq_split(encode_utf8(data@), LF),
            match lines_bytes(ldv, li as int) {
                Some(rest) => lines_bytes(ldv, 0) == Some(buffer@ + rest),
                None => lines_bytes(ldv, 0) is None,
            },
        decreases n - li,
    {
        let trimmed = trim_bytes(&lines[li]);
        let words = split_bytes(trimmed.as_slice(), SP);
        proof {
            assert(ldv[li as int] == lines@[li as int]@);
            assert(words.deep_view() == seq_split(trim(ldv[li as int]), SP));
        }
        let ghost buffer_before = buffer@;
        let ok = parse_line(&words, &mut buffer);
        if !ok {
            proof {
                assert(line_bytes(ldv[li as int]) is None);
                assert(lines_bytes(ldv, li as int) is None);
            }
            return None;
        }
        proof {
            let lb = line_bytes(ldv[li as int]);
            assert(lb == run_words(words.deep_view(), 0, false));
            assert(lb is Some);
            let bs = lb->0;
            assert(buffer@ == buffer_before + bs);
            assert(lines_bytes(ldv, li as int) == match lines_bytes(ldv, li as int + 1) {
                Some(rest) => Some(bs + rest),
                None => None::<Seq<u8>>,
            });
            match lines_bytes(ldv, li as int + 1) {
                Some(rest) => {
                    assert(buffer_before + (bs + rest) =~= buffer@ + rest);
                },
                None => {},
            }
        }
        li += 1;
    }
    proof {
        assert(lines_bytes(ldv, n as int) == Some(Seq::<u8>::empty()));
        assert(buffer@ + Seq::<u8>::empty() =~= buffer@);
    }
    Some(buffer)
}

} // verus!
