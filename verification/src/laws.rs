//! Properties that hold across the importer and the exporter: the exported
//! text is ASCII, it imports back to the bytes it was made from, extra
//! interior padding does not change what a line denotes, and the offset
//! column's width follows the total byte count.

use vstd::prelude::*;

use crate::exporter::ascii_only;
use crate::exporter::export_chars;
use crate::exporter::export_lines;
use crate::exporter::export_spec;
use crate::exporter::gutter;
use crate::exporter::gutter_byte;
use crate::exporter::hex_digit;
use crate::exporter::hex_field;
use crate::exporter::hex_pair;
use crate::exporter::hex_run;
use crate::exporter::lemma_export_lines_ascii;
use crate::exporter::line_render;
use crate::exporter::offset_width;
use crate::exporter::spaces;
use crate::exporter::ExportOptions;
use crate::importer::import_spec;
use crate::importer::line_bytes;
use crate::importer::lines_bytes;
use crate::importer::parse_pair;
use crate::importer::run_words;
use crate::text::has_byte;
use crate::text::hex_value;
use crate::text::is_hex_digit;
use crate::text::lemma_seq_split_concat;
use crate::text::lemma_seq_split_no_sep;
use crate::text::seq_split;
use crate::text::trim;
use crate::text::trim_end;
use crate::text::trim_start;
use crate::text::ws_prefix_len;
use crate::text::ws_suffix_len;
use crate::text::LF;
use crate::text::SP;
use vstd::utf8::encode_utf8;
use vstd::utf8::is_ascii_chars;
use vstd::utf8::is_ascii_chars_encode_utf8;

verus! {

// ---------- small facts about rendered hex ----------

proof fn lemma_hex_pair_props(b: u8)
    ensures
        hex_pair(b).len() == 2,
        is_hex_digit(hex_pair(b)[0]),
        is_hex_digit(hex_pair(b)[1]),
        parse_pair(hex_pair(b)) == Some(b),
{
    let hi = (b / 16) as u8;
    let lo = (b % 16) as u8;
    assert(hex_value(hex_digit(hi)) == hi);
    assert(hex_value(hex_digit(lo)) == lo);
    assert(16 * (b / 16) + (b % 16) == b);
}

/// No byte of `s` equals `b`.
pub open spec fn lacks_byte(s: Seq<u8>, b: u8) -> bool {
    forall|i: int| 0 <= i < s.len() ==> s[i] != b
}

proof fn lemma_lacks_concat(a: Seq<u8>, c: Seq<u8>, b: u8)
    requires
        lacks_byte(a, b),
        lacks_byte(c, b),
    ensures
        lacks_byte(a + c, b),
{
    assert forall|i: int| 0 <= i < (a + c).len() implies (a + c)[i] != b by {
        if i < a.len() {
            assert((a + c)[i] == a[i]);
        } else {
            assert((a + c)[i] == c[i - a.len()]);
        }
    }
}

proof fn lemma_hex_run_facts(bs: Seq<u8>)
    requires
        bs.len() >= 1,
    ensures
        hex_run(bs).len() == 3 * bs.len() - 1,
        is_hex_digit(hex_run(bs)[0]),
        is_hex_digit(hex_run(bs)[hex_run(bs).len() - 1]),
        lacks_byte(hex_run(bs), LF),
    decreases bs.len(),
{
    lemma_hex_pair_props(bs[0]);
    if bs.len() == 1 {
    } else {
        let rest = bs.drop_first();
        lemma_hex_run_facts(rest);
        let head = hex_pair(bs[0]) + seq![SP];
        assert(lacks_byte(head, LF));
        lemma_lacks_concat(head, hex_run(rest), LF);
        assert(hex_run(bs) =~= head + hex_run(rest));
        assert(hex_run(bs)[hex_run(bs).len() - 1] == hex_run(rest)[hex_run(rest).len() - 1]);
    }
}

proof fn lemma_split_hex_run(bs: Seq<u8>)
    requires
        bs.len() >= 1,
    ensures
        seq_split(hex_run(bs), SP) == Seq::new(bs.len(), |i: int| hex_pair(bs[i])),
    decreases bs.len(),
{
    lemma_hex_pair_props(bs[0]);
    if bs.len() == 1 {
        assert(lacks_byte(hex_pair(bs[0]), SP));
        assert(!has_byte(hex_run(bs), SP));
        lemma_seq_split_no_sep(hex_run(bs), SP);
        assert(seq_split(hex_run(bs), SP) =~~= Seq::new(bs.len(), |i: int| hex_pair(bs[i])));
    } else {
        let rest = bs.drop_first();
        lemma_split_hex_run(rest);
        assert(lacks_byte(hex_pair(bs[0]), SP));
        assert(!has_byte(hex_pair(bs[0]), SP));
        lemma_seq_split_concat(hex_pair(bs[0]), hex_run(rest), SP);
        assert(hex_run(bs) == hex_pair(bs[0]) + seq![SP] + hex_run(rest));
        assert(seq_split(hex_run(bs), SP) == seq![hex_pair(bs[0])] + Seq::new(
            rest.len(),
            |i: int| hex_pair(rest[i]),
        ));
        assert(seq_split(hex_run(bs), SP) =~~= Seq::new(bs.len(), |i: int| hex_pair(bs[i])));
    }
}

/// A text whose first and last bytes are hexadecimal digits has no
/// whitespace to trim at either end.
proof fn lemma_trim_hex_ends(s: Seq<u8>)
    requires
        s.len() >= 1,
        is_hex_digit(s[0]),
        is_hex_digit(s[s.len() - 1]),
    ensures
        trim(s) == s,
{
    assert(ws_prefix_len(s) == 0);
    assert(trim_start(s) == s);
    assert(ws_suffix_len(s) == 0);
    assert(trim_end(s) == s);
}

// ---------- a rendered plain line parses back ----------

proof fn lemma_run_words_pairs(bs: Seq<u8>, ws: Seq<Seq<u8>>, i: int)
    requires
        ws == Seq::new(bs.len(), |k: int| hex_pair(bs[k])),
        0 <= i <= ws.len(),
    ensures
        run_words(ws, i, false) == Some(bs.skip(i)),
    decreases ws.len() - i,
{
    if i == ws.len() {
        assert(bs.skip(i) =~= Seq::<u8>::empty());
    } else {
        lemma_hex_pair_props(bs[i]);
        assert(ws[i] == hex_pair(bs[i]));
        lemma_run_words_pairs(bs, ws, i + 1);
        assert(seq![bs[i]] + bs.skip(i + 1) =~= bs.skip(i));
    }
}

proof fn lemma_line_round_trip(chunk: Seq<u8>)
    requires
        chunk.len() >= 1,
    ensures
        line_bytes(hex_run(chunk)) == Some(chunk),
{
    lemma_hex_run_facts(chunk);
    lemma_trim_hex_ends(hex_run(chunk));
    lemma_split_hex_run(chunk);
    lemma_run_words_pairs(chunk, seq_split(hex_run(chunk), SP), 0);
    assert(chunk.skip(0) =~= chunk);
}

proof fn lemma_empty_line_bytes()
    ensures
        line_bytes(Seq::<u8>::empty()) == Some(Seq::<u8>::empty()),
{
    let e = Seq::<u8>::empty();
    assert(ws_prefix_len(e) == 0);
    assert(trim_start(e) == e);
    assert(ws_suffix_len(e) == 0);
    assert(trim_end(e) == e);
    let ws = seq_split(e, SP);
    assert(ws == seq![e]);
    assert(run_words(ws, 1, true) == Some(e));
    assert(run_words(ws, 0, false) == Some(e));
}

proof fn lemma_lines_bytes_drop(ls: Seq<Seq<u8>>, i: int)
    requires
        1 <= i <= ls.len(),
    ensures
        lines_bytes(ls, i) == lines_bytes(ls.drop_first(), i - 1),
    decreases ls.len() - i,
{
    if i == ls.len() {
    } else {
        assert(ls[i] == ls.drop_first()[i - 1]);
        lemma_lines_bytes_drop(ls, i + 1);
    }
}

// ---------- the round trip ----------

proof fn lemma_plain_line_render(chunk: Seq<u8>, start: nat, total: nat, opts: ExportOptions)
    requires
        !opts.with_offsets,
        !opts.with_ascii,
    ensures
        line_render(chunk, start, total, opts) == hex_run(chunk),
{
    assert(line_render(chunk, start, total, opts) =~= hex_run(chunk));
}

proof fn lemma_round_trip_lines(bs: Seq<u8>, start: nat, total: nat, opts: ExportOptions)
    requires
        opts.per_line >= 1,
        !opts.with_offsets,
        !opts.with_ascii,
    ensures
        lines_bytes(seq_split(export_lines(bs, start, total, opts), LF), 0) == Some(bs),
    decreases bs.len(),
{
    let text = export_lines(bs, start, total, opts);
    if bs.len() == 0 {
        assert(text == Seq::<u8>::empty());
        let ls = seq_split(text, LF);
        assert(ls == seq![Seq::<u8>::empty()]);
        lemma_empty_line_bytes();
        assert(lines_bytes(ls, 1) == Some(Seq::<u8>::empty()));
        assert(lines_bytes(ls, 0) == Some(Seq::<u8>::empty() + Seq::<u8>::empty()));
        assert(Seq::<u8>::empty() + Seq::<u8>::empty() =~= bs);
    } else if bs.len() <= opts.per_line {
        lemma_plain_line_render(bs, start, total, opts);
        assert(text == hex_run(bs));
        lemma_hex_run_facts(bs);
        assert(!has_byte(text, LF));
        lemma_seq_split_no_sep(text, LF);
        let ls = seq_split(text, LF);
        assert(ls == seq![text]);
        lemma_line_round_trip(bs);
        assert(lines_bytes(ls, 1) == Some(Seq::<u8>::empty()));
        assert(lines_bytes(ls, 0) == Some(bs + Seq::<u8>::empty()));
        assert(bs + Seq::<u8>::empty() =~= bs);
    } else {
        let pl = opts.per_line as int;
        let chunk = bs.take(pl);
        let rest = bs.skip(pl);
        let rest_text = export_lines(rest, (start + opts.per_line) as nat, total, opts);
        lemma_plain_line_render(chunk, start, total, opts);
        assert(text == hex_run(chunk) + seq![LF] + rest_text);
        lemma_hex_run_facts(chunk);
        assert(!has_byte(hex_run(chunk), LF));
        lemma_seq_split_concat(hex_run(chunk), rest_text, LF);
        let ls = seq_split(text, LF);
        assert(ls == seq![hex_run(chunk)] + seq_split(rest_text, LF));
        lemma_round_trip_lines(rest, (start + opts.per_line) as nat, total, opts);
        lemma_lines_bytes_drop(ls, 1);
        assert(ls.drop_first() =~= seq_split(rest_text, LF));
        assert(lines_bytes(ls, 1) == Some(rest));
        assert(ls[0] == hex_run(chunk));
        lemma_line_round_trip(chunk);
        assert(lines_bytes(ls, 0) == Some(chunk + rest));
        assert(chunk + rest =~= bs);
    }
}

/// Round trip: a hexdump exported without an offset column and without the
/// ASCII gutter imports back to exactly the bytes it was made from.
pub proof fn lemma_export_import_round_trip(bs: Seq<u8>, opts: ExportOptions)
    requires
        opts.per_line >= 1,
        !opts.with_offsets,
        !opts.with_ascii,
    ensures
        import_spec(export_spec(bs, opts)) == Some(bs),
{
    lemma_round_trip_lines(bs, 0, bs.len(), opts);
}

/// The exported string's UTF-8 bytes are exactly the exported bytes: the
/// text is ASCII, so each character encodes as the byte it came from.
pub proof fn lemma_export_chars_utf8(bs: Seq<u8>, opts: ExportOptions)
    ensures
        encode_utf8(export_chars(bs, opts)) == export_spec(bs, opts),
{
    let bytes = export_spec(bs, opts);
    let chars = export_chars(bs, opts);
    lemma_export_lines_ascii(bs, 0, bs.len(), opts);
    assert(ascii_only(bytes));
    assert forall|i: int| 0 <= i < chars.len() implies '\0' <= #[trigger] chars[i] <= '\u{7f}' by {
        assert(chars[i] == bytes[i] as char);
        assert(bytes[i] < 0x80);
    }
    assert(is_ascii_chars(chars));
    is_ascii_chars_encode_utf8(chars);
    assert forall|i: int| 0 <= i < bytes.len() implies encode_utf8(chars)[i] == bytes[i] by {
        assert(chars[i] as u8 == encode_utf8(chars)[i]);
        assert((bytes[i] as char) as u8 == bytes[i]);
    }
    assert(encode_utf8(chars) =~= bytes);
}

/// Round trip at the level of the two entry points: importing the very
/// string that `export` produced (offsets and gutter off) yields the
/// original bytes again.
pub proof fn lemma_round_trip_text(bs: Seq<u8>, opts: ExportOptions)
    requires
        opts.per_line >= 1,
        !opts.with_offsets,
        !opts.with_ascii,
    ensures
        import_spec(encode_utf8(export_chars(bs, opts))) == Some(bs),
{
    lemma_export_chars_utf8(bs, opts);
    lemma_export_import_round_trip(bs, opts);
}

// ---------- extra interior padding ----------

/// `ws2` is `ws` with extra empty words (what runs of spaces split into)
/// inserted between its words.
pub open spec fn padded_words(ws: Seq<Seq<u8>>, ws2: Seq<Seq<u8>>) -> bool
    decreases ws2.len(),
{
    if ws2.len() == 0 {
        ws.len() == 0
    } else if ws2[0].len() == 0 {
        padded_words(ws, ws2.drop_first())
    } else {
        ws.len() > 0 && ws[0] == ws2[0] && padded_words(ws.drop_first(), ws2.drop_first())
    }
}

proof fn lemma_run_words_padded(
    ws: Seq<Seq<u8>>,
    ws2: Seq<Seq<u8>>,
    i: int,
    j: int,
    pad: bool,
    pad2: bool,
)
    requires
        1 <= i <= ws.len(),
        1 <= j <= ws2.len(),
        padded_words(ws.skip(i), ws2.skip(j)),
        forall|k: int| 0 <= k < ws.len() ==> #[trigger] ws[k].len() > 0,
        ws2[ws2.len() - 1] == ws[ws.len() - 1],
        ws[ws.len() - 1].len() != 2,
    ensures
        run_words(ws2, j, pad2) == run_words(ws, i, pad),
    decreases ws2.len() - j,
{
    if j == ws2.len() {
        assert(ws2.skip(j).len() == 0);
        assert(ws.skip(i).len() == 0);
        assert(i == ws.len());
    } else {
        let w2 = ws2[j];
        assert(ws2.skip(j)[0] == w2);
        assert(ws2.skip(j).drop_first() =~= ws2.skip(j + 1));
        if w2.len() == 0 {
            assert(padded_words(ws.skip(i), ws2.skip(j + 1)));
            lemma_run_words_padded(ws, ws2, i, j + 1, pad, true);
            assert(run_words(ws2, j, pad2) == run_words(ws2, j + 1, true));
        } else {
            assert(ws.skip(i).len() > 0);
            assert(i < ws.len());
            let w = ws[i];
            assert(ws.skip(i)[0] == w);
            assert(w == w2);
            assert(ws.skip(i).drop_first() =~= ws.skip(i + 1));
            assert(padded_words(ws.skip(i + 1), ws2.skip(j + 1)));
            if w.len() == 2 {
                assert(i != ws.len() - 1);
                assert(j != ws2.len() - 1) by {
                    if j == ws2.len() - 1 {
                        assert(ws2[ws2.len() - 1] == w2);
                        assert(ws[ws.len() - 1].len() == 2);
                    }
                }
                match parse_pair(w) {
                    Some(b) => {
                        lemma_run_words_padded(ws, ws2, i + 1, j + 1, false, false);
                        assert(run_words(ws2, j, pad2) == match run_words(ws2, j + 1, false) {
                            Some(rest) => Some(seq![b] + rest),
                            None => None::<Seq<u8>>,
                        });
                        assert(run_words(ws, i, pad) == match run_words(ws, i + 1, false) {
                            Some(rest) => Some(seq![b] + rest),
                            None => None::<Seq<u8>>,
                        });
                    },
                    None => {
                        assert(run_words(ws2, j, pad2) is None);
                        assert(run_words(ws, i, pad) is None);
                    },
                }
            } else {
                lemma_run_words_padded(ws, ws2, i + 1, j + 1, pad, pad2);
                assert(run_words(ws2, j, pad2) == run_words(ws2, j + 1, pad2));
                assert(run_words(ws, i, pad) == run_words(ws, i + 1, pad));
            }
        }
    }
}

/// Inserting extra interior spaces between a line's words (which splits
/// into extra empty words) leaves the bytes the line denotes unchanged,
/// as long as the final word is not exactly two bytes long. A two-byte
/// final word is excluded because next to padding it is read as a trailing
/// annotation and skipped rather than parsed.
pub proof fn lemma_padding_insertion_invariant(ws: Seq<Seq<u8>>, ws2: Seq<Seq<u8>>)
    requires
        ws.len() > 0,
        forall|k: int| 0 <= k < ws.len() ==> #[trigger] ws[k].len() > 0,
        padded_words(ws, ws2),
        ws2.len() > 0,
        ws2[0] == ws[0],
        ws2[ws2.len() - 1] == ws[ws.len() - 1],
        ws[ws.len() - 1].len() != 2,
    ensures
        run_words(ws2, 0, false) == run_words(ws, 0, false),
{
    let w = ws[0];
    assert(w.len() > 0);
    assert(ws2[0].len() > 0);
    assert(ws[0] == ws2[0]);
    assert(ws.drop_first() =~= ws.skip(1));
    assert(ws2.drop_first() =~= ws2.skip(1));
    assert(padded_words(ws.skip(1), ws2.skip(1)));
    if w.len() > 2 {
        lemma_run_words_padded(ws, ws2, 1, 1, false, false);
        assert(run_words(ws2, 0, false) == run_words(ws2, 1, false));
        assert(run_words(ws, 0, false) == run_words(ws, 1, false));
    } else if w.len() == 2 {
        assert(0 != ws.len() - 1);
        assert(0 != ws2.len() - 1) by {
            if 0 == ws2.len() - 1 {
                assert(ws2[ws2.len() - 1] == w);
                assert(ws[ws.len() - 1].len() == 2);
            }
        }
        match parse_pair(w) {
            Some(b) => {
                lemma_run_words_padded(ws, ws2, 1, 1, false, false);
                assert(run_words(ws2, 0, false) == match run_words(ws2, 1, false) {
                    Some(rest) => Some(seq![b] + rest),
                    None => None::<Seq<u8>>,
                });
                assert(run_words(ws, 0, false) == match run_words(ws, 1, false) {
                    Some(rest) => Some(seq![b] + rest),
                    None => None::<Seq<u8>>,
                });
            },
            None => {
                assert(run_words(ws2, 0, false) is None);
                assert(run_words(ws, 0, false) is None);
            },
        }
    } else {
        lemma_run_words_padded(ws, ws2, 1, 1, false, false);
        assert(run_words(ws2, 0, false) == run_words(ws2, 1, false));
        assert(run_words(ws, 0, false) == run_words(ws, 1, false));
    }
}

/// The same invariance for whole lines: when the trimmed text of `line2`
/// cuts into the words of `line1` with extra empty words between them —
/// which is exactly what inserting interior spaces does — both lines
/// denote the same bytes. The final word must again not be two bytes long.
pub proof fn lemma_line_padding_invariant(line1: Seq<u8>, line2: Seq<u8>)
    requires
        trim(line1) == line1,
        trim(line2) == line2,
        seq_split(line1, SP).len() > 0,
        forall|k: int|
            0 <= k < seq_split(line1, SP).len() ==> #[trigger] seq_split(line1, SP)[k].len() > 0,
        padded_words(seq_split(line1, SP), seq_split(line2, SP)),
        seq_split(line2, SP).len() > 0,
        seq_split(line2, SP)[0] == seq_split(line1, SP)[0],
        seq_split(line2, SP)[seq_split(line2, SP).len() - 1] == seq_split(line1, SP)[seq_split(
            line1,
            SP,
        ).len() - 1],
        seq_split(line1, SP)[seq_split(line1, SP).len() - 1].len() != 2,
    ensures
        line_bytes(line2) == line_bytes(line1),
{
    lemma_padding_insertion_invariant(seq_split(line1, SP), seq_split(line2, SP));
}

// ---------- the offset column's width ----------

/// `l` begins with `w` hexadecimal digits followed by a space, and goes on
/// after them.
pub open spec fn offset_field_start(l: Seq<u8>, w: int) -> bool {
    l.len() > w + 1 && (forall|j: int| 0 <= j < w ==> is_hex_digit(#[trigger] l[j])) && l[w] == SP
}

proof fn lemma_gutter_lacks_lf(chunk: Seq<u8>)
    ensures
        lacks_byte(gutter(chunk), LF),
{
    assert forall|i: int| 0 <= i < gutter(chunk).len() implies gutter(chunk)[i] != LF by {
        assert(gutter(chunk)[i] == gutter_byte(chunk[i]));
    }
}

proof fn lemma_line_render_offset(chunk: Seq<u8>, start: nat, total: nat, opts: ExportOptions)
    requires
        opts.with_offsets,
        chunk.len() >= 1,
    ensures
        lacks_byte(line_render(chunk, start, total, opts), LF),
        offset_field_start(line_render(chunk, start, total, opts), offset_width(total) as int),
{
    let w = offset_width(total) as int;
    let field = hex_field(start, offset_width(total));
    let offset_part = field + seq![SP];
    let l = line_render(chunk, start, total, opts);
    lemma_hex_run_facts(chunk);
    assert forall|j: int| 0 <= j < field.len() implies field[j] != LF && is_hex_digit(
        #[trigger] field[j],
    ) by {
        let v = ((start / crate::exporter::pow16((offset_width(total) - 1 - j) as nat))
            % 16) as u8;
        assert(field[j] == hex_digit(v));
        assert(v < 16);
    }
    assert(lacks_byte(offset_part, LF));
    lemma_lacks_concat(offset_part, hex_run(chunk), LF);
    if opts.with_ascii {
        let missing: nat = if chunk.len() <= opts.per_line {
            (opts.per_line - chunk.len()) as nat
        } else {
            0
        };
        let ascii_part = spaces(3 * missing + 1) + gutter(chunk);
        lemma_gutter_lacks_lf(chunk);
        assert(lacks_byte(spaces(3 * missing + 1), LF));
        lemma_lacks_concat(spaces(3 * missing + 1), gutter(chunk), LF);
        lemma_lacks_concat(offset_part + hex_run(chunk), ascii_part, LF);
        assert(l == offset_part + hex_run(chunk) + ascii_part);
    } else {
        assert(l =~= offset_part + hex_run(chunk));
    }
    assert forall|j: int| 0 <= j < w implies is_hex_digit(#[trigger] l[j]) by {
        assert(l[j] == field[j]);
    }
    assert(l[w] == SP);
    assert(l.len() > w + 1);
}

proof fn lemma_export_lines_offsets(bs: Seq<u8>, start: nat, total: nat, opts: ExportOptions)
    requires
        opts.per_line >= 1,
        opts.with_offsets,
        bs.len() > 0,
    ensures
        forall|ix: int|
            0 <= ix < seq_split(export_lines(bs, start, total, opts), LF).len()
                ==> offset_field_start(
                #[trigger] seq_split(export_lines(bs, start, total, opts), LF)[ix],
                offset_width(total) as int,
            ),
    decreases bs.len(),
{
    let text = export_lines(bs, start, total, opts);
    if bs.len() <= opts.per_line {
        lemma_line_render_offset(bs, start, total, opts);
        assert(!has_byte(text, LF));
        lemma_seq_split_no_sep(text, LF);
        assert(seq_split(text, LF) == seq![text]);
    } else {
        let pl = opts.per_line as int;
        let chunk = bs.take(pl);
        let rest = bs.skip(pl);
        let head = line_render(chunk, start, total, opts);
        let rest_text = export_lines(rest, (start + opts.per_line) as nat, total, opts);
        lemma_line_render_offset(chunk, start, total, opts);
        assert(!has_byte(head, LF));
        lemma_seq_split_concat(head, rest_text, LF);
        assert(text == head + seq![LF] + rest_text);
        assert(seq_split(text, LF) == seq![head] + seq_split(rest_text, LF));
        lemma_export_lines_offsets(rest, (start + opts.per_line) as nat, total, opts);
        assert forall|ix: int| 0 <= ix < seq_split(text, LF).len() implies offset_field_start(
            #[trigger] seq_split(text, LF)[ix],
            offset_width(total) as int,
        ) by {
            if ix == 0 {
                assert(seq_split(text, LF)[0] == head);
            } else {
                assert(seq_split(text, LF)[ix] == seq_split(rest_text, LF)[ix - 1]);
            }
        }
    }
}

/// The offset column's width follows the total byte count alone: beyond
/// 0xFFFF bytes and up to 0xFFFFFFFF, every line of the export begins with
/// an eight-digit offset field, not a four-digit one.
pub proof fn lemma_offset_width_selection(bs: Seq<u8>, opts: ExportOptions)
    requires
        opts.per_line >= 1,
        opts.with_offsets,
        0xffff < bs.len() <= 0xffff_ffff,
    ensures
        offset_width(bs.len()) == 8,
        forall|ix: int|
            0 <= ix < seq_split(export_spec(bs, opts), LF).len() ==> offset_field_start(
                #[trigger] seq_split(export_spec(bs, opts), LF)[ix],
                8,
            ),
{
    lemma_export_lines_offsets(bs, 0, bs.len(), opts);
}

} // verus!
