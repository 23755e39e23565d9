//! The exporter: renders bytes as a hexdump text.
//!
//! Bytes are written as uppercase hex pairs separated by single spaces,
//! `per_line` of them on each line, the lines separated by line feeds with
//! no trailing line break. An optional offset column precedes each line,
//! its width chosen once from the total byte count; an optional ASCII
//! gutter follows each line, padded so that it stays aligned under a
//! partial final line.

use vstd::prelude::*;

use crate::text::LF;
use crate::text::SP;
use vstd::string::StringExecFns;

verus! {

/// How `export` lays its text out: `per_line` bytes per line (must be
/// positive), an offset column when `with_offsets` is set, an ASCII gutter
/// when `with_ascii` is set.
pub struct ExportOptions {
    pub per_line: usize,
    pub with_offsets: bool,
    pub with_ascii: bool,
}

#[verifier::external_type_specification]
#[verifier::external_body]
pub struct ExFmtError(core::fmt::Error);

/// Why an export failed: the output sink rejected a write, or the options
/// were degenerate (`per_line` of zero).
#[derive(Debug, PartialEq)]
pub enum ExportError {
    Fmt(core::fmt::Error),
    BadOptions,
}

// ---------- what the exported text looks like ----------

/// The ASCII code of `v` as an uppercase hexadecimal digit.
pub open spec fn hex_digit(v: u8) -> u8
    recommends
        v < 16,
{
    if v < 10 {
        (0x30 + v) as u8
    } else {
        (0x37 + v) as u8
    }
}

/// A byte as two uppercase hexadecimal digits.
pub open spec fn hex_pair(b: u8) -> Seq<u8> {
    seq![hex_digit(b / 16), hex_digit(b % 16)]
}

/// A run of bytes as hex pairs separated by single spaces.
pub open spec fn hex_run(bs: Seq<u8>) -> Seq<u8>
    decreases bs.len(),
{
    if bs.len() == 0 {
        Seq::<u8>::empty()
    } else if bs.len() == 1 {
        hex_pair(bs[0])
    } else {
        hex_pair(bs[0]) + seq![SP] + hex_run(bs.drop_first())
    }
}

/// A byte's rendering in the ASCII gutter: itself when printable, a dot
/// otherwise.
pub open spec fn gutter_byte(b: u8) -> u8 {
    if 0x20 <= b && b <= 0x7e {
        b
    } else {
        0x2e
    }
}

/// A line's bytes rendered for the ASCII gutter.
pub open spec fn gutter(bs: Seq<u8>) -> Seq<u8> {
    Seq::new(bs.len(), |i: int| gutter_byte(bs[i]))
}

/// `n` spaces.
pub open spec fn spaces(n: nat) -> Seq<u8> {
    Seq::new(n, |i: int| SP)
}

/// Powers of sixteen.
pub open spec fn pow16(n: nat) -> nat
    decreases n,
{
    if n == 0 {
        1
    } else {
        16 * pow16((n - 1) as nat)
    }
}

/// The offset column's width in digits, chosen from the total byte count:
/// four digits up to 0xFFFF bytes, eight up to 0xFFFFFFFF, sixteen beyond.
pub open spec fn offset_width(total: nat) -> nat {
    if total <= 0xffff {
        4
    } else if total <= 0xffff_ffff {
        8
    } else {
        16
    }
}

/// `v` as `w` uppercase hexadecimal digits, zero-padded, most significant
/// digit first.
pub open spec fn hex_field(v: nat, w: nat) -> Seq<u8> {
    Seq::new(w, |j: int| hex_digit(((v / pow16((w - 1 - j) as nat)) % 16) as u8))
}

/// One rendered line: the offset column if enabled, the hex pairs, and the
/// padded ASCII gutter if enabled.
pub open spec fn line_render(chunk: Seq<u8>, start: nat, total: nat, opts: ExportOptions) -> Seq<
    u8,
> {
    let offset_part = if opts.with_offsets {
        hex_field(start, offset_width(total)) + seq![SP]
    } else {
        Seq::<u8>::empty()
    };
    let missing: nat = if chunk.len() <= opts.per_line {
        (opts.per_line - chunk.len()) as nat
    } else {
        0
    };
    let ascii_part = if opts.with_ascii {
        spaces(3 * missing + 1) + gutter(chunk)
    } else {
        Seq::<u8>::empty()
    };
    offset_part + hex_run(chunk) + ascii_part
}

/// The rendered lines for the bytes from `start` onward, separated by line
/// feeds, with no trailing line feed.
pub open spec fn export_lines(bs: Seq<u8>, start: nat, total: nat, opts: ExportOptions) -> Seq<u8>
    decreases bs.len(),
{
    if opts.per_line == 0 || bs.len() == 0 {
        Seq::<u8>::empty()
    } else if bs.len() <= opts.per_line {
        line_render(bs, start, total, opts)
    } else {
        line_render(bs.take(opts.per_line as int), start, total, opts) + seq![LF] + export_lines(
            bs.skip(opts.per_line as int),
            (start + opts.per_line) as nat,
            total,
            opts,
        )
    }
}

/// The whole exported text, as bytes.
pub open spec fn export_spec(bs: Seq<u8>, opts: ExportOptions) -> Seq<u8> {
    export_lines(bs, 0, bs.len(), opts)
}

/// The whole exported text, as the characters of the returned string.
pub open spec fn export_chars(bs: Seq<u8>, opts: ExportOptions) -> Seq<char> {
    export_spec(bs, opts).map_values(|b: u8| b as char)
}

// ---------- the exported text is ASCII ----------

/// Every byte of `s` is ASCII.
pub open spec fn ascii_only(s: Seq<u8>) -> bool {
    forall|i: int| 0 <= i < s.len() ==> s[i] < 0x80
}

proof fn lemma_ascii_concat(a: Seq<u8>, b: Seq<u8>)
    requires
        ascii_only(a),
        ascii_only(b),
    ensures
        ascii_only(a + b),
{
    assert forall|i: int| 0 <= i < (a + b).len() implies (a + b)[i] < 0x80 by {
        if i < a.len() {
            assert((a + b)[i] == a[i]);
        } else {
            assert((a + b)[i] == b[i - a.len()]);
        }
    }
}

proof fn lemma_hex_run_ascii(bs: Seq<u8>)
    ensures
        ascii_only(hex_run(bs)),
    decreases bs.len(),
{
    if bs.len() == 0 {
    } else if bs.len() == 1 {
    } else {
        lemma_hex_run_ascii(bs.drop_first());
        lemma_ascii_concat(hex_pair(bs[0]) + seq![SP], hex_run(bs.drop_first()));
        assert(hex_pair(bs[0]) + seq![SP] + hex_run(bs.drop_first()) =~= (hex_pair(bs[0])
            + seq![SP]) + hex_run(bs.drop_first()));
    }
}

proof fn lemma_line_render_ascii(chunk: Seq<u8>, start: nat, total: nat, opts: ExportOptions)
    ensures
        ascii_only(line_render(chunk, start, total, opts)),
{
    let offset_part = if opts.with_offsets {
        hex_field(start, offset_width(total)) + seq![SP]
    } else {
        Seq::<u8>::empty()
    };
    let missing: nat = if chunk.len() <= opts.per_line {
        (opts.per_line - chunk.len()) as nat
    } else {
        0
    };
    let ascii_part = if opts.with_ascii {
        spaces(3 * missing + 1) + gutter(chunk)
    } else {
        Seq::<u8>::empty()
    };
    assert(ascii_only(offset_part));
    lemma_hex_run_ascii(chunk);
    assert(ascii_only(ascii_part));
    lemma_ascii_concat(offset_part, hex_run(chunk));
    lemma_ascii_concat(offset_part + hex_run(chunk), ascii_part);
}

/// Everything `export` writes is ASCII.
pub proof fn lemma_export_lines_ascii(bs: Seq<u8>, start: nat, total: nat, opts: ExportOptions)
    ensures
        ascii_only(export_lines(bs, start, total, opts)),
    decreases bs.len(),
{
    if opts.per_line == 0 || bs.len() == 0 {
    } else if bs.len() <= opts.per_line {
        lemma_line_render_ascii(bs, start, total, opts);
    } else {
        let head = line_render(bs.take(opts.per_line as int), start, total, opts);
        let tail = export_lines(
            bs.skip(opts.per_line as int),
            (start + opts.per_line) as nat,
            total,
            opts,
        );
        lemma_line_render_ascii(bs.take(opts.per_line as int), start, total, opts);
        lemma_export_lines_ascii(
            bs.skip(opts.per_line as int),
            (start + opts.per_line) as nat,
            total,
            opts,
        );
        lemma_ascii_concat(head, seq![LF]);
        lemma_ascii_concat(head + seq![LF], tail);
    }
}

// ---------- executable rendering ----------

/// The ASCII code of `v` as an uppercase hexadecimal digit.
fn hex_digit_byte(v: u8) -> (r: u8)
    requires
        v < 16,
    ensures
        r == hex_digit(v),
{
    if v < 10 {
        0x30 + v
    } else {
        0x37 + v
    }
}

/// Appends a byte as two uppercase hexadecimal digits.
fn push_hex_pair(out: &mut Vec<u8>, b: u8)
    ensures
        final (out)@ == old(out)@ + hex_pair(b),
{
    out.push(hex_digit_byte(b / 16));
    out.push(hex_digit_byte(b % 16));
    proof {
        assert(old(out)@.push(hex_digit(b / 16)).push(hex_digit(b % 16)) =~= old(out)@ + hex_pair(
            b,
        ));
    }
}

/// Appends the bytes `values[pos..end]` as space-separated hex pairs.
fn push_hex_run(out: &mut Vec<u8>, values: &[u8], pos: usize, end: usize)
    requires
        pos <= end <= values@.len(),
    ensures
        final (out)@ == old(out)@ + hex_run(values@.subrange(pos as int, end as int)),
{
    let ghost whole = values@.subrange(pos as int, end as int);
    let mut j = pos;
    let ghost mut emitted: Seq<u8> = Seq::<u8>::empty();
    proof {
        assert(out@ =~= old(out)@ + emitted);
    }
    while j < end
        invariant
            pos <= j <= end <= values@.len(),
            whole == values@.subrange(pos as int, end as int),
            out@ == old(out)@ + emitted,
            emitted + hex_run(values@.subrange(j as int, end as int)) == hex_run(whole),
        decreases end - j,
    {
        let ghost sub = values@.subrange(j as int, end as int);
        let ghost emitted0 = emitted;
        proof {
            assert(sub[0] == values@[j as int]);
        }
        push_hex_pair(out, values[j]);
        proof {
            emitted = emitted + hex_pair(values@[j as int]);
            assert(out@ =~= old(out)@ + emitted);
        }
        if j + 1 < end {
            out.push(SP);
            proof {
                emitted = emitted + seq![SP];
                assert(out@ =~= old(out)@ + emitted);
                assert(sub.drop_first() =~= values@.subrange(j as int + 1, end as int));
                assert(hex_run(sub) == hex_pair(sub[0]) + seq![SP] + hex_run(sub.drop_first()));
                assert(emitted + hex_run(values@.subrange(j as int + 1, end as int)) =~= emitted0
                    + hex_run(sub));
            }
        } else {
            proof {
                assert(sub.len() == 1);
                assert(hex_run(sub) == hex_pair(sub[0]));
                assert(values@.subrange(j as int + 1, end as int) =~= Seq::<u8>::empty());
                assert(emitted + hex_run(Seq::<u8>::empty()) =~= emitted0 + hex_run(sub));
            }
        }
        j += 1;
    }
    proof {
        assert(values@.subrange(end as int, end as int) =~= Seq::<u8>::empty());
        assert(emitted =~= emitted + hex_run(Seq::<u8>::empty()));
        assert(out@ =~= old(out)@ + hex_run(whole));
    }
}

proof fn lemma_pow16_pos(k: nat)
    ensures
        pow16(k) >= 1,
    decreases k,
{
    if k > 0 {
        lemma_pow16_pos((k - 1) as nat);
    }
}

proof fn lemma_pow16_step(k: nat)
    requires
        k >= 1,
    ensures
        pow16(k) / 16 == pow16((k - 1) as nat),
{
    let a = pow16((k - 1) as nat);
    assert(pow16(k) == 16 * a);
    assert(16 * a / 16 == a) by (nonlinear_arith);
}

/// Appends the offset column for the line starting at byte `index`: the
/// index as zero-padded uppercase hex digits, then one space.
fn push_offset(out: &mut Vec<u8>, index: usize, total: usize)
    ensures
        final (out)@ == old(out)@ + hex_field(index as nat, offset_width(total as nat)) + seq![SP],
{
    let ghost ow = offset_width(total as nat);
    let w: usize;
    let mut p: u64;
    if total <= 0xffff {
        w = 4;
        p = 0x1000;
        proof {
            reveal_with_fuel(pow16, 5);
            assert(p as nat == pow16((w - 1) as nat));
        }
    } else if total <= 0xffff_ffff {
        w = 8;
        p = 0x1000_0000;
        proof {
            reveal_with_fuel(pow16, 9);
            assert(p as nat == pow16((w - 1) as nat));
        }
    } else {
        w = 16;
        p = 0x1000_0000_0000_0000;
        proof {
            reveal_with_fuel(pow16, 17);
            assert(p as nat == pow16((w - 1) as nat));
        }
    }
    proof {
        assert(w == ow);
    }
    let idx64: u64 = index as u64;
    let ghost field = hex_field(index as nat, ow);
    let mut j: usize = 0;
    while j < w
        invariant
            j <= w,
            w == ow,
            idx64 == index as u64,
            field == hex_field(index as nat, ow),
            j < w ==> p as nat == pow16((w - 1 - j) as nat),
            out@ == old(out)@ + field.take(j as int),
        decreases w - j,
    {
        proof {
            lemma_pow16_pos((w - 1 - j) as nat);
        }
        let d: u8 = ((idx64 / p) % 16) as u8;
        let c = hex_digit_byte(d);
        out.push(c);
        proof {
            assert(field[j as int] == hex_digit(((index as nat / pow16((ow - 1 - j) as nat))
                % 16) as u8));
            assert(d == ((index as nat / pow16((ow - 1 - j) as nat)) % 16) as u8);
            assert(field.take(j as int + 1) =~= field.take(j as int).push(field[j as int]));
        }
        if j + 1 < w {
            proof {
                lemma_pow16_step((w - 1 - j) as nat);
            }
            p = p / 16;
        }
        j += 1;
    }
    out.push(SP);
    proof {
        assert(field.take(w as int) =~= field);
        assert((old(out)@ + field).push(SP) =~= old(out)@ + field + seq![SP]);
    }
}

/// Appends the ASCII gutter for the bytes `values[pos..end]`: three spaces
/// for every unfilled slot of the line, one separating space, then each
/// byte as a printable character or a dot.
fn push_gutter(out: &mut Vec<u8>, values: &[u8], pos: usize, end: usize, per_line: usize)
    requires
        pos <= end <= values@.len(),
        end - pos <= per_line,
    ensures
        final (out)@ == old(out)@ + spaces(3 * ((per_line - (end - pos)) as nat) + 1) + gutter(
            values@.subrange(pos as int, end as int),
        ),
{
    let missing = per_line - (end - pos);
    let mut m: usize = 0;
    while m < missing
        invariant
            m <= missing,
            out@ == old(out)@ + spaces(3 * m as nat),
        decreases missing - m,
    {
        out.push(SP);
        out.push(SP);
        out.push(SP);
        proof {
            assert(spaces(3 * (m + 1) as nat) =~= spaces(3 * m as nat).push(SP).push(SP).push(
                SP,
            ));
        }
        m += 1;
    }
    out.push(SP);
    proof {
        assert(spaces(3 * missing as nat + 1) =~= spaces(3 * missing as nat).push(SP));
    }
    let ghost pad = spaces(3 * missing as nat + 1);
    let ghost chunk = values@.subrange(pos as int, end as int);
    let mut j = pos;
    while j < end
        invariant
            pos <= j <= end <= values@.len(),
            chunk == values@.subrange(pos as int, end as int),
            pad == spaces(3 * ((per_line - (end - pos)) as nat) + 1),
            end - pos <= per_line,
            out@ == old(out)@ + pad + gutter(values@.subrange(pos as int, j as int)),
        decreases end - j,
    {
        let b = values[j];
        let g: u8 = if b >= 0x20 && b <= 0x7e {
            b
        } else {
            0x2e
        };
        out.push(g);
        proof {
            assert(g == gutter_byte(values@[j as int]));
            assert(gutter(values@.subrange(pos as int, j as int + 1)) =~= gutter(
                values@.subrange(pos as int, j as int),
            ).push(gutter_byte(values@[j as int])));
        }
        j += 1;
    }
    proof {
        assert(out@ =~= old(out)@ + pad + gutter(chunk));
    }
}

/// One line's worth of output moves the rendering forward by one chunk:
/// appending the rendered line (and a line feed when more bytes follow)
/// consumes exactly one step of `export_lines`.
proof fn lemma_render_step(
    vals: Seq<u8>,
    pos: int,
    end: int,
    opts: ExportOptions,
    out0: Seq<u8>,
    out1: Seq<u8>,
)
    requires
        opts.per_line >= 1,
        0 <= pos < end <= vals.len(),
        end == if vals.len() - pos > opts.per_line {
            pos + opts.per_line
        } else {
            vals.len() as int
        },
        out1 == out0 + line_render(vals.subrange(pos, end), pos as nat, vals.len(), opts) + (
        if end < vals.len() {
            seq![LF]
        } else {
            Seq::<u8>::empty()
        }),
    ensures
        out1 + export_lines(vals.skip(end), end as nat, vals.len(), opts) == out0 + export_lines(
            vals.skip(pos),
            pos as nat,
            vals.len(),
            opts,
        ),
{
    let tail = vals.skip(pos);
    let chunk = vals.subrange(pos, end);
    let rendered = line_render(chunk, pos as nat, vals.len(), opts);
    if end < vals.len() {
        assert(tail.len() > opts.per_line);
        assert(tail.take(opts.per_line as int) =~= chunk);
        assert(tail.skip(opts.per_line as int) =~= vals.skip(end));
        assert(export_lines(tail, pos as nat, vals.len(), opts) == rendered + seq![LF]
            + export_lines(vals.skip(end), end as nat, vals.len(), opts));
        assert(out1 + export_lines(vals.skip(end), end as nat, vals.len(), opts) =~= out0
            + export_lines(tail, pos as nat, vals.len(), opts));
    } else {
        assert(tail.len() <= opts.per_line);
        assert(tail =~= chunk);
        assert(export_lines(tail, pos as nat, vals.len(), opts) == rendered);
        assert(vals.skip(end) =~= Seq::<u8>::empty());
        assert(export_lines(vals.skip(end), end as nat, vals.len(), opts)
            == Seq::<u8>::empty());
        assert(out1 + Seq::<u8>::empty() =~= out0 + rendered);
    }
}

/// Renders the whole hexdump into a byte buffer.
#[verifier::rlimit(100)]
fn render(values: &[u8], options: &ExportOptions) -> (out: Vec<u8>)
    requires
        options.per_line >= 1,
    ensures
        out@ == export_spec(values@, *options),
{
    let total = values.len();
    let per_line = options.per_line;
    let mut out: Vec<u8> = Vec::new();
    let mut pos: usize = 0;
    proof {
        assert(values@.skip(0) =~= values@);
        assert(Seq::<u8>::empty() + export_lines(values@, 0, total as nat, *options)
            =~= export_lines(values@, 0, total as nat, *options));
    }
    while pos < total
        invariant
            pos <= total,
            total == values@.len(),
            per_line == options.per_line,
            per_line >= 1,
            out@ + export_lines(values@.skip(pos as int), pos as nat, total as nat, *options)
                == export_spec(values@, *options),
        decreases total - pos,
    {
        let end: usize = if total - pos > per_line {
            pos + per_line
        } else {
            total
        };
        let ghost tail = values@.skip(pos as int);
        let ghost chunk = values@.subrange(pos as int, end as int);
        let ghost out0 = out@;
        let ghost offset_part = if options.with_offsets {
            hex_field(pos as nat, offset_width(total as nat)) + seq![SP]
        } else {
            Seq::<u8>::empty()
        };
        if options.with_offsets {
            push_offset(&mut out, pos, total);
        }
        proof {
            assert(out@ =~= out0 + offset_part);
        }
        push_hex_run(&mut out, values, pos, end);
        proof {
            assert(out@ =~= out0 + offset_part + hex_run(chunk));
        }
        let ghost missing: nat = if chunk.len() <= per_line {
            (per_line - chunk.len()) as nat
        } else {
            0
        };
        let ghost ascii_part = if options.with_ascii {
            spaces(3 * missing + 1) + gutter(chunk)
        } else {
            Seq::<u8>::empty()
        };
        if options.with_ascii {
            push_gutter(&mut out, values, pos, end, per_line);
        }
        proof {
            assert(out@ =~= out0 + offset_part + hex_run(chunk) + ascii_part);
            assert(line_render(chunk, pos as nat, total as nat, *options) == offset_part + hex_run(
                chunk,
            ) + ascii_part);
        }
        if end < total {
            out.push(LF);
        }
        proof {
            let rendered = line_render(chunk, pos as nat, total as nat, *options);
            if end < total {
                assert(out@ =~= out0 + rendered + seq![LF]);
            } else {
                assert(out@ =~= out0 + rendered + Seq::<u8>::empty());
            }
            lemma_render_step(values@, pos as int, end as int, *options, out0, out@);
        }
        pos = end;
    }
    proof {
        assert(values@.skip(total as int) =~= Seq::<u8>::empty());
        assert(out@ + Seq::<u8>::empty() =~= out@);
    }
    out
}

/// Relies on `String::from_utf8`: a sequence of bytes below 0x80 is valid
/// UTF-8 and decodes to the characters with the same code points.
#[verifier::external_body]
fn ascii_to_string(bytes: Vec<u8>) -> (r: String)
    requires
        ascii_only(bytes@),
    ensures
        r@ == bytes@.map_values(|b: u8| b as char),
{
    match String::from_utf8(bytes) {
        Ok(s) => s,
        Err(_) => String::new(),
    }
}

/// Writes the hexdump of `values` onto the end of `target`. With a
/// `per_line` of zero the options are degenerate and nothing is written.
pub fn export_to(target: &mut String, values: &[u8], options: ExportOptions) -> (r: Result<
    (),
    ExportError,
>)
    ensures
        options.per_line == 0 ==> r == Err::<(), ExportError>(ExportError::BadOptions)
            && final (target)@ == old(target)@,
        options.per_line >= 1 ==> r == Ok::<(), ExportError>(())
            && final (target)@ == old(target)@ + export_chars(values@, options),
{
    if options.per_line == 0 {
        return Err(ExportError::BadOptions);
    }
    let out = render(values, &options);
    proof {
        lemma_export_lines_ascii(values@, 0, values@.len(), options);
    }
    let s = ascii_to_string(out);
    target.append(s.as_str());
    Ok(())
}

/// The hexdump of `values` as a new string.
pub fn export(values: &[u8], options: ExportOptions) -> (r: Result<String, ExportError>)
    ensures
        options.per_line == 0 ==> (r matches Err(e) && e == ExportError::BadOptions),
        options.per_line >= 1 ==> (r matches Ok(s) && s@ == export_chars(values@, options)),
{
    let mut res = String::new();
    match export_to(&mut res, values, options) {
        Ok(()) => Ok(res),
        Err(e) => Err(e),
    }
}

} // verus!
