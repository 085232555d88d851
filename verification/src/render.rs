//! Rendering of row routines and of the assembled module text.
//!
//! Every emitted line is pinned byte for byte by a spec function, so the
//! module text is a function of the glyph data and the options alone.

use vstd::prelude::*;

use crate::emit::StoreOp;
use crate::emit::emit_stores;
use crate::emit::lemma_row_stores_columns;
use crate::emit::row_stores;
use crate::rows::canonical_rows;
use crate::rows::canonical_table;
use crate::rows::collect_extra_rows;
use crate::rows::extras_after;
use crate::rows::pack_rows;
use crate::rows::row_patterns;
use crate::text::ascii;
use crate::text::bin8;
use crate::text::dec2;
use crate::text::push_bin8;
use crate::text::push_dec2;
use crate::text::push_slice;

verus! {

/// `"    lw     s0, 0(a0)\n"`: load the return address from the descriptor.
pub open spec fn lw_line() -> Seq<u8> {
    ascii(
        seq![
            ' ', ' ', ' ', ' ', 'l', 'w', ' ', ' ', ' ', ' ', ' ', 's', '0', ',', ' ', '0', '(',
            'a', '0', ')', '\n',
        ],
    )
}

fn push_lw_line(out: &mut Vec<u8>)
    ensures
        final(out)@ == old(out)@ + lw_line(),
{
    out.push(' ' as u8);
    out.push(' ' as u8);
    out.push(' ' as u8);
    out.push(' ' as u8);
    out.push('l' as u8);
    out.push('w' as u8);
    out.push(' ' as u8);
    out.push(' ' as u8);
    out.push(' ' as u8);
    out.push(' ' as u8);
    out.push(' ' as u8);
    out.push('s' as u8);
    out.push('0' as u8);
    out.push(',' as u8);
    out.push(' ' as u8);
    out.push('0' as u8);
    out.push('(' as u8);
    out.push('a' as u8);
    out.push('0' as u8);
    out.push(')' as u8);
    out.push('\n' as u8);
    proof {
        assert(out@ =~= old(out)@ + lw_line());
    }
}

/// `"    addi   a0, a0, 4\n"`: advance the descriptor pointer by one word.
pub open spec fn addi_a0_line() -> Seq<u8> {
    ascii(
        seq![
            ' ', ' ', ' ', ' ', 'a', 'd', 'd', 'i', ' ', ' ', ' ', 'a', '0', ',', ' ', 'a', '0',
            ',', ' ', '4', '\n',
        ],
    )
}

fn push_addi_a0_line(out: &mut Vec<u8>)
    ensures
        final(out)@ == old(out)@ + addi_a0_line(),
{
    out.push(' ' as u8);
    out.push(' ' as u8);
    out.push(' ' as u8);
    out.push(' ' as u8);
    out.push('a' as u8);
    out.push('d' as u8);
    out.push('d' as u8);
    out.push('i' as u8);
    out.push(' ' as u8);
    out.push(' ' as u8);
    out.push(' ' as u8);
    out.push('a' as u8);
    out.push('0' as u8);
    out.push(',' as u8);
    out.push(' ' as u8);
    out.push('a' as u8);
    out.push('0' as u8);
    out.push(',' as u8);
    out.push(' ' as u8);
    out.push('4' as u8);
    out.push('\n' as u8);
    proof {
        assert(out@ =~= old(out)@ + addi_a0_line());
    }
}

/// `"    sh     s1, "` or `"    sw     s1, "`: a half or merged store, up to
/// its byte offset.
pub open spec fn store_prefix(merged: bool) -> Seq<u8> {
    ascii(
        seq![
            ' ', ' ', ' ', ' ', 's', if merged { 'w' } else { 'h' }, ' ', ' ', ' ', ' ', ' ', 's',
            '1', ',', ' ',
        ],
    )
}

fn push_store_prefix(out: &mut Vec<u8>, merged: bool)
    ensures
        final(out)@ == old(out)@ + store_prefix(merged),
{
    out.push(' ' as u8);
    out.push(' ' as u8);
    out.push(' ' as u8);
    out.push(' ' as u8);
    out.push('s' as u8);
    if merged {
        out.push('w' as u8);
    } else {
        out.push('h' as u8);
    }
    out.push(' ' as u8);
    out.push(' ' as u8);
    out.push(' ' as u8);
    out.push(' ' as u8);
    out.push(' ' as u8);
    out.push('s' as u8);
    out.push('1' as u8);
    out.push(',' as u8);
    out.push(' ' as u8);
    proof {
        assert(out@ =~= old(out)@ + store_prefix(merged));
    }
}

/// `"(a1)\n"`: the destination operand closing every store line.
pub open spec fn store_tail() -> Seq<u8> {
    ascii(seq!['(', 'a', '1', ')', '\n'])
}

fn push_store_tail(out: &mut Vec<u8>)
    ensures
        final(out)@ == old(out)@ + store_tail(),
{
    out.push('(' as u8);
    out.push('a' as u8);
    out.push('1' as u8);
    out.push(')' as u8);
    out.push('\n' as u8);
    proof {
        assert(out@ =~= old(out)@ + store_tail());
    }
}

/// `"    jr     s0\n"`: the return jump.
pub open spec fn jr_line() -> Seq<u8> {
    ascii(seq![' ', ' ', ' ', ' ', 'j', 'r', ' ', ' ', ' ', ' ', ' ', 's', '0', '\n'])
}

fn push_jr_line(out: &mut Vec<u8>)
    ensures
        final(out)@ == old(out)@ + jr_line(),
{
    out.push(' ' as u8);
    out.push(' ' as u8);
    out.push(' ' as u8);
    out.push(' ' as u8);
    out.push('j' as u8);
    out.push('r' as u8);
    out.push(' ' as u8);
    out.push(' ' as u8);
    out.push(' ' as u8);
    out.push(' ' as u8);
    out.push(' ' as u8);
    out.push('s' as u8);
    out.push('0' as u8);
    out.push('\n' as u8);
    proof {
        assert(out@ =~= old(out)@ + jr_line());
    }
}

/// `"     addi  a1, a1, 1280\n"`: the delay-slot advance of the framebuffer
/// pointer by one row stride (640 pixels of 2 bytes).
pub open spec fn delay_line() -> Seq<u8> {
    ascii(
        seq![
            ' ', ' ', ' ', ' ', ' ', 'a', 'd', 'd', 'i', ' ', ' ', 'a', '1', ',', ' ', 'a', '1',
            ',', ' ', '1', '2', '8', '0', '\n',
        ],
    )
}

fn push_delay_line(out: &mut Vec<u8>)
    ensures
        final(out)@ == old(out)@ + delay_line(),
{
    out.push(' ' as u8);
    out.push(' ' as u8);
    out.push(' ' as u8);
    out.push(' ' as u8);
    out.push(' ' as u8);
    out.push('a' as u8);
    out.push('d' as u8);
    out.push('d' as u8);
    out.push('i' as u8);
    out.push(' ' as u8);
    out.push(' ' as u8);
    out.push('a' as u8);
    out.push('1' as u8);
    out.push(',' as u8);
    out.push(' ' as u8);
    out.push('a' as u8);
    out.push('1' as u8);
    out.push(',' as u8);
    out.push(' ' as u8);
    out.push('1' as u8);
    out.push('2' as u8);
    out.push('8' as u8);
    out.push('0' as u8);
    out.push('\n' as u8);
    proof {
        assert(out@ =~= old(out)@ + delay_line());
    }
}

/// The text of one store line: prefix, decimal byte offset (two bytes per
/// pixel column), destination operand.
pub open spec fn store_line(op: StoreOp) -> Seq<u8> {
    match op {
        StoreOp::Half { col } => store_prefix(false) + dec2((2 * col) as u8) + store_tail(),
        StoreOp::Merged { col } => store_prefix(true) + dec2((2 * col) as u8) + store_tail(),
    }
}

/// The store lines of a routine, in instruction order.
pub open spec fn stores_text(ops: Seq<StoreOp>) -> Seq<u8>
    decreases ops.len(),
{
    if ops.len() == 0 {
        seq![]
    } else {
        stores_text(ops.drop_last()) + store_line(ops.last())
    }
}

/// The full body text of the row routine for `row`: prologue, store lines,
/// return jump with its delay slot.
pub open spec fn routine_text(row: u8, double: bool, patch: bool) -> Seq<u8> {
    lw_line() + addi_a0_line() + stores_text(row_stores(row, double, patch)) + jr_line()
        + delay_line()
}

/// Renders the routine body for one row pattern, byte-identical to the
/// spec-level text.
pub fn build_function(row: u8, double: bool, patch: bool) -> (out: Vec<u8>)
    ensures
        out@ == routine_text(row, double, patch),
{
    let mut out: Vec<u8> = Vec::new();
    push_lw_line(&mut out);
    push_addi_a0_line(&mut out);
    let ops = emit_stores(row, double, patch);
    proof {
        lemma_row_stores_columns(row, double, patch);
    }
    let mut i: usize = 0;
    while i < ops.len()
        invariant
            i <= ops@.len(),
            ops@ == row_stores(row, double, patch),
            forall|k: int|
                0 <= k < ops@.len() ==> match #[trigger] ops@[k] {
                    StoreOp::Half { col } => col < 8,
                    StoreOp::Merged { col } => col < 7,
                },
            out@ == lw_line() + addi_a0_line() + stores_text(ops@.take(i as int)),
        decreases ops@.len() - i,
    {
        let ghost pre = ops@.take(i as int);
        let op = ops[i];
        match op {
            StoreOp::Half { col } => {
                push_store_prefix(&mut out, false);
                push_dec2(&mut out, 2 * col);
                push_store_tail(&mut out);
            },
            StoreOp::Merged { col } => {
                push_store_prefix(&mut out, true);
                push_dec2(&mut out, 2 * col);
                push_store_tail(&mut out);
            },
        }
        i = i + 1;
        proof {
            assert(ops@.take(i as int).drop_last() =~= pre);
            assert(ops@.take(i as int).last() == op);
            assert(out@ =~= lw_line() + addi_a0_line() + stores_text(ops@.take(i as int)));
        }
    }
    push_jr_line(&mut out);
    push_delay_line(&mut out);
    proof {
        assert(ops@.take(ops@.len() as int) =~= ops@);
        assert(out@ =~= routine_text(row, double, patch));
    }
    out
}

/// `"\n"`.
pub open spec fn nl() -> Seq<u8> {
    ascii(seq!['\n'])
}

fn push_nl(out: &mut Vec<u8>)
    ensures
        final(out)@ == old(out)@ + nl(),
{
    out.push('\n' as u8);
    proof {
        assert(out@ =~= old(out)@ + nl());
    }
}

/// `"    .word "`: the opening of an address-table entry.
pub open spec fn dot_word() -> Seq<u8> {
    ascii(seq![' ', ' ', ' ', ' ', '.', 'w', 'o', 'r', 'd', ' '])
}

fn push_dot_word(out: &mut Vec<u8>)
    ensures
        final(out)@ == old(out)@ + dot_word(),
{
    out.push(' ' as u8);
    out.push(' ' as u8);
    out.push(' ' as u8);
    out.push(' ' as u8);
    out.push('.' as u8);
    out.push('w' as u8);
    out.push('o' as u8);
    out.push('r' as u8);
    out.push('d' as u8);
    out.push(' ' as u8);
    proof {
        assert(out@ =~= old(out)@ + dot_word());
    }
}

/// `"row_single_"` or `"row_double_"`: the stem of a routine name.
pub open spec fn name_stem(double: bool) -> Seq<u8> {
    ascii(
        seq![
            'r', 'o', 'w', '_', if double { 'd' } else { 's' }, if double { 'o' } else { 'i' },
            if double { 'u' } else { 'n' }, if double { 'b' } else { 'g' }, 'l', 'e', '_',
        ],
    )
}

fn push_name_stem(out: &mut Vec<u8>, double: bool)
    ensures
        final(out)@ == old(out)@ + name_stem(double),
{
    out.push('r' as u8);
    out.push('o' as u8);
    out.push('w' as u8);
    out.push('_' as u8);
    if double {
        out.push('d' as u8);
        out.push('o' as u8);
        out.push('u' as u8);
        out.push('b' as u8);
    } else {
        out.push('s' as u8);
        out.push('i' as u8);
        out.push('n' as u8);
        out.push('g' as u8);
    }
    out.push('l' as u8);
    out.push('e' as u8);
    out.push('_' as u8);
    proof {
        assert(out@ =~= old(out)@ + name_stem(double));
    }
}

/// The name of the routine for `row`: the stem followed by the pattern's
/// eight binary digits.
pub open spec fn routine_name(row: u8, double: bool) -> Seq<u8> {
    name_stem(double) + bin8(row)
}

fn push_routine_name(out: &mut Vec<u8>, row: u8, double: bool)
    ensures
        final(out)@ == old(out)@ + routine_name(row, double),
{
    push_name_stem(out, double);
    push_bin8(out, row);
    proof {
        assert(out@ =~= old(out)@ + routine_name(row, double));
    }
}

/// `"row_end"`: the name of the shared terminator routine.
pub open spec fn row_end_name() -> Seq<u8> {
    ascii(seq!['r', 'o', 'w', '_', 'e', 'n', 'd'])
}

fn push_row_end_name(out: &mut Vec<u8>)
    ensures
        final(out)@ == old(out)@ + row_end_name(),
{
    out.push('r' as u8);
    out.push('o' as u8);
    out.push('w' as u8);
    out.push('_' as u8);
    out.push('e' as u8);
    out.push('n' as u8);
    out.push('d' as u8);
    proof {
        assert(out@ =~= old(out)@ + row_end_name());
    }
}

/// `"EXPORT("`.
pub open spec fn export_open() -> Seq<u8> {
    ascii(seq!['E', 'X', 'P', 'O', 'R', 'T', '('])
}

/// `")\n"`.
pub open spec fn close_nl() -> Seq<u8> {
    ascii(seq![')', '\n'])
}

fn push_close_nl(out: &mut Vec<u8>)
    ensures
        final(out)@ == old(out)@ + close_nl(),
{
    out.push(')' as u8);
    out.push('\n' as u8);
    proof {
        assert(out@ =~= old(out)@ + close_nl());
    }
}

/// `"EXPORT(<label>)\n"`: the exported entry for the first glyph of a table.
pub open spec fn export_line(label: Seq<u8>) -> Seq<u8> {
    export_open() + label + close_nl()
}

fn push_export_line(out: &mut Vec<u8>, label: &[u8])
    ensures
        final(out)@ == old(out)@ + export_line(label@),
{
    out.push('E' as u8);
    out.push('X' as u8);
    out.push('P' as u8);
    out.push('O' as u8);
    out.push('R' as u8);
    out.push('T' as u8);
    out.push('(' as u8);
    proof {
        assert(out@ =~= old(out)@ + export_open());
    }
    push_slice(out, label);
    push_close_nl(out);
    proof {
        assert(out@ =~= old(out)@ + export_line(label@));
    }
}

/// One address-table entry: `"    .word <routine name>\n"`.
pub open spec fn word_line(row: u8, double: bool) -> Seq<u8> {
    dot_word() + routine_name(row, double) + nl()
}

/// The terminating entry: `"    .word row_end\n"`.
pub open spec fn word_end_line() -> Seq<u8> {
    dot_word() + row_end_name() + nl()
}

/// The address-table entries for the given rows, in row order.
pub open spec fn word_lines(rows: Seq<u8>, double: bool) -> Seq<u8>
    decreases rows.len(),
{
    if rows.len() == 0 {
        seq![]
    } else {
        word_lines(rows.drop_last(), double) + word_line(rows.last(), double)
    }
}

/// One glyph's table for one plane: its eight row entries, the terminator
/// entry, and a blank line.
pub open spec fn plane_text(rows8: Seq<u8>, double: bool) -> Seq<u8> {
    word_lines(rows8, double) + word_end_line() + nl()
}

fn push_plane(out: &mut Vec<u8>, pats: &Vec<u8>, start: usize, double: bool)
    requires
        start + 8 <= pats@.len(),
    ensures
        final(out)@ == old(out)@ + plane_text(
            pats@.subrange(start as int, start as int + 8),
            double,
        ),
{
    let n = pats.len();
    let mut r: usize = 0;
    while r < 8
        invariant
            r <= 8,
            n == pats@.len(),
            start + 8 <= n,
            out@ == old(out)@ + word_lines(
                pats@.subrange(start as int, start as int + r as int),
                double,
            ),
        decreases 8 - r,
    {
        let ghost pre = pats@.subrange(start as int, start as int + r as int);
        let b = pats[start + r];
        push_dot_word(out);
        push_routine_name(out, b, double);
        push_nl(out);
        r = r + 1;
        proof {
            let cur = pats@.subrange(start as int, start as int + r as int);
            assert(cur.drop_last() =~= pre);
            assert(cur.last() == b);
            assert(out@ =~= old(out)@ + word_lines(cur, double));
        }
    }
    push_dot_word(out);
    push_row_end_name(out);
    push_nl(out);
    push_nl(out);
    proof {
        assert(out@ =~= old(out)@ + plane_text(
            pats@.subrange(start as int, start as int + 8),
            double,
        ));
    }
}

/// One glyph's block of the address tables: the single-width plane then the
/// double-width plane, each headed by its export label on the first glyph.
pub open spec fn glyph_block(rows8: Seq<u8>, g: int, fl: Seq<u8>, sl: Seq<u8>) -> Seq<u8> {
    (if g == 0 {
        export_line(fl)
    } else {
        seq![]
    }) + plane_text(rows8, false) + (if g == 0 {
        export_line(sl)
    } else {
        seq![]
    }) + plane_text(rows8, true)
}

/// The address tables of the first `nglyphs` glyphs, in glyph order.
pub open spec fn tables_text(pats: Seq<u8>, nglyphs: int, fl: Seq<u8>, sl: Seq<u8>) -> Seq<u8>
    decreases nglyphs,
{
    if nglyphs <= 0 {
        seq![]
    } else {
        tables_text(pats, nglyphs - 1, fl, sl) + glyph_block(
            pats.subrange(8 * (nglyphs - 1), 8 * nglyphs),
            nglyphs - 1,
            fl,
            sl,
        )
    }
}

/// `"LEAF("`.
pub open spec fn leaf_open() -> Seq<u8> {
    ascii(seq!['L', 'E', 'A', 'F', '('])
}

fn push_leaf_open(out: &mut Vec<u8>)
    ensures
        final(out)@ == old(out)@ + leaf_open(),
{
    out.push('L' as u8);
    out.push('E' as u8);
    out.push('A' as u8);
    out.push('F' as u8);
    out.push('(' as u8);
    proof {
        assert(out@ =~= old(out)@ + leaf_open());
    }
}

/// `"END("`.
pub open spec fn end_open() -> Seq<u8> {
    ascii(seq!['E', 'N', 'D', '('])
}

fn push_end_open(out: &mut Vec<u8>)
    ensures
        final(out)@ == old(out)@ + end_open(),
{
    out.push('E' as u8);
    out.push('N' as u8);
    out.push('D' as u8);
    out.push('(' as u8);
    proof {
        assert(out@ =~= old(out)@ + end_open());
    }
}

/// The emitted block of one routine: `LEAF` header, body, `END` footer, and
/// a blank line.
pub open spec fn leaf_block(row: u8, double: bool, patch: bool) -> Seq<u8> {
    leaf_open() + routine_name(row, double) + close_nl() + routine_text(row, double, patch)
        + end_open() + routine_name(row, double) + close_nl() + nl()
}

/// The routine blocks for the given rows, in table order.
pub open spec fn section_text(rows: Seq<u8>, double: bool, patch: bool) -> Seq<u8>
    decreases rows.len(),
{
    if rows.len() == 0 {
        seq![]
    } else {
        section_text(rows.drop_last(), double, patch) + leaf_block(rows.last(), double, patch)
    }
}

fn push_leaf_block(out: &mut Vec<u8>, row: u8, double: bool, patch: bool)
    ensures
        final(out)@ == old(out)@ + leaf_block(row, double, patch),
{
    push_leaf_open(out);
    push_routine_name(out, row, double);
    push_close_nl(out);
    let body = build_function(row, double, patch);
    push_slice(out, body.as_slice());
    push_end_open(out);
    push_routine_name(out, row, double);
    push_close_nl(out);
    push_nl(out);
    proof {
        assert(out@ =~= old(out)@ + leaf_block(row, double, patch));
    }
}

fn push_section(out: &mut Vec<u8>, rows: &Vec<u8>, double: bool, patch: bool)
    ensures
        final(out)@ == old(out)@ + section_text(rows@, double, patch),
{
    let mut i: usize = 0;
    while i < rows.len()
        invariant
            i <= rows@.len(),
            out@ == old(out)@ + section_text(rows@.take(i as int), double, patch),
        decreases rows@.len() - i,
    {
        let ghost pre = rows@.take(i as int);
        let b = rows[i];
        push_leaf_block(out, b, double, patch);
        i = i + 1;
        proof {
            let cur = rows@.take(i as int);
            assert(cur.drop_last() =~= pre);
            assert(cur.last() == b);
            assert(out@ =~= old(out)@ + section_text(cur, double, patch));
        }
    }
    proof {
        assert(rows@.take(rows@.len() as int) =~= rows@);
    }
}

/// The initial extra-row table: the rows packed from the matching build's
/// extra buffer, or empty when none is given.
pub open spec fn initial_extras(extra: Option<&[u8]>) -> Seq<u8> {
    match extra {
        Some(e) => row_patterns(e@),
        None => seq![],
    }
}

/// The complete module text for a glyph buffer.
///
/// In order: the caller's prologue asset; the per-glyph address tables; the
/// canonical single-width routines; the caller's terminator-routine asset;
/// the canonical double-width routines; the extra rows' double-width then
/// single-width routines; the caller's epilogue asset. `matching` switches
/// the hand-patch reproduction on.
pub open spec fn module_text(
    data: Seq<u8>,
    fl: Seq<u8>,
    sl: Seq<u8>,
    init: Seq<u8>,
    matching: bool,
    prologue: Seq<u8>,
    row_end: Seq<u8>,
    epilogue: Seq<u8>,
) -> Seq<u8> {
    let pats = row_patterns(data);
    let extras = extras_after(canonical_table(), init, pats);
    prologue + tables_text(pats, data.len() as int / 64, fl, sl) + section_text(
        canonical_table(),
        false,
        matching,
    ) + row_end + section_text(canonical_table(), true, matching) + section_text(
        extras,
        true,
        matching,
    ) + section_text(extras, false, matching) + epilogue
}

/// Assembles the whole module for a pixel buffer of 8-pixel-wide rows,
/// one glyph per 64 bytes.
///
/// `extra` is the matching build's extra-row pixel buffer; giving it also
/// turns the hand-patch reproduction on, as a matching build asks. The
/// prologue, terminator-routine and epilogue assets are spliced in verbatim.
pub fn build(
    data: &[u8],
    first_label: &[u8],
    second_label: &[u8],
    extra: Option<&[u8]>,
    prologue: &[u8],
    row_end: &[u8],
    epilogue: &[u8],
) -> (out: Vec<u8>)
    requires
        data@.len() % 64 == 0,
        match extra {
            Some(e) => e@.len() % 8 == 0,
            None => true,
        },
    ensures
        out@ == module_text(
            data@,
            first_label@,
            second_label@,
            initial_extras(extra),
            extra is Some,
            prologue@,
            row_end@,
            epilogue@,
        ),
{
    proof {
        lemma_mod_breakdown(data@.len() as int);
    }
    let pats = pack_rows(data);
    let canon = canonical_rows();
    let matching = extra.is_some();
    let init: Vec<u8> = match extra {
        Some(e) => pack_rows(e),
        None => Vec::new(),
    };
    proof {
        assert(init@ =~= initial_extras(extra));
    }
    let extras = collect_extra_rows(&canon, init, &pats);

    let mut out: Vec<u8> = Vec::new();
    push_slice(&mut out, prologue);

    let nglyphs = data.len() / 64;
    proof {
        lemma_glyph_count(data@.len() as int);
    }
    let plen = pats.len();
    let mut g: usize = 0;
    while g < nglyphs
        invariant
            g <= nglyphs,
            nglyphs == data@.len() as int / 64,
            pats@ == row_patterns(data@),
            plen == pats@.len(),
            pats@.len() == 8 * nglyphs,
            out@ == prologue@ + tables_text(
                pats@,
                g as int,
                first_label@,
                second_label@,
            ),
        decreases nglyphs - g,
    {
        let ghost pre = out@;
        assert(8 * g + 8 <= plen);
        if g == 0 {
            push_export_line(&mut out, first_label);
        }
        push_plane(&mut out, &pats, 8 * g, false);
        if g == 0 {
            push_export_line(&mut out, second_label);
        }
        push_plane(&mut out, &pats, 8 * g, true);
        g = g + 1;
        proof {
            assert(out@ =~= pre + glyph_block(
                pats@.subrange(8 * (g as int - 1), 8 * g as int),
                g as int - 1,
                first_label@,
                second_label@,
            ));
            assert(out@ =~= prologue@ + tables_text(
                pats@,
                g as int,
                first_label@,
                second_label@,
            ));
        }
    }

    push_section(&mut out, &canon, false, matching);
    push_slice(&mut out, row_end);
    push_section(&mut out, &canon, true, matching);
    push_section(&mut out, &extras, true, matching);
    push_section(&mut out, &extras, false, matching);
    push_slice(&mut out, epilogue);
    proof {
        assert(out@ =~= module_text(
            data@,
            first_label@,
            second_label@,
            initial_extras(extra),
            extra is Some,
            prologue@,
            row_end@,
            epilogue@,
        ));
    }
    out
}

/// A byte count that is a whole number of glyphs is a whole number of rows.
proof fn lemma_mod_breakdown(n: int)
    requires
        n >= 0,
        n % 64 == 0,
    ensures
        n % 8 == 0,
{
    assert(n % 8 == 0) by (nonlinear_arith)
        requires
            n >= 0,
            n % 64 == 0,
    ;
}

/// A buffer of whole glyphs packs into eight rows per glyph.
proof fn lemma_glyph_count(n: int)
    requires
        n >= 0,
        n % 64 == 0,
    ensures
        n / 8 == 8 * (n / 64),
{
    assert(n / 8 == 8 * (n / 64)) by (nonlinear_arith)
        requires
            n >= 0,
            n % 64 == 0,
    ;
}

} // verus!
