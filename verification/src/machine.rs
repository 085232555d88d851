//! The machine-word encoding of row routines.
//!
//! The emitter writes routines as assembly text; an assembler turns each
//! line into one 32-bit word. This module states that encoding directly, so
//! that the decoder can be held to it: decoding an encoded routine gives
//! back the thresholded source row.

use vstd::prelude::*;

use crate::decode::JR_WORD;
use crate::decode::ROW_PROLOGUE_0;
use crate::decode::ROW_PROLOGUE_1;
use crate::decode::ParseStep;
use crate::decode::StoreScan;
use crate::decode::apply_half;
use crate::decode::apply_merged;
use crate::decode::be32_at;
use crate::decode::blank_row;
use crate::decode::can_read;
use crate::decode::parse_at;
use crate::decode::scan_stores;
use crate::emit::StoreOp;
use crate::emit::emit_stores;
use crate::emit::group_bits;
use crate::emit::group_stores;
use crate::emit::lemma_row_stores_columns;
use crate::emit::row_stores;
use crate::emit::row_stores_upto;
use crate::rows::lit_bit;
use crate::rows::pack_bits;

verus! {

/// The delay-slot word after the return jump: `addi a1, a1, 1280`.
pub const DELAY_WORD: u32 = 0x20A50500;

/// The word a store instruction assembles to: `sh s1, off(a1)` or
/// `sw s1, off(a1)`, with the byte offset twice the column.
pub open spec fn store_word(op: StoreOp) -> u32 {
    match op {
        StoreOp::Half { col } => 0xA4B10000u32 | ((col as u32) << 1u32),
        StoreOp::Merged { col } => 0xACB10000u32 | ((col as u32) << 1u32),
    }
}

/// The words of the routine for `row`: prologue, stores, return jump and
/// its delay slot.
pub open spec fn routine_words(row: u8, double: bool, patch: bool) -> Seq<u32> {
    seq![ROW_PROLOGUE_0, ROW_PROLOGUE_1] + row_stores(row, double, patch).map_values(
        |op: StoreOp| store_word(op),
    ) + seq![JR_WORD, DELAY_WORD]
}

/// The four big-endian bytes of `w`.
pub open spec fn be_bytes(w: u32) -> Seq<u8> {
    seq![
        (w / 0x1000000) as u8,
        ((w / 0x10000) % 0x100) as u8,
        ((w / 0x100) % 0x100) as u8,
        (w % 0x100) as u8,
    ]
}

/// The words serialized big-endian, in order.
pub open spec fn words_bytes(ws: Seq<u32>) -> Seq<u8>
    decreases ws.len(),
{
    if ws.len() == 0 {
        seq![]
    } else {
        words_bytes(ws.drop_last()) + be_bytes(ws.last())
    }
}

/// Serialization appends word by word.
pub proof fn lemma_words_bytes_push(ws: Seq<u32>, w: u32)
    ensures
        words_bytes(ws.push(w)) == words_bytes(ws) + be_bytes(w),
{
    assert(ws.push(w).drop_last() =~= ws);
    assert(ws.push(w).last() == w);
}

/// Appends the big-endian bytes of `w`.
pub fn push_be32(out: &mut Vec<u8>, w: u32)
    ensures
        final(out)@ == old(out)@ + be_bytes(w),
{
    out.push((w / 0x1000000) as u8);
    out.push(((w / 0x10000) % 0x100) as u8);
    out.push(((w / 0x100) % 0x100) as u8);
    out.push((w % 0x100) as u8);
    proof {
        assert(out@ =~= old(out)@ + be_bytes(w));
    }
}

/// Encodes the routine for `row` into its machine words, serialized
/// big-endian: what an assembler makes of the emitted routine text.
pub fn encode_routine(row: u8, double: bool, patch: bool) -> (out: Vec<u8>)
    ensures
        out@ == words_bytes(routine_words(row, double, patch)),
{
    let ghost ws = routine_words(row, double, patch);
    let mut out: Vec<u8> = Vec::new();
    push_be32(&mut out, ROW_PROLOGUE_0);
    push_be32(&mut out, ROW_PROLOGUE_1);
    let ops = emit_stores(row, double, patch);
    proof {
        lemma_row_stores_columns(row, double, patch);
        lemma_words_bytes_push(Seq::<u32>::empty(), ROW_PROLOGUE_0);
        lemma_words_bytes_push(Seq::<u32>::empty().push(ROW_PROLOGUE_0), ROW_PROLOGUE_1);
        assert(seq![ROW_PROLOGUE_0, ROW_PROLOGUE_1] + ops@.take(0).map_values(
            |op: StoreOp| store_word(op),
        ) =~= Seq::<u32>::empty().push(ROW_PROLOGUE_0).push(ROW_PROLOGUE_1));
        assert(out@ =~= words_bytes(
            seq![ROW_PROLOGUE_0, ROW_PROLOGUE_1] + ops@.take(0).map_values(
                |op: StoreOp| store_word(op),
            ),
        ));
    }
    let mut i: usize = 0;
    while i < ops.len()
        invariant
            i <= ops@.len(),
            ops@ == row_stores(row, double, patch),
            forall|k: int|
                0 <= k < ops@.len() ==> match #[trigger] ops@[k] {
                    StoreOp::Half { col } => col < 8,
                    StoreOp::Merged { col } => col < 7,
                },
            out@ == words_bytes(
                seq![ROW_PROLOGUE_0, ROW_PROLOGUE_1] + ops@.take(i as int).map_values(
                    |op: StoreOp| store_word(op),
                ),
            ),
        decreases ops@.len() - i,
    {
        let ghost pre = seq![ROW_PROLOGUE_0, ROW_PROLOGUE_1] + ops@.take(i as int).map_values(
            |op: StoreOp| store_word(op),
        );
        let w = match ops[i] {
            StoreOp::Half { col } => 0xA4B10000 | ((col as u32) << 1u32),
            StoreOp::Merged { col } => 0xACB10000 | ((col as u32) << 1u32),
        };
        push_be32(&mut out, w);
        i = i + 1;
        proof {
            let cur = seq![ROW_PROLOGUE_0, ROW_PROLOGUE_1] + ops@.take(i as int).map_values(
                |op: StoreOp| store_word(op),
            );
            assert(cur =~= pre.push(store_word(ops@[i - 1])));
            lemma_words_bytes_push(pre, store_word(ops@[i - 1]));
            assert(w == store_word(ops@[i - 1]));
            assert(out@ =~= words_bytes(cur));
        }
    }
    push_be32(&mut out, JR_WORD);
    push_be32(&mut out, DELAY_WORD);
    proof {
        assert(ops@.take(ops@.len() as int) =~= ops@);
        let full = seq![ROW_PROLOGUE_0, ROW_PROLOGUE_1] + ops@.map_values(
            |op: StoreOp| store_word(op),
        );
        lemma_words_bytes_push(full, JR_WORD);
        lemma_words_bytes_push(full.push(JR_WORD), DELAY_WORD);
        assert(ws =~= full.push(JR_WORD).push(DELAY_WORD));
        assert(out@ =~= words_bytes(ws));
    }
    out
}

/// Serialization gives four bytes per word.
pub proof fn lemma_words_bytes_len(ws: Seq<u32>)
    ensures
        words_bytes(ws).len() == 4 * ws.len(),
    decreases ws.len(),
{
    if ws.len() > 0 {
        lemma_words_bytes_len(ws.drop_last());
    }
}

/// The four big-endian bytes of a word recombine to the word.
proof fn lemma_be_recombine(w: u32)
    ensures
        0x1000000 * (w as int / 0x1000000) + 0x10000 * ((w as int / 0x10000) % 0x100) + 0x100 * ((
        w as int / 0x100) % 0x100) + (w as int % 0x100) == w as int,
{
    assert(0x1000000 * (w as int / 0x1000000) + 0x10000 * ((w as int / 0x10000) % 0x100) + 0x100
        * ((w as int / 0x100) % 0x100) + (w as int % 0x100) == w as int) by (nonlinear_arith);
}

/// Reading the serialized words back, word by word, gives the words.
pub proof fn lemma_word_at(ws: Seq<u32>, k: int)
    requires
        0 <= k < ws.len(),
    ensures
        be32_at(words_bytes(ws), 4 * k) == ws[k],
    decreases ws.len(),
{
    lemma_words_bytes_len(ws);
    let q = ws.drop_last();
    lemma_words_bytes_len(q);
    if k < ws.len() - 1 {
        lemma_word_at(q, k);
        assert(words_bytes(ws)[4 * k] == words_bytes(q)[4 * k]);
        assert(words_bytes(ws)[4 * k + 1] == words_bytes(q)[4 * k + 1]);
        assert(words_bytes(ws)[4 * k + 2] == words_bytes(q)[4 * k + 2]);
        assert(words_bytes(ws)[4 * k + 3] == words_bytes(q)[4 * k + 3]);
    } else {
        let w = ws.last();
        assert(words_bytes(ws)[4 * k] == be_bytes(w)[0]);
        assert(words_bytes(ws)[4 * k + 1] == be_bytes(w)[1]);
        assert(words_bytes(ws)[4 * k + 2] == be_bytes(w)[2]);
        assert(words_bytes(ws)[4 * k + 3] == be_bytes(w)[3]);
        lemma_be_recombine(w);
    }
}

/// One emitted store, replayed on a row as the decoder replays it.
pub open spec fn apply_op(px: Seq<u8>, op: StoreOp) -> Seq<u8> {
    match op {
        StoreOp::Half { col } => apply_half(px, col as int),
        StoreOp::Merged { col } => apply_merged(px, col as int),
    }
}

/// The emitted stores replayed in order.
pub open spec fn apply_ops(px: Seq<u8>, ops: Seq<StoreOp>) -> Seq<u8>
    decreases ops.len(),
{
    if ops.len() == 0 {
        px
    } else {
        apply_ops(apply_op(px, ops.first()), ops.drop_first())
    }
}

/// Replaying a single store.
proof fn lemma_apply_ops_one(px: Seq<u8>, op: StoreOp)
    ensures
        apply_ops(px, seq![op]) == apply_op(px, op),
{
    assert(seq![op].first() == op);
    assert(seq![op].drop_first() =~= Seq::<StoreOp>::empty());
    assert(apply_ops(apply_op(px, op), Seq::<StoreOp>::empty()) == apply_op(px, op));
}

/// Replaying two stores in order.
proof fn lemma_apply_ops_two(px: Seq<u8>, op1: StoreOp, op2: StoreOp)
    ensures
        apply_ops(px, seq![op1, op2]) == apply_op(apply_op(px, op1), op2),
{
    assert(seq![op1, op2].first() == op1);
    assert(seq![op1, op2].drop_first() =~= seq![op2]);
    lemma_apply_ops_one(apply_op(px, op1), op2);
}

/// Replay distributes over concatenation.
proof fn lemma_apply_ops_concat(px: Seq<u8>, a: Seq<StoreOp>, b: Seq<StoreOp>)
    ensures
        apply_ops(px, a + b) == apply_ops(apply_ops(px, a), b),
    decreases a.len(),
{
    if a.len() == 0 {
        assert(a + b =~= b);
    } else {
        assert((a + b).first() == a.first());
        assert((a + b).drop_first() =~= a.drop_first() + b);
        lemma_apply_ops_concat(apply_op(px, a.first()), a.drop_first(), b);
    }
}

/// Whether a store's column lies in the row (one column for a half store,
/// two for a merged one).
pub open spec fn op_in_row(op: StoreOp) -> bool {
    match op {
        StoreOp::Half { col } => col < 8,
        StoreOp::Merged { col } => col < 7,
    }
}

/// The decoder's store loop, run over serialized store words followed by
/// the return jump, replays exactly those stores.
pub proof fn lemma_scan_encoded(data: Seq<u8>, pos: int, ops: Seq<StoreOp>, px: Seq<u8>)
    requires
        px.len() == 8,
        forall|k: int| 0 <= k < ops.len() ==> op_in_row(#[trigger] ops[k]),
        forall|k: int|
            0 <= k < ops.len() ==> #[trigger] be32_at(data, pos + 4 * k) == store_word(ops[k]),
        be32_at(data, pos + 4 * ops.len()) == JR_WORD,
        0 <= pos,
        pos + 4 * ops.len() + 4 <= data.len(),
    ensures
        scan_stores(data, pos, px) == (StoreScan::Done {
            pixels: apply_ops(px, ops),
            next: pos + 4 * ops.len() + 4,
        }),
    decreases ops.len(),
{
    if ops.len() == 0 {
        assert(be32_at(data, pos) == JR_WORD);
    } else {
        let op = ops.first();
        assert(be32_at(data, pos + 4 * 0) == store_word(ops[0]));
        let w = store_word(op);
        match op {
            StoreOp::Half { col } => {
                let cw = col as u32;
                assert(cw < 8 && w == 0xA4B10000u32 | (cw << 1u32));
                assert((cw < 8 && w == 0xA4B10000u32 | (cw << 1u32)) ==> w != 0x02000008u32 && (w
                    & 0xfc000000u32) != 0xac000000u32 && ((w & 0xffffu32) >> 1u32) == cw)
                    by (bit_vector);
            },
            StoreOp::Merged { col } => {
                let cw = col as u32;
                assert(cw < 7 && w == 0xACB10000u32 | (cw << 1u32));
                assert((cw < 7 && w == 0xACB10000u32 | (cw << 1u32)) ==> w != 0x02000008u32 && (w
                    & 0xfc000000u32) == 0xac000000u32 && ((w & 0xffffu32) >> 1u32) == cw)
                    by (bit_vector);
            },
        }
        let rest = ops.drop_first();
        let px1 = apply_op(px, op);
        assert(px1.len() == 8);
        assert forall|k: int| 0 <= k < rest.len() implies #[trigger] be32_at(
            data,
            (pos + 4) + 4 * k,
        ) == store_word(rest[k]) by {
            assert(be32_at(data, pos + 4 * (k + 1)) == store_word(ops[k + 1]));
        }
        assert(be32_at(data, (pos + 4) + 4 * rest.len()) == JR_WORD);
        lemma_scan_encoded(data, pos + 4, rest, px1);
        assert(apply_ops(px, ops) == apply_ops(px1, rest));
    }
}

/// The source row thresholded: full intensity where the bit row has the
/// pixel lit, blank where it has not.
pub open spec fn threshold_row(row: u8) -> Seq<u8> {
    Seq::new(8, |k: int| if (row >> ((7 - k) as u8)) & 1 == 1 {
        0xffu8
    } else {
        0u8
    })
}

/// Replaying the single-width stores of the first `g` groups paints exactly
/// the lit columns below `2 * g`, at full intensity.
proof fn lemma_apply_upto_single(row: u8, patch: bool, g: int)
    requires
        0 <= g <= 4,
    ensures
        apply_ops(blank_row(), row_stores_upto(row, false, patch, g)) =~= Seq::new(
            8,
            |k: int|
                if k < 2 * g && (row >> ((7 - k) as u8)) & 1 == 1 {
                    0xffu8
                } else {
                    0u8
                },
        ),
    decreases g,
{
    let partial = |h: int|
        Seq::new(
            8,
            |k: int|
                if k < 2 * h && (row >> ((7 - k) as u8)) & 1 == 1 {
                    0xffu8
                } else {
                    0u8
                },
        );
    if g == 0 {
        assert(apply_ops(blank_row(), row_stores_upto(row, false, patch, 0)) =~= blank_row());
        assert(blank_row() =~= partial(0));
    } else {
        lemma_apply_upto_single(row, patch, g - 1);
        let prev = apply_ops(blank_row(), row_stores_upto(row, false, patch, g - 1));
        let grp = group_stores(row, false, patch, g - 1);
        lemma_apply_ops_concat(blank_row(), row_stores_upto(row, false, patch, g - 1), grp);
        let c: u8 = (6 - 2 * (g - 1)) as u8;
        let pair = group_bits(row, g - 1);
        assert(c < 7 ==> (row >> c) & 3 == 2 * ((row >> ((c + 1) as u8)) & 1) + ((row >> c) & 1)
            && ((row >> ((c + 1) as u8)) & 1) <= 1 && ((row >> c) & 1) <= 1) by (bit_vector);
        assert((7 - (2 * (g - 1))) as u8 == (c + 1) as u8);
        assert((7 - (2 * (g - 1) + 1)) as u8 == c);
        let hi = (row >> ((c + 1) as u8)) & 1;
        let lo = (row >> c) & 1;
        assert(pair == 2 * hi + lo);
        let c0 = 2 * (g - 1);
        let c1 = 2 * (g - 1) + 1;
        assert(prev[c0] == 0 && prev[c1] == 0);
        if pair == 0 {
            assert(hi == 0 && lo == 0);
            assert(grp =~= Seq::<StoreOp>::empty());
            assert(apply_ops(prev, grp) == prev);
            assert(prev =~= partial(g));
        } else if pair == 1 {
            assert(hi == 0 && lo == 1);
            assert(grp =~= seq![StoreOp::Half { col: c1 as u8 }]);
            lemma_apply_ops_one(prev, StoreOp::Half { col: c1 as u8 });
            assert(apply_ops(prev, grp) == apply_half(prev, c1));
            assert(apply_half(prev, c1) =~= partial(g));
        } else if pair == 2 {
            assert(hi == 1 && lo == 0);
            assert(grp =~= seq![StoreOp::Half { col: c0 as u8 }]);
            lemma_apply_ops_one(prev, StoreOp::Half { col: c0 as u8 });
            assert(apply_ops(prev, grp) == apply_half(prev, c0));
            assert(apply_half(prev, c0) =~= partial(g));
        } else {
            assert(pair == 3 && hi == 1 && lo == 1);
            assert(grp =~= seq![StoreOp::Half { col: c0 as u8 }, StoreOp::Half { col: c1 as u8 }]);
            lemma_apply_ops_two(prev, StoreOp::Half { col: c0 as u8 }, StoreOp::Half {
                col: c1 as u8,
            });
            assert(apply_ops(prev, grp) == apply_half(apply_half(prev, c0), c1));
            assert(apply_half(apply_half(prev, c0), c1) =~= partial(g));
        }
    }
}

/// Decoding the encoded single-width routine of a row recovers the
/// thresholded row exactly: the round trip through machine code is lossless
/// for rows painted with half stores alone.
pub proof fn lemma_round_trip_single(row: u8, patch: bool)
    ensures
        parse_at(words_bytes(routine_words(row, false, patch)), 0) == (ParseStep::Rowed {
            pixels: threshold_row(row),
            next: words_bytes(routine_words(row, false, patch)).len() as int,
        }),
{
    let ops = row_stores(row, false, patch);
    let ws = routine_words(row, false, patch);
    let data = words_bytes(ws);
    let n = ops.len() as int;
    lemma_words_bytes_len(ws);
    assert(ws.len() == n + 4);
    lemma_word_at(ws, 0);
    lemma_word_at(ws, 1);
    assert(ws[0] == ROW_PROLOGUE_0 && ws[1] == ROW_PROLOGUE_1);
    lemma_row_stores_columns(row, false, patch);
    assert forall|k: int| 0 <= k < n implies #[trigger] be32_at(data, 8 + 4 * k) == store_word(
        ops[k],
    ) by {
        lemma_word_at(ws, 2 + k);
        assert(ws[2 + k] == ops.map_values(|op: StoreOp| store_word(op))[k]);
    }
    assert forall|k: int| 0 <= k < n implies op_in_row(#[trigger] ops[k]) by {
        assert(0 <= k < row_stores(row, false, patch).len());
    }
    lemma_word_at(ws, 2 + n);
    assert(be32_at(data, 8 + 4 * n) == JR_WORD);
    lemma_scan_encoded(data, 8, ops, blank_row());
    assert(scan_stores(data, 8, blank_row()) == (StoreScan::Done {
        pixels: apply_ops(blank_row(), ops),
        next: 12 + 4 * n,
    }));
    lemma_word_at(ws, 3 + n);
    assert(can_read(data, 12 + 4 * n, 4));
    lemma_apply_upto_single(row, patch, 4);
    reveal_with_fuel(row_stores_upto, 5);
    assert(row_stores_upto(row, false, patch, 4) =~= ops);
    assert(apply_ops(blank_row(), ops) =~= threshold_row(row));
}

/// Bit `k` (MSB-first, among the low `s.len()` bits) of a packed row is the
/// thresholded pixel `k`; a row of fewer than 8 pixels packs below the
/// corresponding power of two.
pub proof fn lemma_pack_bits_bits(s: Seq<u8>)
    requires
        s.len() <= 8,
    ensures
        s.len() < 8 ==> pack_bits(s) < (1u8 << (s.len() as u8)),
        forall|k: int|
            0 <= k < s.len() ==> (pack_bits(s) >> ((s.len() - 1 - k) as u8)) & 1 == lit_bit(
                #[trigger] s[k],
            ),
    decreases s.len(),
{
    if s.len() == 0 {
        assert(pack_bits(s) == 0);
        assert((1u8 << 0u8) == 1) by (bit_vector);
    } else {
        let q = s.drop_last();
        lemma_pack_bits_bits(q);
        let p = pack_bits(q);
        let b = lit_bit(s.last());
        let m = q.len() as u8;
        let v = pack_bits(s);
        assert(v == (p << 1) | b);
        assert(b <= 1);
        if m < 8 {
            assert(p < (1u8 << m));
        } else {
            assert(false);
        }
        assert((p < (1u8 << m) && m < 7 && b <= 1) ==> ((p << 1) | b) < (1u8 << ((m + 1) as u8)))
            by (bit_vector);
        if s.len() < 8 {
            assert((m + 1) as u8 == s.len() as u8);
        }
        assert(b <= 1 ==> (((p << 1) | b) >> 0u8) & 1 == b) by (bit_vector);
        assert forall|k: int| 0 <= k < s.len() - 1 implies (v >> ((s.len() - 1 - k) as u8)) & 1
            == lit_bit(s[k]) by {
            let j = (s.len() - 1 - k) as u8;
            assert((p < (1u8 << m) && m <= 7 && b <= 1 && 1 <= j && j <= 7) ==> ((((p << 1) | b)
                >> j) & 1 == (p >> ((j - 1) as u8)) & 1)) by (bit_vector);
            assert((q.len() - 1 - k) as u8 == (j - 1) as u8);
            assert((p >> ((j - 1) as u8)) & 1 == lit_bit(q[k]));
            assert(q[k] == s[k]);
        }
    }
}

/// What the double-width routine of a row decodes to: a group whose two
/// bits are both set was painted by one merged store and reads back at mid
/// intensity on both columns; a group with one bit set reads back at full
/// intensity on that column; unlit columns stay blank.
pub open spec fn double_row(row: u8) -> Seq<u8> {
    Seq::new(
        8,
        |k: int|
            if group_bits(row, k / 2) == 3 {
                0x7fu8
            } else if (row >> ((7 - k) as u8)) & 1 == 1 {
                0xffu8
            } else {
                0u8
            },
    )
}

/// Replaying the plain double-width stores of the first `g` groups paints
/// exactly the lit columns below `2 * g`, merged pairs at mid intensity.
proof fn lemma_apply_upto_double(row: u8, g: int)
    requires
        0 <= g <= 4,
    ensures
        apply_ops(blank_row(), row_stores_upto(row, true, false, g)) =~= Seq::new(
            8,
            |k: int|
                if k < 2 * g {
                    double_row(row)[k]
                } else {
                    0u8
                },
        ),
    decreases g,
{
    let partial = |h: int|
        Seq::new(
            8,
            |k: int|
                if k < 2 * h {
                    double_row(row)[k]
                } else {
                    0u8
                },
        );
    if g == 0 {
        assert(apply_ops(blank_row(), row_stores_upto(row, true, false, 0)) =~= blank_row());
        assert(blank_row() =~= partial(0));
    } else {
        lemma_apply_upto_double(row, g - 1);
        let prev = apply_ops(blank_row(), row_stores_upto(row, true, false, g - 1));
        let grp = group_stores(row, true, false, g - 1);
        lemma_apply_ops_concat(blank_row(), row_stores_upto(row, true, false, g - 1), grp);
        let c: u8 = (6 - 2 * (g - 1)) as u8;
        let pair = group_bits(row, g - 1);
        assert(c < 7 ==> (row >> c) & 3 == 2 * ((row >> ((c + 1) as u8)) & 1) + ((row >> c) & 1)
            && ((row >> ((c + 1) as u8)) & 1) <= 1 && ((row >> c) & 1) <= 1) by (bit_vector);
        assert((7 - (2 * (g - 1))) as u8 == (c + 1) as u8);
        assert((7 - (2 * (g - 1) + 1)) as u8 == c);
        let hi = (row >> ((c + 1) as u8)) & 1;
        let lo = (row >> c) & 1;
        assert(pair == 2 * hi + lo);
        let c0 = 2 * (g - 1);
        let c1 = 2 * (g - 1) + 1;
        assert(prev[c0] == 0 && prev[c1] == 0);
        assert(c0 / 2 == g - 1 && c1 / 2 == g - 1);
        if pair == 0 {
            assert(hi == 0 && lo == 0);
            assert(grp =~= Seq::<StoreOp>::empty());
            assert(apply_ops(prev, grp) == prev);
            assert(prev =~= partial(g));
        } else if pair == 1 {
            assert(hi == 0 && lo == 1);
            assert(grp =~= seq![StoreOp::Half { col: c1 as u8 }]);
            lemma_apply_ops_one(prev, StoreOp::Half { col: c1 as u8 });
            assert(apply_ops(prev, grp) == apply_half(prev, c1));
            assert(apply_half(prev, c1) =~= partial(g));
        } else if pair == 2 {
            assert(hi == 1 && lo == 0);
            assert(grp =~= seq![StoreOp::Half { col: c0 as u8 }]);
            lemma_apply_ops_one(prev, StoreOp::Half { col: c0 as u8 });
            assert(apply_ops(prev, grp) == apply_half(prev, c0));
            assert(apply_half(prev, c0) =~= partial(g));
        } else {
            assert(pair == 3 && hi == 1 && lo == 1);
            assert(grp =~= seq![StoreOp::Merged { col: c0 as u8 }]);
            lemma_apply_ops_one(prev, StoreOp::Merged { col: c0 as u8 });
            assert(apply_ops(prev, grp) == apply_merged(prev, c0));
            assert(apply_merged(prev, c0) =~= partial(g));
        }
    }
}

/// Decoding the encoded plain double-width routine of a row recovers the
/// row's lit columns: merged pairs at mid intensity, single columns at full
/// intensity, unlit columns blank.
pub proof fn lemma_round_trip_double(row: u8)
    ensures
        parse_at(words_bytes(routine_words(row, true, false)), 0) == (ParseStep::Rowed {
            pixels: double_row(row),
            next: words_bytes(routine_words(row, true, false)).len() as int,
        }),
{
    let ops = row_stores(row, true, false);
    let ws = routine_words(row, true, false);
    let data = words_bytes(ws);
    let n = ops.len() as int;
    lemma_words_bytes_len(ws);
    assert(ws.len() == n + 4);
    lemma_word_at(ws, 0);
    lemma_word_at(ws, 1);
    assert(ws[0] == ROW_PROLOGUE_0 && ws[1] == ROW_PROLOGUE_1);
    lemma_row_stores_columns(row, true, false);
    assert forall|k: int| 0 <= k < n implies #[trigger] be32_at(data, 8 + 4 * k) == store_word(
        ops[k],
    ) by {
        lemma_word_at(ws, 2 + k);
        assert(ws[2 + k] == ops.map_values(|op: StoreOp| store_word(op))[k]);
    }
    assert forall|k: int| 0 <= k < n implies op_in_row(#[trigger] ops[k]) by {
        assert(0 <= k < row_stores(row, true, false).len());
    }
    lemma_word_at(ws, 2 + n);
    assert(be32_at(data, 8 + 4 * n) == JR_WORD);
    lemma_scan_encoded(data, 8, ops, blank_row());
    lemma_word_at(ws, 3 + n);
    assert(can_read(data, 12 + 4 * n, 4));
    lemma_apply_upto_double(row, 4);
    reveal_with_fuel(row_stores_upto, 5);
    assert(row_stores_upto(row, true, false, 4) =~= ops);
    assert(apply_ops(blank_row(), ops) =~= double_row(row));
}

/// The full round trip: pack a black/white pixel row, encode its
/// single-width routine, decode the code — the recovered row is the source
/// row itself.
pub proof fn lemma_round_trip_pixels(s: Seq<u8>, patch: bool)
    requires
        s.len() == 8,
        forall|k: int| 0 <= k < 8 ==> s[k] == 0 || #[trigger] s[k] == 0xff,
    ensures
        parse_at(words_bytes(routine_words(pack_bits(s), false, patch)), 0) == (ParseStep::Rowed {
            pixels: s,
            next: words_bytes(routine_words(pack_bits(s), false, patch)).len() as int,
        }),
{
    lemma_round_trip_single(pack_bits(s), patch);
    lemma_pack_bits_bits(s);
    assert(threshold_row(pack_bits(s)) =~= s);
}

} // verus!
