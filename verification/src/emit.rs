//! The store instructions that a row routine makes for one bit row.
//!
//! A routine paints one glyph row: the row byte is read as four 2-bit groups,
//! MSB-first, group `g` covering pixel columns `2g` and `2g + 1`. Each group
//! contributes zero, one or two store instructions.

use vstd::prelude::*;

verus! {

/// One store instruction of a row routine. A half store writes one
/// pixel-sized unit at a column; a merged store writes a double-width unit
/// spanning columns `col` and `col + 1`.
#[derive(Clone, Copy, PartialEq, Eq, Structural, Debug)]
pub enum StoreOp {
    Half { col: u8 },
    Merged { col: u8 },
}

/// The row pattern whose group 0 carries a hand-patched merged store in
/// matching double-width builds.
pub open spec fn patched_pattern() -> u8 {
    0xd8
}

/// The two bits of group `g` of a row byte, MSB-first.
pub open spec fn group_bits(row: u8, g: int) -> u8 {
    (row >> ((6 - 2 * g) as u8)) & 3
}

/// The store instructions that group `g` contributes.
///
/// - `00`: nothing.
/// - `01`: a half store at column `2g + 1`.
/// - `10`: a half store at column `2g`.
/// - `11`: two half stores in single-width mode; one merged store in
///   double-width mode — except that in double-width mode with the patch
///   flag, the pattern `0b11011000` at group 0 gets the merged store and a
///   trailing half store at column `2g + 1`.
pub open spec fn group_stores(row: u8, double: bool, patch: bool, g: int) -> Seq<StoreOp> {
    let pair = group_bits(row, g);
    let c0 = (2 * g) as u8;
    let c1 = (2 * g + 1) as u8;
    if pair == 0 {
        seq![]
    } else if pair == 1 {
        seq![StoreOp::Half { col: c1 }]
    } else if pair == 2 {
        seq![StoreOp::Half { col: c0 }]
    } else if double {
        if patch && row == patched_pattern() && g == 0 {
            seq![StoreOp::Merged { col: c0 }, StoreOp::Half { col: c1 }]
        } else {
            seq![StoreOp::Merged { col: c0 }]
        }
    } else {
        seq![StoreOp::Half { col: c0 }, StoreOp::Half { col: c1 }]
    }
}

/// All store instructions of the routine for `row`, groups in order.
pub open spec fn row_stores(row: u8, double: bool, patch: bool) -> Seq<StoreOp> {
    group_stores(row, double, patch, 0) + group_stores(row, double, patch, 1) + group_stores(
        row,
        double,
        patch,
        2,
    ) + group_stores(row, double, patch, 3)
}

/// Computes the store instructions of the routine for `row`.
pub fn emit_stores(row: u8, double: bool, patch: bool) -> (ops: Vec<StoreOp>)
    ensures
        ops@ == row_stores(row, double, patch),
{
    let mut ops: Vec<StoreOp> = Vec::new();
    let mut g: u8 = 0;
    while g < 4
        invariant
            g <= 4,
            ops@ == row_stores_upto(row, double, patch, g as int),
        decreases 4 - g,
    {
        let ghost pre = ops@;
        let pair = (row >> (6 - 2 * g)) & 3;
        assert(pair == group_bits(row, g as int)) by {
            assert((6 - 2 * g) as u8 == 6 - 2 * (g as int)) by (bit_vector)
                requires
                    g < 4,
            ;
        }
        let c0 = 2 * g;
        let c1 = 2 * g + 1;
        if pair == 0 {
        } else if pair == 1 {
            ops.push(StoreOp::Half { col: c1 });
        } else if pair == 2 {
            ops.push(StoreOp::Half { col: c0 });
        } else if double {
            if patch && row == 0xd8 && g == 0 {
                ops.push(StoreOp::Merged { col: c0 });
                ops.push(StoreOp::Half { col: c1 });
            } else {
                ops.push(StoreOp::Merged { col: c0 });
            }
        } else {
            ops.push(StoreOp::Half { col: c0 });
            ops.push(StoreOp::Half { col: c1 });
        }
        proof {
            assert(ops@ =~= pre + group_stores(row, double, patch, g as int));
        }
        g = g + 1;
    }
    proof {
        reveal_with_fuel(row_stores_upto, 5);
        assert(ops@ =~= row_stores(row, double, patch));
    }
    ops
}

/// The first `g` groups' stores, concatenated.
pub open spec fn row_stores_upto(row: u8, double: bool, patch: bool, g: int) -> Seq<StoreOp>
    decreases g,
{
    if g <= 0 {
        seq![]
    } else {
        row_stores_upto(row, double, patch, g - 1) + group_stores(row, double, patch, g - 1)
    }
}

/// Every column a store touches lies in the 8-pixel row.
pub proof fn lemma_row_stores_columns(row: u8, double: bool, patch: bool)
    ensures
        forall|k: int|
            0 <= k < row_stores(row, double, patch).len() ==> match #[trigger] row_stores(
                row,
                double,
                patch,
            )[k] {
                StoreOp::Half { col } => col < 8,
                StoreOp::Merged { col } => col < 7,
            },
{
}

/// The patch flag changes nothing outside the patched pattern: for every
/// other row byte, matching and plain double-width emission agree, and
/// single-width emission never reads the flag at all.
pub proof fn lemma_patch_only_patched_pattern(row: u8, p1: bool, p2: bool)
    ensures
        row != patched_pattern() ==> row_stores(row, true, p1) == row_stores(row, true, p2),
        row_stores(row, false, p1) == row_stores(row, false, p2),
{
    assert(row_stores(row, false, p1) =~= row_stores(row, false, p2));
    if row != patched_pattern() {
        assert(row_stores(row, true, p1) =~= row_stores(row, true, p2));
    }
}

/// The patched pattern under double-width matching emission: group 0 yields
/// one merged store then one half store; the rest of the row is unaffected
/// by the flag.
pub proof fn lemma_patched_pattern_stores()
    ensures
        row_stores(patched_pattern(), true, true) =~= seq![
            StoreOp::Merged { col: 0 },
            StoreOp::Half { col: 1 },
            StoreOp::Half { col: 3 },
            StoreOp::Half { col: 4 },
        ],
        row_stores(patched_pattern(), true, false) =~= seq![
            StoreOp::Merged { col: 0 },
            StoreOp::Half { col: 3 },
            StoreOp::Half { col: 4 },
        ],
{
    assert((0xd8u8 >> 6u8) & 3 == 3 && (0xd8u8 >> 4u8) & 3 == 1 && (0xd8u8 >> 2u8) & 3 == 2 && (
    0xd8u8 >> 0u8) & 3 == 0) by (bit_vector);
}

/// An empty row byte emits no store instruction in any mode.
pub proof fn lemma_empty_row_no_stores(double: bool, patch: bool)
    ensures
        row_stores(0, double, patch) =~= Seq::<StoreOp>::empty(),
{
    assert((0u8 >> 6u8) & 3 == 0 && (0u8 >> 4u8) & 3 == 0 && (0u8 >> 2u8) & 3 == 0 && (0u8
        >> 0u8) & 3 == 0) by (bit_vector);
}

} // verus!
