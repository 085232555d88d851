//! The canonical row-pattern table, glyph packing, and the extra-row table.
//!
//! A bit row is a `u8` whose bit `k` (MSB-first) says that pixel column `k`
//! of an 8-pixel-wide glyph row is lit.

use vstd::prelude::*;

verus! {

/// Entry `i` of the canonical row-pattern table.
pub open spec fn canonical_row(i: u8) -> u8 {
    ((i << 3) & 0xf8) | ((i >> 4) & 0x06)
}

/// The canonical table as a sequence, in index order.
pub open spec fn canonical_table() -> Seq<u8> {
    Seq::new(128, |j: int| canonical_row(j as u8))
}

/// The fixed 128-entry canonical table of row patterns, in index order.
/// It depends on nothing but the fixed formula, so every call returns the
/// same sequence.
pub fn canonical_rows() -> (rows: Vec<u8>)
    ensures
        rows@ == canonical_table(),
{
    let mut rows: Vec<u8> = Vec::new();
    let mut i: u8 = 0;
    while i < 128
        invariant
            i <= 128,
            rows@.len() == i as int,
            forall|j: int| 0 <= j < i as int ==> rows@[j] == canonical_row(j as u8),
        decreases 128 - i,
    {
        rows.push(((i << 3) & 0xf8) | ((i >> 4) & 0x06));
        i = i + 1;
    }
    assert(rows@ =~= canonical_table());
    rows
}

/// Determinism of the canonical table: any two sequences that meet the
/// contract of `canonical_rows` are equal, element by element and in order.
pub proof fn lemma_canonical_rows_deterministic(r1: Seq<u8>, r2: Seq<u8>)
    requires
        r1 == canonical_table(),
        r2 == canonical_table(),
    ensures
        r1 =~= r2,
        r1.len() == 128,
{
}

/// The canonical formula is injective on `[0, 128)`, so the canonical table
/// holds 128 distinct patterns.
pub proof fn lemma_canonical_table_distinct()
    ensures
        canonical_table().no_duplicates(),
{
    assert forall|a: int, b: int| 0 <= a < 128 && 0 <= b < 128 && a != b implies
        canonical_table()[a] != canonical_table()[b] by {
        let x = a as u8;
        let y = b as u8;
        assert(x < 128 && y < 128 && x != y ==> canonical_row(x) != canonical_row(y))
            by (bit_vector);
    }
}

/// 1 when the stored intensity byte counts as lit, 0 otherwise.
pub open spec fn lit_bit(px: u8) -> u8 {
    if px != 0 { 1 } else { 0 }
}

/// The bit row packed from a run of intensity bytes, first byte into the
/// most significant bit.
pub open spec fn pack_bits(pixels: Seq<u8>) -> u8
    decreases pixels.len(),
{
    if pixels.len() == 0 {
        0
    } else {
        (pack_bits(pixels.drop_last()) << 1) | lit_bit(pixels.last())
    }
}

/// All bit rows packed from a buffer of 8-byte pixel rows, in buffer order.
pub open spec fn row_patterns(data: Seq<u8>) -> Seq<u8> {
    Seq::new((data.len() / 8) as nat, |k: int| pack_bits(data.subrange(8 * k, 8 * k + 8)))
}

/// Packs the 8 intensity bytes starting at `start` into one bit row.
pub fn pack_row(data: &[u8], start: usize) -> (b: u8)
    requires
        start + 8 <= data@.len(),
    ensures
        b == pack_bits(data@.subrange(start as int, start as int + 8)),
{
    let len = data.len();
    let mut b: u8 = 0;
    let mut j: usize = 0;
    while j < 8
        invariant
            j <= 8,
            len == data@.len(),
            start + 8 <= len,
            b == pack_bits(data@.subrange(start as int, start as int + j as int)),
        decreases 8 - j,
    {
        let ghost pre = data@.subrange(start as int, start as int + j as int);
        let px = data[start + j];
        b = (b << 1) | (if px != 0 { 1 } else { 0 });
        j = j + 1;
        proof {
            let cur = data@.subrange(start as int, start as int + j as int);
            assert(cur.drop_last() =~= pre);
            assert(cur.last() == px);
        }
    }
    proof {
        assert(data@.subrange(start as int, start as int + 8) =~=
            data@.subrange(start as int, start as int + 8 as int));
    }
    b
}

/// Packs a whole pixel buffer, 8 bytes to a row, into its bit rows.
pub fn pack_rows(data: &[u8]) -> (pats: Vec<u8>)
    requires
        data@.len() % 8 == 0,
    ensures
        pats@ == row_patterns(data@),
{
    let mut pats: Vec<u8> = Vec::new();
    let len = data.len();
    let n = len / 8;
    let mut k: usize = 0;
    while k < n
        invariant
            k <= n,
            len == data@.len(),
            n == data@.len() / 8,
            data@.len() % 8 == 0,
            pats@.len() == k as int,
            forall|i: int| 0 <= i < k as int ==> pats@[i] == row_patterns(data@)[i],
        decreases n - k,
    {
        assert(8 * (k as int) + 8 <= data@.len());
        let b = pack_row(data, 8 * k);
        pats.push(b);
        k = k + 1;
    }
    assert(pats@ =~= row_patterns(data@));
    pats
}

/// Whether `x` occurs in `v`.
pub fn contains_byte(v: &Vec<u8>, x: u8) -> (r: bool)
    ensures
        r == v@.contains(x),
{
    let mut i: usize = 0;
    while i < v.len()
        invariant
            i <= v@.len(),
            forall|j: int| 0 <= j < i as int ==> v@[j] != x,
        decreases v@.len() - i,
    {
        if v[i] == x {
            return true;
        }
        i = i + 1;
    }
    false
}

/// The extra-row table after scanning `pats` left to right: a pattern absent
/// from `canon` and not yet recorded is appended at its first discovery.
pub open spec fn extras_after(canon: Seq<u8>, init: Seq<u8>, pats: Seq<u8>) -> Seq<u8>
    decreases pats.len(),
{
    if pats.len() == 0 {
        init
    } else {
        let prev = extras_after(canon, init, pats.drop_last());
        let x = pats.last();
        if canon.contains(x) || prev.contains(x) {
            prev
        } else {
            prev.push(x)
        }
    }
}

/// Builds the extra-row table: starts from `init` (rows packed from a
/// caller-supplied extra buffer, possibly empty) and appends each pattern of
/// `pats` that is neither canonical nor already recorded, in first-seen order.
pub fn collect_extra_rows(canon: &Vec<u8>, init: Vec<u8>, pats: &Vec<u8>) -> (extras: Vec<u8>)
    ensures
        extras@ == extras_after(canon@, init@, pats@),
{
    let mut extras = init;
    let mut i: usize = 0;
    while i < pats.len()
        invariant
            i <= pats@.len(),
            extras@ == extras_after(canon@, init@, pats@.subrange(0, i as int)),
        decreases pats@.len() - i,
    {
        let ghost pre = pats@.subrange(0, i as int);
        let p = pats[i];
        if !contains_byte(canon, p) && !contains_byte(&extras, p) {
            extras.push(p);
        }
        i = i + 1;
        proof {
            let cur = pats@.subrange(0, i as int);
            assert(cur.drop_last() =~= pre);
            assert(cur.last() == p);
        }
    }
    proof {
        assert(pats@.subrange(0, pats@.len() as int) =~= pats@);
    }
    extras
}

/// The starting table is kept as a prefix; discovered rows only append.
pub proof fn lemma_extras_prefix(canon: Seq<u8>, init: Seq<u8>, pats: Seq<u8>)
    ensures
        init.is_prefix_of(extras_after(canon, init, pats)),
    decreases pats.len(),
{
    if pats.len() > 0 {
        lemma_extras_prefix(canon, init, pats.drop_last());
    }
}

/// Membership in the extra-row table: exactly the starting rows plus the
/// scanned patterns that are not canonical.
pub proof fn lemma_extras_membership(canon: Seq<u8>, init: Seq<u8>, pats: Seq<u8>, x: u8)
    ensures
        extras_after(canon, init, pats).contains(x) <==> (init.contains(x) || (
        pats.contains(x) && !canon.contains(x))),
    decreases pats.len(),
{
    if pats.len() == 0 {
        assert(!pats.contains(x));
    } else {
        let q = pats.drop_last();
        let l = pats.last();
        lemma_extras_membership(canon, init, q, x);
        let prev = extras_after(canon, init, q);
        if canon.contains(l) || prev.contains(l) {
            assert(pats.contains(x) <==> (q.contains(x) || x == l)) by {
                lemma_contains_split(pats, x);
            }
        } else {
            assert(pats.contains(x) <==> (q.contains(x) || x == l)) by {
                lemma_contains_split(pats, x);
            }
            assert(prev.push(l).contains(x) <==> (prev.contains(x) || x == l)) by {
                lemma_contains_push(prev, l, x);
            }
        }
    }
}

/// `s` holds `x` exactly when its last element is `x` or an earlier one is.
proof fn lemma_contains_split(s: Seq<u8>, x: u8)
    requires
        s.len() > 0,
    ensures
        s.contains(x) <==> (s.drop_last().contains(x) || s.last() == x),
{
    if s.contains(x) {
        let i = choose|i: int| 0 <= i < s.len() && s[i] == x;
        if i < s.len() - 1 {
            assert(s.drop_last()[i] == x);
        }
    }
    if s.drop_last().contains(x) {
        let i = choose|i: int| 0 <= i < s.drop_last().len() && s.drop_last()[i] == x;
        assert(s[i] == x);
    }
}

/// `s.push(v)` holds `x` exactly when `s` does or `v == x`.
proof fn lemma_contains_push(s: Seq<u8>, v: u8, x: u8)
    ensures
        s.push(v).contains(x) <==> (s.contains(x) || v == x),
{
    assert(s.push(v).drop_last() =~= s);
    lemma_contains_split(s.push(v), x);
}

/// The extra-row table never records a value twice.
pub proof fn lemma_extras_no_duplicates(canon: Seq<u8>, init: Seq<u8>, pats: Seq<u8>)
    requires
        init.no_duplicates(),
    ensures
        extras_after(canon, init, pats).no_duplicates(),
    decreases pats.len(),
{
    if pats.len() > 0 {
        let q = pats.drop_last();
        let l = pats.last();
        lemma_extras_no_duplicates(canon, init, q);
        let prev = extras_after(canon, init, q);
        if !(canon.contains(l) || prev.contains(l)) {
            assert forall|a: int, b: int|
                0 <= a < prev.push(l).len() && 0 <= b < prev.push(l).len() && a != b implies
                prev.push(l)[a] != prev.push(l)[b] by {
                if a < prev.len() && b < prev.len() {
                } else if a < prev.len() {
                    assert(prev.contains(prev[a])) by {
                        assert(prev[a] == prev[a]);
                    }
                } else if b < prev.len() {
                    assert(prev.contains(prev[b]));
                }
            }
        }
    }
}

/// Routine deduplication: with a starting table free of duplicates and of
/// canonical rows, the full table of emitted routines for one plane — the
/// canonical table followed by the extra table — holds each pattern at most
/// once, and holds every pattern that occurs in the glyph rows. So a pattern
/// occurring in two or more glyph rows still has exactly one routine, and
/// every row's reference resolves to it.
pub proof fn lemma_routine_dedup(init: Seq<u8>, pats: Seq<u8>)
    requires
        init.no_duplicates(),
        forall|x: u8| init.contains(x) ==> !canonical_table().contains(x),
    ensures
        (canonical_table() + extras_after(canonical_table(), init, pats)).no_duplicates(),
        forall|b: u8|
            pats.contains(b) ==> (canonical_table() + extras_after(
                canonical_table(),
                init,
                pats,
            )).contains(b),
{
    let canon = canonical_table();
    let extras = extras_after(canon, init, pats);
    let all = canon + extras;
    lemma_canonical_table_distinct();
    lemma_extras_no_duplicates(canon, init, pats);
    assert forall|x: u8| extras.contains(x) implies !canon.contains(x) by {
        lemma_extras_membership(canon, init, pats, x);
    }
    assert forall|a: int, b: int| 0 <= a < all.len() && 0 <= b < all.len() && a != b implies
        all[a] != all[b] by {
        if a < canon.len() && b >= canon.len() {
            assert(extras.contains(extras[b - canon.len()]));
        } else if b < canon.len() && a >= canon.len() {
            assert(extras.contains(extras[a - canon.len()]));
        }
    }
    assert forall|b: u8| pats.contains(b) implies all.contains(b) by {
        lemma_extras_membership(canon, init, pats, b);
        if canon.contains(b) {
            let i = choose|i: int| 0 <= i < canon.len() && canon[i] == b;
            assert(all[i] == b);
        } else {
            assert(extras.contains(b));
            let i = choose|i: int| 0 <= i < extras.len() && extras[i] == b;
            assert(all[canon.len() + i] == b);
        }
    }
}

/// Index of the first occurrence of `x` in `pats`; `pats.len()` when absent.
pub open spec fn first_occ(pats: Seq<u8>, x: u8) -> int
    decreases pats.len(),
{
    if pats.len() == 0 {
        0
    } else if pats.drop_last().contains(x) {
        first_occ(pats.drop_last(), x)
    } else if pats.last() == x {
        pats.len() - 1
    } else {
        pats.len() as int
    }
}

/// `first_occ` is a genuine first occurrence.
pub proof fn lemma_first_occ(pats: Seq<u8>, x: u8)
    ensures
        pats.contains(x) ==> 0 <= first_occ(pats, x) < pats.len() && pats[first_occ(pats, x)]
            == x,
        !pats.contains(x) ==> first_occ(pats, x) == pats.len(),
    decreases pats.len(),
{
    if pats.len() > 0 {
        lemma_first_occ(pats.drop_last(), x);
        lemma_contains_split(pats, x);
        if pats.drop_last().contains(x) {
            assert(pats[first_occ(pats.drop_last(), x)] == pats.drop_last()[first_occ(
                pats.drop_last(),
                x,
            )]);
        }
    }
}

/// Rows discovered in the scan stand in the table in the order of their
/// first occurrence in the scanned patterns.
pub proof fn lemma_extras_first_seen_order(canon: Seq<u8>, init: Seq<u8>, pats: Seq<u8>)
    ensures
        forall|a: int, b: int|
            init.len() <= a < b < extras_after(canon, init, pats).len() ==> first_occ(
                pats,
                extras_after(canon, init, pats)[a],
            ) < first_occ(pats, extras_after(canon, init, pats)[b]),
    decreases pats.len(),
{
    let ex = extras_after(canon, init, pats);
    if pats.len() > 0 {
        let q = pats.drop_last();
        let l = pats.last();
        lemma_extras_first_seen_order(canon, init, q);
        let prev = extras_after(canon, init, q);
        assert forall|y: u8| q.contains(y) implies first_occ(pats, y) == first_occ(q, y) && 0
            <= first_occ(pats, y) < q.len() by {
            lemma_first_occ(q, y);
        }
        assert forall|a: int, b: int| init.len() <= a < b < ex.len() implies first_occ(
            pats,
            ex[a],
        ) < first_occ(pats, ex[b]) by {
            lemma_extras_prefix(canon, init, q);
            if b < prev.len() {
                // both entries already stood after scanning q
                assert(ex[a] == prev[a] && ex[b] == prev[b]);
                lemma_extras_membership(canon, init, q, prev[a]);
                lemma_extras_membership(canon, init, q, prev[b]);
                assert(q.contains(prev[a]) || init.contains(prev[a]));
                if init.contains(prev[a]) || init.contains(prev[b]) {
                    lemma_init_entries_scanned(canon, init, q, a);
                    lemma_init_entries_scanned(canon, init, q, b);
                }
                assert(q.contains(prev[a]) && q.contains(prev[b]));
            } else {
                // the last pattern was appended: it does not occur in q
                assert(!(canon.contains(l) || prev.contains(l)));
                assert(ex == prev.push(l));
                assert(b == prev.len() && ex[b] == l);
                assert(ex[a] == prev[a]);
                assert(!q.contains(l)) by {
                    lemma_extras_membership(canon, init, q, l);
                }
                assert(first_occ(pats, l) == pats.len() - 1);
                lemma_extras_membership(canon, init, q, prev[a]);
                if init.contains(prev[a]) {
                    lemma_init_entries_scanned(canon, init, q, a);
                }
                assert(q.contains(prev[a]));
                assert(first_occ(pats, prev[a]) < q.len());
            }
        }
    }
}

/// An entry of the extra table beyond the starting prefix always occurs in
/// the scanned patterns, even when the starting table also holds it.
proof fn lemma_init_entries_scanned(canon: Seq<u8>, init: Seq<u8>, pats: Seq<u8>, a: int)
    requires
        init.len() <= a < extras_after(canon, init, pats).len(),
    ensures
        pats.contains(extras_after(canon, init, pats)[a]),
    decreases pats.len(),
{
    let ex = extras_after(canon, init, pats);
    if pats.len() == 0 {
    } else {
        let q = pats.drop_last();
        let prev = extras_after(canon, init, q);
        if a < prev.len() {
            lemma_init_entries_scanned(canon, init, q, a);
            lemma_contains_split(pats, prev[a]);
            assert(ex[a] == prev[a]);
        } else {
            assert(ex == prev.push(pats.last()) && ex[a] == pats.last());
            lemma_contains_split(pats, pats.last());
        }
    }
}

} // verus!
