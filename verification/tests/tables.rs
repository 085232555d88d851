use rowfont::render::build;
use rowfont::rows::{canonical_rows, collect_extra_rows, contains_byte, pack_rows};

fn count_occurrences(haystack: &[u8], needle: &[u8]) -> usize {
    if needle.is_empty() || haystack.len() < needle.len() {
        return 0;
    }
    haystack.windows(needle.len()).filter(|w| *w == needle).count()
}

fn contains_text(haystack: &[u8], needle: &str) -> bool {
    count_occurrences(haystack, needle.as_bytes()) > 0
}

#[test]
fn extras_dedupe_and_keep_first_seen_order() {
    let canon = canonical_rows();
    let pats = vec![0x01u8, 0x03, 0x01, 0x00, 0x05, 0x03];
    let extras = collect_extra_rows(&canon, Vec::new(), &pats);
    // 0x00 is canonical; the rest are recorded once, in discovery order
    assert_eq!(extras, vec![0x01, 0x03, 0x05]);
}

#[test]
fn extras_start_from_given_rows() {
    let canon = canonical_rows();
    let pats = vec![0x09u8, 0x01];
    let extras = collect_extra_rows(&canon, vec![0x01, 0x07], &pats);
    assert_eq!(extras, vec![0x01, 0x07, 0x09]);
}

#[test]
fn contains_byte_matches_contents() {
    let v = vec![3u8, 5, 9];
    assert!(contains_byte(&v, 5));
    assert!(!contains_byte(&v, 4));
}

#[test]
fn module_layout_for_blank_glyph() {
    // one all-blank glyph: every row is the canonical pattern 0, no extras
    let data = vec![0u8; 64];
    let out = build(
        &data,
        b"FontSingle",
        b"FontDouble",
        None,
        b"<prologue>\n",
        b"<row_end>\n",
        b"<epilogue>\n",
    );
    assert!(out.starts_with(b"<prologue>\n"));
    assert!(out.ends_with(b"<epilogue>\n"));
    assert!(contains_text(&out, "EXPORT(FontSingle)\n"));
    assert!(contains_text(&out, "EXPORT(FontDouble)\n"));
    assert_eq!(count_occurrences(&out, b"    .word row_single_00000000\n"), 8);
    assert_eq!(count_occurrences(&out, b"    .word row_double_00000000\n"), 8);
    assert_eq!(count_occurrences(&out, b"    .word row_end\n"), 2);
    // each canonical pattern gets exactly one routine per plane
    assert_eq!(count_occurrences(&out, b"LEAF(row_single_"), 128);
    assert_eq!(count_occurrences(&out, b"LEAF(row_double_"), 128);
    assert_eq!(count_occurrences(&out, b"LEAF(row_single_00000000)\n"), 1);
}

#[test]
fn module_emits_one_routine_per_repeated_pattern() {
    // two glyphs whose rows repeat the non-canonical pattern 0b00000001
    let mut data = vec![0u8; 128];
    data[7] = 0xff; // glyph 0, row 0 -> 0b00000001
    data[71] = 0xff; // glyph 1, row 0 -> 0b00000001
    let out = build(
        &data,
        b"A",
        b"B",
        None,
        b"P\n",
        b"T\n",
        b"E\n",
    );
    // both references resolve to the same routine name, emitted once per plane
    assert_eq!(count_occurrences(&out, b"    .word row_single_00000001\n"), 2);
    assert_eq!(count_occurrences(&out, b"LEAF(row_single_00000001)\n"), 1);
    assert_eq!(count_occurrences(&out, b"LEAF(row_double_00000001)\n"), 1);
    assert_eq!(count_occurrences(&out, b"LEAF(row_single_"), 129);
    assert_eq!(count_occurrences(&out, b"LEAF(row_double_"), 129);
    // labels head only the first glyph's tables
    assert_eq!(count_occurrences(&out, b"EXPORT("), 2);
}

#[test]
fn matching_build_uses_extra_rows_and_patch() {
    // the extra buffer seeds the extra table; the patch text appears in the
    // canonical double-width section for the patched pattern
    let data = vec![0u8; 64];
    let mut extra_px = vec![0u8; 8];
    extra_px[7] = 1; // extra row 0b00000001
    let out = build(
        &data,
        b"A",
        b"B",
        Some(&extra_px),
        b"P\n",
        b"T\n",
        b"E\n",
    );
    assert_eq!(count_occurrences(&out, b"LEAF(row_double_00000001)\n"), 1);
    assert_eq!(count_occurrences(&out, b"LEAF(row_single_00000001)\n"), 1);
    // the patched routine body: merged store then half store in group 0
    assert!(contains_text(
        &out,
        "LEAF(row_double_11011000)\n    lw     s0, 0(a0)\n    addi   a0, a0, 4\n    sw     s1, 0(a1)\n    sh     s1, 2(a1)\n"
    ));
    // without the extra buffer the same body keeps the plain merged store
    let plain = build(&data, b"A", b"B", None, b"P\n", b"T\n", b"E\n");
    assert!(contains_text(
        &plain,
        "LEAF(row_double_11011000)\n    lw     s0, 0(a0)\n    addi   a0, a0, 4\n    sw     s1, 0(a1)\n    sh     s1, 6(a1)\n"
    ));
}

#[test]
fn section_order_is_single_end_double_extras() {
    let mut data = vec![0u8; 64];
    data[7] = 0xff; // one extra pattern 0b00000001
    let out = build(&data, b"A", b"B", None, b"P\n", b"TERM\n", b"E\n");
    let single0 = out
        .windows(b"LEAF(row_single_00000000)".len())
        .position(|w| w == b"LEAF(row_single_00000000)")
        .unwrap();
    let term = count_occurrences(&out[..single0], b"TERM\n");
    assert_eq!(term, 0, "terminator asset comes after the single-width section");
    let double0 = out
        .windows(b"LEAF(row_double_00000000)".len())
        .position(|w| w == b"LEAF(row_double_00000000)")
        .unwrap();
    let extra_double = out
        .windows(b"LEAF(row_double_00000001)".len())
        .position(|w| w == b"LEAF(row_double_00000001)")
        .unwrap();
    let extra_single = out
        .windows(b"LEAF(row_single_00000001)".len())
        .position(|w| w == b"LEAF(row_single_00000001)")
        .unwrap();
    assert!(single0 < double0);
    assert!(double0 < extra_double);
    assert!(extra_double < extra_single);
}

#[test]
fn packing_groups_rows_per_glyph() {
    let mut data = vec![0u8; 128];
    for k in 0..8 {
        data[8 * k + k] = 0xff; // glyph 0: a diagonal
    }
    let pats = pack_rows(&data);
    assert_eq!(pats.len(), 16);
    assert_eq!(
        &pats[..8],
        &[0x80, 0x40, 0x20, 0x10, 0x08, 0x04, 0x02, 0x01]
    );
    assert_eq!(&pats[8..], &[0u8; 8]);
}
