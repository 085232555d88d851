use rowfont::emit::{StoreOp, emit_stores};
use rowfont::render::build_function;
use rowfont::rows::{canonical_rows, pack_rows};

fn text(v: Vec<u8>) -> String {
    String::from_utf8(v).expect("emitted text is ASCII")
}

#[test]
fn canonical_rows_deterministic() {
    let a = canonical_rows();
    let b = canonical_rows();
    assert_eq!(a.len(), 128);
    assert_eq!(a, b);
}

#[test]
fn canonical_rows_formula_values() {
    let rows = canonical_rows();
    assert_eq!(rows[0], 0x00);
    assert_eq!(rows[1], 0x08);
    assert_eq!(rows[16], 0x80);
    assert_eq!(rows[27], 0xd8);
    assert_eq!(rows[127], 0xfe);
    for (i, &r) in rows.iter().enumerate() {
        let i = i as u8;
        assert_eq!(r, ((i << 3) & 0b11111000) | ((i >> 4) & 0b00000110));
    }
}

#[test]
fn single_width_two_half_stores() {
    // source row 0b10100000: columns 0 and 2 lit
    let ops = emit_stores(0b10100000, false, false);
    assert_eq!(ops, vec![StoreOp::Half { col: 0 }, StoreOp::Half { col: 2 }]);
    let ops = emit_stores(0b10100000, false, true);
    assert_eq!(ops, vec![StoreOp::Half { col: 0 }, StoreOp::Half { col: 2 }]);
}

#[test]
fn empty_row_emits_no_stores() {
    for &(double, patch) in &[(false, false), (false, true), (true, false), (true, true)] {
        assert_eq!(emit_stores(0b00000000, double, patch), vec![]);
    }
}

#[test]
fn pair_table_single_width() {
    // 0b01 group emits the odd column, 0b11 two half stores
    assert_eq!(emit_stores(0b01000000, false, false), vec![StoreOp::Half { col: 1 }]);
    assert_eq!(
        emit_stores(0b11000000, false, false),
        vec![StoreOp::Half { col: 0 }, StoreOp::Half { col: 1 }]
    );
    assert_eq!(
        emit_stores(0b00000111, false, false),
        vec![
            StoreOp::Half { col: 5 },
            StoreOp::Half { col: 6 },
            StoreOp::Half { col: 7 }
        ]
    );
}

#[test]
fn pair_table_double_width() {
    assert_eq!(emit_stores(0b11000000, true, false), vec![StoreOp::Merged { col: 0 }]);
    assert_eq!(
        emit_stores(0b00001111, true, false),
        vec![StoreOp::Merged { col: 4 }, StoreOp::Merged { col: 6 }]
    );
}

#[test]
fn patch_exception_emits_merged_then_half() {
    let ops = emit_stores(0b11011000, true, true);
    assert_eq!(
        ops,
        vec![
            StoreOp::Merged { col: 0 },
            StoreOp::Half { col: 1 },
            StoreOp::Half { col: 3 },
            StoreOp::Half { col: 4 }
        ]
    );
    // without the patch flag the same pattern gets only the merged store
    let plain = emit_stores(0b11011000, true, false);
    assert_eq!(
        plain,
        vec![
            StoreOp::Merged { col: 0 },
            StoreOp::Half { col: 3 },
            StoreOp::Half { col: 4 }
        ]
    );
}

#[test]
fn patch_flag_inert_on_all_other_canonical_patterns() {
    for &row in canonical_rows().iter() {
        if row != 0b11011000 {
            assert_eq!(emit_stores(row, true, true), emit_stores(row, true, false));
        }
        assert_eq!(emit_stores(row, false, true), emit_stores(row, false, false));
    }
}

#[test]
fn routine_text_single_width() {
    let out = text(build_function(0b10100000, false, false));
    assert_eq!(
        out,
        "    lw     s0, 0(a0)\n    addi   a0, a0, 4\n    sh     s1, 0(a1)\n    sh     s1, 4(a1)\n    jr     s0\n     addi  a1, a1, 1280\n"
    );
}

#[test]
fn routine_text_empty_row() {
    let out = text(build_function(0, true, false));
    assert_eq!(
        out,
        "    lw     s0, 0(a0)\n    addi   a0, a0, 4\n    jr     s0\n     addi  a1, a1, 1280\n"
    );
}

#[test]
fn routine_text_patched_pattern() {
    let out = text(build_function(0b11011000, true, true));
    assert_eq!(
        out,
        "    lw     s0, 0(a0)\n    addi   a0, a0, 4\n    sw     s1, 0(a1)\n    sh     s1, 2(a1)\n    sh     s1, 6(a1)\n    sh     s1, 8(a1)\n    jr     s0\n     addi  a1, a1, 1280\n"
    );
    let plain = text(build_function(0b11011000, true, false));
    assert_eq!(
        plain,
        "    lw     s0, 0(a0)\n    addi   a0, a0, 4\n    sw     s1, 0(a1)\n    sh     s1, 6(a1)\n    sh     s1, 8(a1)\n    jr     s0\n     addi  a1, a1, 1280\n"
    );
}

#[test]
fn pack_rows_thresholds_pixels() {
    let mut data = vec![0u8; 16];
    data[0] = 255;
    data[2] = 7; // any nonzero value counts as lit
    data[15] = 1;
    let pats = pack_rows(&data);
    assert_eq!(pats, vec![0b10100000, 0b00000001]);
}
