use rowfont::decode::{DecodeError, Parsed, Reader, extract, parse_function, read_offsets};
use rowfont::machine::{encode_routine, push_be32};
use rowfont::rows::pack_rows;

fn words(ws: &[u32]) -> Vec<u8> {
    let mut out = Vec::new();
    for &w in ws {
        push_be32(&mut out, w);
    }
    out
}

#[test]
fn reader_reads_big_endian() {
    let data = vec![0x12u8, 0x34, 0x56, 0x78, 0xff];
    let mut r = Reader::new(&data);
    assert_eq!(r.read_be32(), Ok(0x12345678));
    assert_eq!(r.pos, 4);
    assert_eq!(r.read_be32(), Err(DecodeError::Truncated));
}

#[test]
fn round_trip_single_width_row() {
    // a pure black/white source row survives pack, emit, compile, decode
    let src = vec![0xffu8, 0, 0xff, 0, 0, 0, 0, 0];
    let pats = pack_rows(&src);
    assert_eq!(pats, vec![0b10100000]);
    let code = encode_routine(pats[0], false, false);
    let mut r = Reader::new(&code);
    match parse_function(&mut r) {
        Ok(Parsed::Row(px)) => assert_eq!(px, src),
        other => panic!("expected a decoded row, got {:?}", other),
    }
    assert_eq!(r.pos, code.len());
}

#[test]
fn round_trip_whole_glyph() {
    let mut src = vec![0u8; 64];
    for (i, px) in src.iter_mut().enumerate() {
        if (i / 3) % 2 == 0 {
            *px = 0xff;
        }
    }
    let pats = pack_rows(&src);
    for (r_idx, &pat) in pats.iter().enumerate() {
        let code = encode_routine(pat, false, true);
        let mut r = Reader::new(&code);
        match parse_function(&mut r) {
            Ok(Parsed::Row(px)) => assert_eq!(&px[..], &src[r_idx * 8..r_idx * 8 + 8]),
            other => panic!("expected a decoded row, got {:?}", other),
        }
    }
}

#[test]
fn round_trip_double_width_row() {
    // 0b11010010: group 0 merged, groups 1 and 3 single columns
    let code = encode_routine(0b11010010, true, false);
    let mut r = Reader::new(&code);
    match parse_function(&mut r) {
        Ok(Parsed::Row(px)) => assert_eq!(px, vec![0x7f, 0x7f, 0, 0xff, 0, 0, 0xff, 0]),
        other => panic!("expected a decoded row, got {:?}", other),
    }
    assert_eq!(r.pos, code.len());
}

#[test]
fn restore_escalation_marks_column() {
    // a half store then a merged store spanning the same column: the column
    // written twice must read back 0xBF, not 0xFF or 0x7F
    let code = words(&[
        0x8C900000, // lw s0, 0(a0)
        0x20840004, // addi a0, a0, 4
        0xA4B10006, // sh s1, 6(a1): half store at column 3
        0xACB10004, // sw s1, 4(a1): merged store spanning columns 2 and 3
        0x02000008, // jr s0
        0x20A50500, // addi a1, a1, 1280
    ]);
    let mut r = Reader::new(&code);
    match parse_function(&mut r) {
        Ok(Parsed::Row(px)) => assert_eq!(px, vec![0, 0, 0x7f, 0xbf, 0, 0, 0, 0]),
        other => panic!("expected a decoded row, got {:?}", other),
    }
}

#[test]
fn merged_store_reads_back_mid_intensity() {
    let code = words(&[0x8C900000, 0x20840004, 0xACB10000, 0x02000008, 0x20A50500]);
    let mut r = Reader::new(&code);
    match parse_function(&mut r) {
        Ok(Parsed::Row(px)) => assert_eq!(px, vec![0x7f, 0x7f, 0, 0, 0, 0, 0, 0]),
        other => panic!("expected a decoded row, got {:?}", other),
    }
}

#[test]
fn terminator_prologue_consumes_epilogue() {
    let code = words(&[0x8FB10000, 0x23BD0004, 1, 2, 3, 4, 0xdead]);
    let mut r = Reader::new(&code);
    assert_eq!(parse_function(&mut r), Ok(Parsed::Terminator));
    assert_eq!(r.pos, 24);
}

#[test]
fn unknown_prologue_consumes_two_words() {
    let code = words(&[0xffffffff, 0xffffffff, 7]);
    let mut r = Reader::new(&code);
    assert_eq!(parse_function(&mut r), Ok(Parsed::Unrecognized));
    assert_eq!(r.pos, 8);
}

#[test]
fn truncated_routine_fails() {
    let code = words(&[0x8C900000, 0x20840004, 0xA4B10000]);
    let mut r = Reader::new(&code);
    assert_eq!(parse_function(&mut r), Err(DecodeError::Truncated));
}

#[test]
fn store_outside_row_fails() {
    // offset 0x20 names column 16, past the 8-column row
    let code = words(&[0x8C900000, 0x20840004, 0xA4B10020, 0x02000008, 0x20A50500]);
    let mut r = Reader::new(&code);
    assert_eq!(parse_function(&mut r), Err(DecodeError::BadStore));
}

#[test]
fn offsets_short_blob_fails() {
    let data = vec![0u8; 71];
    assert_eq!(read_offsets(&data, 0x1000, 1), Err(DecodeError::Truncated));
    assert_eq!(
        extract(&data, 0x1000, 1, 0).map(|_| ()),
        Err(DecodeError::Truncated)
    );
}

#[test]
fn offsets_below_base_fail() {
    // every address in the table is 0, far below vram + table length
    let data = vec![0u8; 80];
    assert_eq!(read_offsets(&data, 0x1000, 1), Err(DecodeError::AddrOutOfRange));
    assert_eq!(
        extract(&data, 0x1000, 1, 8).map(|_| ()),
        Err(DecodeError::AddrOutOfRange)
    );
}

#[test]
fn offsets_resolve_file_relative() {
    let vram: u32 = 0x1000;
    let mut data = Vec::new();
    for i in 0..18u32 {
        push_be32(&mut data, vram + 72 + 4 * i);
    }
    let offs = read_offsets(&data, vram, 1).expect("offset table reads");
    assert_eq!(offs.len(), 18);
    for (i, &o) in offs.iter().enumerate() {
        assert_eq!(o, 4 * i as u32);
    }
}

#[test]
fn extract_decodes_primary_blocks_and_extra_region() {
    let vram: u32 = 0x1000;
    let base = vram + 72;
    // one glyph: all eight primary rows point at the routine at offset 0;
    // the extra region at offset 24 holds one empty-row routine
    let mut data = Vec::new();
    for _ in 0..18 {
        push_be32(&mut data, base);
    }
    let routine = encode_routine(0b10100000, false, false);
    assert_eq!(routine.len(), 24);
    data.extend(routine);
    data.extend(encode_routine(0, false, false));
    let (font, extra) = extract(&data, vram, 1, 24).expect("extraction succeeds");
    assert_eq!(font.len(), 64);
    for row in font.chunks(8) {
        assert_eq!(row, &[0xff, 0, 0xff, 0, 0, 0, 0, 0]);
    }
    assert_eq!(extra, vec![0u8; 8]);
}

#[test]
fn extract_decodes_unrecognized_rows_as_blank() {
    let vram: u32 = 0x100;
    let base = vram + 72;
    let mut data = Vec::new();
    for _ in 0..18 {
        push_be32(&mut data, base);
    }
    // the pointed-at bytes hold no recognized prologue: every primary row
    // reads back blank, and the glyph still spans its full 64 bytes
    push_be32(&mut data, 0xffffffff);
    push_be32(&mut data, 0xffffffff);
    let (font, extra) = extract(&data, vram, 1, 8).expect("extraction succeeds");
    assert_eq!(font, vec![0u8; 64]);
    assert_eq!(extra, Vec::<u8>::new());
}

#[test]
fn extract_decodes_terminator_slot_as_blank_row() {
    let vram: u32 = 0x100;
    let base = vram + 72;
    // primary row 0 points at a real routine, rows 1..8 at a terminator
    let routine = encode_routine(0b10100000, false, false);
    let mut data = Vec::new();
    push_be32(&mut data, base);
    for _ in 1..18 {
        push_be32(&mut data, base + routine.len() as u32);
    }
    data.extend(routine);
    let terminator = words(&[0x8FB10000, 0x23BD0004, 0, 0, 0, 0]);
    let extra_offset = data.len() - 72 + terminator.len();
    data.extend(terminator);
    let (font, extra) = extract(&data, vram, 1, extra_offset).expect("extraction succeeds");
    assert_eq!(font.len(), 64);
    assert_eq!(&font[..8], &[0xff, 0, 0xff, 0, 0, 0, 0, 0]);
    assert_eq!(&font[8..], &[0u8; 56]);
    assert_eq!(extra, Vec::<u8>::new());
}
