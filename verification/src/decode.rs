//! Decoding row routines back into pixel rows.
//!
//! The decoder reads big-endian 32-bit words from a position-carrying
//! reader, recognizes the two known routine prologues, and replays the
//! store instructions of a row routine into an 8-byte intensity row.

use vstd::prelude::*;

verus! {

/// Word 0 of a row routine's prologue: `lw s0, 0(a0)`.
pub const ROW_PROLOGUE_0: u32 = 0x8C900000;

/// Word 1 of a row routine's prologue: `addi a0, a0, 4`.
pub const ROW_PROLOGUE_1: u32 = 0x20840004;

/// Word 0 of the terminator routine's prologue: `lw s1, 0(sp)`.
pub const END_PROLOGUE_0: u32 = 0x8FB10000;

/// Word 1 of the terminator routine's prologue: `addi sp, sp, 4`.
pub const END_PROLOGUE_1: u32 = 0x23BD0004;

/// The return jump ending a routine's store sequence: `jr s0`.
pub const JR_WORD: u32 = 0x02000008;

/// Why decoding failed.
#[derive(Clone, Copy, PartialEq, Eq, Structural, Debug)]
pub enum DecodeError {
    /// The input ended before a read that the layout calls for.
    Truncated,
    /// An offset-table address lies outside the address range the table
    /// itself occupies onward, or the table's end does not fit an address.
    AddrOutOfRange,
    /// A store instruction writes outside the 8-column row.
    BadStore,
}

/// What one routine decoded to.
#[derive(PartialEq, Eq, Debug)]
pub enum Parsed {
    /// A row routine: the 8 reconstructed intensity bytes.
    Row(Vec<u8>),
    /// The terminator routine.
    Terminator,
    /// Neither known prologue; two words were consumed.
    Unrecognized,
}

/// A read position over a byte buffer.
pub struct Reader<'a> {
    pub data: &'a [u8],
    pub pos: usize,
}

/// `n` bytes can be read at `pos`.
pub open spec fn can_read(data: Seq<u8>, pos: int, n: int) -> bool {
    0 <= pos && pos + n <= data.len()
}

/// The big-endian 32-bit word at byte position `pos`.
pub open spec fn be32_at(data: Seq<u8>, pos: int) -> u32 {
    (0x1000000 * data[pos] + 0x10000 * data[pos + 1] + 0x100 * data[pos + 2] + data[pos
        + 3]) as u32
}

impl<'a> Reader<'a> {
    /// Starts a reader at the beginning of `data`.
    pub fn new(data: &'a [u8]) -> (r: Reader<'a>)
        ensures
            r.data@ == data@,
            r.pos == 0,
    {
        Reader { data, pos: 0 }
    }

    /// Reads the next big-endian 32-bit word, advancing by four bytes;
    /// fails exactly when fewer than four bytes remain.
    pub fn read_be32(&mut self) -> (r: Result<u32, DecodeError>)
        ensures
            final(self).data@ == old(self).data@,
            match r {
                Ok(w) => can_read(old(self).data@, old(self).pos as int, 4) && w == be32_at(
                    old(self).data@,
                    old(self).pos as int,
                ) && final(self).pos == old(self).pos + 4,
                Err(e) => e == DecodeError::Truncated && !can_read(
                    old(self).data@,
                    old(self).pos as int,
                    4,
                ) && final(self).pos == old(self).pos,
            },
    {
        let len = self.data.len();
        if self.pos > len || len - self.pos < 4 {
            return Err(DecodeError::Truncated);
        }
        let b0 = self.data[self.pos] as u32;
        let b1 = self.data[self.pos + 1] as u32;
        let b2 = self.data[self.pos + 2] as u32;
        let b3 = self.data[self.pos + 3] as u32;
        self.pos = self.pos + 4;
        Ok(0x1000000 * b0 + 0x10000 * b1 + 0x100 * b2 + b3)
    }

    /// Moves the read position.
    pub fn set_pos(&mut self, pos: usize)
        ensures
            final(self).data@ == old(self).data@,
            final(self).pos == pos,
    {
        self.pos = pos;
    }
}

/// An all-blank intensity row.
pub open spec fn blank_row() -> Seq<u8> {
    seq![0u8, 0u8, 0u8, 0u8, 0u8, 0u8, 0u8, 0u8]
}

/// The intensity written to a column: the store's own intensity when the
/// column is still unset, the re-store intensity when an earlier store of
/// the same routine already wrote it.
pub open spec fn store_value(prev: u8, fresh: u8) -> u8 {
    if prev != 0 {
        0xbf
    } else {
        fresh
    }
}

/// A half store replayed at `col`: full intensity, with re-store escalation.
pub open spec fn apply_half(px: Seq<u8>, col: int) -> Seq<u8> {
    px.update(col, store_value(px[col], 0xff))
}

/// A merged store replayed at `col`: mid intensity on both spanned columns,
/// with re-store escalation on each.
pub open spec fn apply_merged(px: Seq<u8>, col: int) -> Seq<u8> {
    let p1 = px.update(col, store_value(px[col], 0x7f));
    p1.update(col + 1, store_value(p1[col + 1], 0x7f))
}

/// Outcome of replaying store words until the return jump.
pub enum StoreScan {
    Done { pixels: Seq<u8>, next: int },
    Failed { err: DecodeError },
}

/// Replays store words from `pos` into `px` until the return jump. A word
/// whose top six bits are the merged-store opcode spans two columns; any
/// other word is a half store. The column is the 16-bit immediate halved.
pub open spec fn scan_stores(data: Seq<u8>, pos: int, px: Seq<u8>) -> StoreScan
    decreases data.len() - pos,
{
    if !can_read(data, pos, 4) {
        StoreScan::Failed { err: DecodeError::Truncated }
    } else {
        let w = be32_at(data, pos);
        if w == JR_WORD {
            StoreScan::Done { pixels: px, next: pos + 4 }
        } else {
            let col = ((w & 0xffff) >> 1u32) as int;
            if w & 0xfc000000 == 0xac000000 {
                if col + 1 < 8 {
                    scan_stores(data, pos + 4, apply_merged(px, col))
                } else {
                    StoreScan::Failed { err: DecodeError::BadStore }
                }
            } else {
                if col < 8 {
                    scan_stores(data, pos + 4, apply_half(px, col))
                } else {
                    StoreScan::Failed { err: DecodeError::BadStore }
                }
            }
        }
    }
}

/// Outcome of decoding one routine at a resolved position.
pub enum ParseStep {
    /// A row routine and the position after its delay-slot word.
    Rowed { pixels: Seq<u8>, next: int },
    /// The terminator routine and the position after its epilogue words.
    Ended { next: int },
    /// An unrecognized prologue; only the two prologue words are consumed.
    Skipped { next: int },
    Failed { err: DecodeError },
}

/// Decodes the routine at `pos`: matches the two-word prologue, then for a
/// row routine replays stores until the return jump and consumes the
/// delay-slot word; for the terminator consumes its four epilogue words.
pub open spec fn parse_at(data: Seq<u8>, pos: int) -> ParseStep {
    if !can_read(data, pos, 8) {
        ParseStep::Failed { err: DecodeError::Truncated }
    } else {
        let w0 = be32_at(data, pos);
        let w1 = be32_at(data, pos + 4);
        if w0 == ROW_PROLOGUE_0 && w1 == ROW_PROLOGUE_1 {
            match scan_stores(data, pos + 8, blank_row()) {
                StoreScan::Done { pixels, next } => if can_read(data, next, 4) {
                    ParseStep::Rowed { pixels, next: next + 4 }
                } else {
                    ParseStep::Failed { err: DecodeError::Truncated }
                },
                StoreScan::Failed { err } => ParseStep::Failed { err },
            }
        } else if w0 == END_PROLOGUE_0 && w1 == END_PROLOGUE_1 {
            if can_read(data, pos + 8, 16) {
                ParseStep::Ended { next: pos + 24 }
            } else {
                ParseStep::Failed { err: DecodeError::Truncated }
            }
        } else {
            ParseStep::Skipped { next: pos + 8 }
        }
    }
}

/// Store replay moves forward and stays within the buffer, and keeps the
/// row 8 bytes long.
pub proof fn lemma_scan_stores_next(data: Seq<u8>, pos: int, px: Seq<u8>)
    requires
        px.len() == 8,
    ensures
        match scan_stores(data, pos, px) {
            StoreScan::Done { pixels, next } => pos + 4 <= next <= data.len() && pixels.len()
                == 8,
            StoreScan::Failed { .. } => true,
        },
    decreases data.len() - pos,
{
    if can_read(data, pos, 4) {
        let w = be32_at(data, pos);
        if w != JR_WORD {
            let col = ((w & 0xffff) >> 1u32) as int;
            if w & 0xfc000000 == 0xac000000 {
                if col + 1 < 8 {
                    assert(apply_merged(px, col).len() == px.len());
                    lemma_scan_stores_next(data, pos + 4, apply_merged(px, col));
                }
            } else {
                if col < 8 {
                    assert(apply_half(px, col).len() == px.len());
                    lemma_scan_stores_next(data, pos + 4, apply_half(px, col));
                }
            }
        }
    }
}

/// Decoding moves forward and stays within the buffer.
pub proof fn lemma_parse_at_next(data: Seq<u8>, pos: int)
    ensures
        match parse_at(data, pos) {
            ParseStep::Rowed { next, pixels } => pos < next <= data.len() && pixels.len() == 8,
            ParseStep::Ended { next } => pos < next <= data.len(),
            ParseStep::Skipped { next } => pos < next <= data.len(),
            ParseStep::Failed { .. } => true,
        },
{
    if can_read(data, pos, 8) {
        lemma_scan_stores_next(data, pos + 8, blank_row());
    }
}

/// Decodes one routine at the reader's position; the reader ends exactly
/// where the spec-level decode says the routine ends.
pub fn parse_function(r: &mut Reader) -> (res: Result<Parsed, DecodeError>)
    ensures
        final(r).data@ == old(r).data@,
        match res {
            Ok(p) => match p {
                Parsed::Row(px) => parse_at(old(r).data@, old(r).pos as int) == (ParseStep::Rowed {
                    pixels: px@,
                    next: final(r).pos as int,
                }),
                Parsed::Terminator => parse_at(old(r).data@, old(r).pos as int)
                    == (ParseStep::Ended { next: final(r).pos as int }),
                Parsed::Unrecognized => parse_at(old(r).data@, old(r).pos as int)
                    == (ParseStep::Skipped { next: final(r).pos as int }),
            },
            Err(e) => parse_at(old(r).data@, old(r).pos as int) == (ParseStep::Failed {
                err: e,
            }),
        },
{
    let ghost data = r.data@;
    let ghost p0 = r.pos as int;
    let w0 = match r.read_be32() {
        Ok(w) => w,
        Err(e) => {
            return Err(e);
        },
    };
    let w1 = match r.read_be32() {
        Ok(w) => w,
        Err(e) => {
            return Err(e);
        },
    };
    if w0 == ROW_PROLOGUE_0 && w1 == ROW_PROLOGUE_1 {
        let mut pixels: Vec<u8> = Vec::new();
        let mut c: usize = 0;
        while c < 8
            invariant
                c <= 8,
                pixels@ =~= blank_row().take(c as int),
            decreases 8 - c,
        {
            pixels.push(0);
            c = c + 1;
        }
        proof {
            assert(pixels@ =~= blank_row());
        }
        loop
            invariant_except_break
                scan_stores(data, p0 + 8, blank_row()) == scan_stores(
                    data,
                    r.pos as int,
                    pixels@,
                ),
            invariant
                old(r).data@ == data,
                old(r).pos == p0,
                r.data@ == data,
                r.pos <= data.len(),
                pixels@.len() == 8,
                can_read(data, p0, 8),
                be32_at(data, p0) == ROW_PROLOGUE_0,
                be32_at(data, p0 + 4) == ROW_PROLOGUE_1,
            ensures
                r.data@ == data,
                r.pos <= data.len(),
                scan_stores(data, p0 + 8, blank_row()) == (StoreScan::Done {
                    pixels: pixels@,
                    next: r.pos as int,
                }),
            decreases data.len() - r.pos,
        {
            let ghost pos_here = r.pos as int;
            let ghost px_here = pixels@;
            let w = match r.read_be32() {
                Ok(w) => w,
                Err(e) => {
                    return Err(e);
                },
            };
            if w == JR_WORD {
                break;
            }
            let col = ((w & 0xffff) >> 1u32) as usize;
            if w & 0xfc000000 == 0xac000000 {
                if col < 7 {
                    let v0 = pixels[col];
                    pixels.set(col, if v0 != 0 { 0xbf } else { 0x7f });
                    let v1 = pixels[col + 1];
                    pixels.set(col + 1, if v1 != 0 { 0xbf } else { 0x7f });
                    proof {
                        assert(pixels@ =~= apply_merged(px_here, col as int));
                    }
                } else {
                    return Err(DecodeError::BadStore);
                }
            } else {
                if col < 8 {
                    let v0 = pixels[col];
                    pixels.set(col, if v0 != 0 { 0xbf } else { 0xff });
                    proof {
                        assert(pixels@ =~= apply_half(px_here, col as int));
                    }
                } else {
                    return Err(DecodeError::BadStore);
                }
            }
        }
        // consume the delay-slot word
        match r.read_be32() {
            Ok(_) => {},
            Err(e) => {
                return Err(e);
            },
        }
        Ok(Parsed::Row(pixels))
    } else if w0 == END_PROLOGUE_0 && w1 == END_PROLOGUE_1 {
        let mut k: usize = 0;
        while k < 4
            invariant
                old(r).data@ == data,
                old(r).pos == p0,
                r.data@ == data,
                k <= 4,
                r.pos == p0 + 8 + 4 * k,
                can_read(data, p0, 8 + 4 * k as int),
                be32_at(data, p0) == END_PROLOGUE_0,
                be32_at(data, p0 + 4) == END_PROLOGUE_1,
                !(be32_at(data, p0) == ROW_PROLOGUE_0 && be32_at(data, p0 + 4)
                    == ROW_PROLOGUE_1),
            decreases 4 - k,
        {
            match r.read_be32() {
                Ok(_) => {},
                Err(e) => {
                    proof {
                        assert(!can_read(data, p0 + 8, 16));
                    }
                    return Err(e);
                },
            }
            k = k + 1;
        }
        Ok(Parsed::Terminator)
    } else {
        Ok(Parsed::Unrecognized)
    }
}

/// Bytes occupied by the leading offset table: per glyph, two blocks
/// (primary and shadow) of nine 4-byte words.
pub open spec fn table_len(num_chars: nat) -> int {
    num_chars * 72 as int
}

/// The load address of the byte just after the offset table: file-relative
/// positions are measured from it.
pub open spec fn data_base(vram: u32, num_chars: nat) -> int {
    vram + table_len(num_chars)
}

/// Every word of the offset table is an absolute address at or above the
/// base of the post-table region, and that base itself fits an address.
pub open spec fn offsets_in_range(data: Seq<u8>, vram: u32, num_chars: nat) -> bool {
    data_base(vram, num_chars) <= u32::MAX && (forall|i: int|
        0 <= i < num_chars * 18 ==> #[trigger] be32_at(data, 4 * i) >= data_base(
            vram,
            num_chars,
        ))
}

/// Word `i` of the offset table, converted to a file-relative position
/// (relative to the end of the table).
pub open spec fn rel_offset(data: Seq<u8>, vram: u32, num_chars: nat, i: int) -> u32 {
    (be32_at(data, 4 * i) - data_base(vram, num_chars)) as u32
}

/// A count of glyphs whose table fits the buffer gives word and row counts
/// that fit too.
proof fn lemma_table_counts(nc: int, len: int)
    requires
        0 <= nc,
        0 <= len,
        nc <= len / 72,
    ensures
        72 * nc <= len,
        18 * nc <= len,
        8 * nc <= len,
{
    assert(72 * nc <= len && 18 * nc <= len && 8 * nc <= len) by (nonlinear_arith)
        requires
            0 <= nc,
            0 <= len,
            nc <= len / 72,
    ;
}

/// Reads the offset table at the head of `data` and resolves each absolute
/// address to a file-relative position past the table. Fails with
/// `Truncated` exactly when the table does not fit the buffer, and with
/// `AddrOutOfRange` exactly when it fits but an address falls below the
/// post-table base (or the base overflows an address).
pub fn read_offsets(data: &[u8], vram: u32, num_chars: usize) -> (res: Result<
    Vec<u32>,
    DecodeError,
>)
    ensures
        match res {
            Ok(offs) => table_len(num_chars as nat) <= data@.len() && offsets_in_range(
                data@,
                vram,
                num_chars as nat,
            ) && offs@.len() == 18 * num_chars && (forall|i: int|
                0 <= i < offs@.len() ==> offs@[i] == rel_offset(
                    data@,
                    vram,
                    num_chars as nat,
                    i,
                )),
            Err(e) => (e == DecodeError::Truncated && table_len(num_chars as nat) > data@.len())
                || (e == DecodeError::AddrOutOfRange && table_len(num_chars as nat)
                <= data@.len() && !offsets_in_range(data@, vram, num_chars as nat)),
        },
{
    let len = data.len();
    if num_chars > len / 72 {
        proof {
            assert(table_len(num_chars as nat) > len) by (nonlinear_arith)
                requires
                    num_chars > len / 72,
                    len >= 0,
            ;
        }
        return Err(DecodeError::Truncated);
    }
    proof {
        lemma_table_counts(num_chars as int, len as int);
    }
    let tl = num_chars * 72;
    if tl as u64 > 0xffffffffu64 - vram as u64 {
        return Err(DecodeError::AddrOutOfRange);
    }
    let base = (vram as u64 + tl as u64) as u32;
    let n_words = num_chars * 18;
    let mut offs: Vec<u32> = Vec::new();
    let mut i: usize = 0;
    while i < n_words
        invariant
            i <= n_words,
            len == data@.len(),
            n_words == 18 * num_chars,
            72 * num_chars <= len,
            base == data_base(vram, num_chars as nat),
            offs@.len() == i as int,
            forall|j: int|
                0 <= j < i as int ==> offs@[j] == rel_offset(data@, vram, num_chars as nat, j),
            forall|j: int|
                0 <= j < i as int ==> #[trigger] be32_at(data@, 4 * j) >= data_base(
                    vram,
                    num_chars as nat,
                ),
        decreases n_words - i,
    {
        assert(4 * i + 4 <= 72 * num_chars);
        let b0 = data[4 * i] as u32;
        let b1 = data[4 * i + 1] as u32;
        let b2 = data[4 * i + 2] as u32;
        let b3 = data[4 * i + 3] as u32;
        let w = 0x1000000 * b0 + 0x10000 * b1 + 0x100 * b2 + b3;
        assert(w == be32_at(data@, 4 * i as int));
        if w < base {
            return Err(DecodeError::AddrOutOfRange);
        }
        offs.push(w - base);
        i = i + 1;
    }
    Ok(offs)
}

/// The primary pass of extraction: for glyph after glyph, the eight row
/// offsets of its primary block are resolved and decoded in order, each
/// decoded row appended to `acc`. A slot that does not hold a row routine —
/// an unrecognized prologue, or the terminator routine — decodes as a fully
/// blank row, so the pass always yields eight rows per glyph. Row index `i`
/// runs over `8 * n` rows.
pub open spec fn primary_scan(data: Seq<u8>, vram: u32, n: nat, i: int, acc: Seq<u8>) -> Result<
    Seq<u8>,
    DecodeError,
>
    decreases 8 * n - i,
{
    if i >= 8 * n {
        Ok(acc)
    } else {
        let idx = 18 * (i / 8) + (i % 8);
        let pos = table_len(n) + rel_offset(data, vram, n, idx);
        match parse_at(data, pos) {
            ParseStep::Rowed { pixels, .. } => primary_scan(data, vram, n, i + 1, acc + pixels),
            ParseStep::Ended { .. } => primary_scan(data, vram, n, i + 1, acc + blank_row()),
            ParseStep::Skipped { .. } => primary_scan(data, vram, n, i + 1, acc + blank_row()),
            ParseStep::Failed { err } => Err(err),
        }
    }
}

/// The primary pass yields exactly eight bytes for each of the `8 * n` rows
/// it decodes, whatever stands at the resolved offsets.
pub proof fn lemma_primary_scan_len(data: Seq<u8>, vram: u32, n: nat, i: int, acc: Seq<u8>)
    requires
        0 <= i <= 8 * n,
    ensures
        match primary_scan(data, vram, n, i, acc) {
            Ok(font) => font.len() == acc.len() + 8 * (8 * n - i),
            Err(_) => true,
        },
    decreases 8 * n - i,
{
    if i < 8 * n {
        let idx = 18 * (i / 8) + (i % 8);
        let pos = table_len(n) + rel_offset(data, vram, n, idx);
        lemma_parse_at_next(data, pos);
        match parse_at(data, pos) {
            ParseStep::Rowed { pixels, .. } => {
                lemma_primary_scan_len(data, vram, n, i + 1, acc + pixels);
            },
            ParseStep::Ended { .. } => {
                lemma_primary_scan_len(data, vram, n, i + 1, acc + blank_row());
            },
            ParseStep::Skipped { .. } => {
                lemma_primary_scan_len(data, vram, n, i + 1, acc + blank_row());
            },
            ParseStep::Failed { .. } => {},
        }
    }
}

/// The trailing scan of extraction: routines are decoded back to back from
/// `pos` until the end of the buffer, decoded rows appended to `acc`. This
/// region has no per-glyph row slots, so a terminator or an unrecognized
/// prologue marks structure rather than a row: it contributes no bytes and
/// the scan moves past it.
pub open spec fn extra_scan(data: Seq<u8>, pos: int, acc: Seq<u8>) -> Result<Seq<u8>, DecodeError>
    decreases data.len() - pos,
    via extra_scan_dec
{
    if pos >= data.len() {
        Ok(acc)
    } else {
        match parse_at(data, pos) {
            ParseStep::Rowed { pixels, next } => extra_scan(data, next, acc + pixels),
            ParseStep::Ended { next } => extra_scan(data, next, acc),
            ParseStep::Skipped { next } => extra_scan(data, next, acc),
            ParseStep::Failed { err } => Err(err),
        }
    }
}

#[via_fn]
proof fn extra_scan_dec(data: Seq<u8>, pos: int, acc: Seq<u8>) {
    lemma_parse_at_next(data, pos);
}

/// The whole extraction of a binary: read and resolve the offset table,
/// decode every glyph's primary block into the font buffer, then scan the
/// region at `extra_offset` past the table into the extra buffer.
pub open spec fn extract_spec(
    data: Seq<u8>,
    vram: u32,
    num_chars: nat,
    extra_offset: nat,
) -> Result<(Seq<u8>, Seq<u8>), DecodeError> {
    if table_len(num_chars) > data.len() {
        Err(DecodeError::Truncated)
    } else if !offsets_in_range(data, vram, num_chars) {
        Err(DecodeError::AddrOutOfRange)
    } else {
        match primary_scan(data, vram, num_chars, 0, seq![]) {
            Err(e) => Err(e),
            Ok(font) => match extra_scan(data, table_len(num_chars) + extra_offset, seq![]) {
                Err(e) => Err(e),
                Ok(extra) => Ok((font, extra)),
            },
        }
    }
}

/// Decodes a compiled binary back into pixel rows: the glyphs' primary
/// blocks, and the extra-row region starting `extra_offset` bytes past the
/// offset table. The primary buffer always holds eight 8-byte rows per
/// glyph: a primary slot without a recognizable row routine reads back as a
/// blank row.
pub fn extract(data: &[u8], vram: u32, num_chars: usize, extra_offset: usize) -> (res: Result<
    (Vec<u8>, Vec<u8>),
    DecodeError,
>)
    ensures
        match res {
            Ok(out) => extract_spec(data@, vram, num_chars as nat, extra_offset as nat)
                == Ok::<_, DecodeError>((out.0@, out.1@)) && out.0@.len() == 64 * num_chars,
            Err(e) => extract_spec(data@, vram, num_chars as nat, extra_offset as nat) == Err::<
                (Seq<u8>, Seq<u8>),
                _,
            >(e),
        },
{
    let ghost nc = num_chars as nat;
    let offs = match read_offsets(data, vram, num_chars) {
        Ok(o) => o,
        Err(e) => {
            return Err(e);
        },
    };
    let len = data.len();
    proof {
        lemma_table_counts(num_chars as int, len as int);
        assert(num_chars <= len / 72) by (nonlinear_arith)
            requires
                72 * (num_chars as int) <= len,
                len >= 0,
        ;
    }
    let tl = num_chars * 72;
    let total = num_chars * 8;
    let mut rdr = Reader::new(data);
    let mut font: Vec<u8> = Vec::new();
    let mut i: usize = 0;
    while i < total
        invariant
            i <= total,
            len == data@.len(),
            total == 8 * num_chars,
            tl == table_len(nc),
            tl <= len,
            nc == num_chars as nat,
            offs@.len() == 18 * num_chars,
            forall|j: int| 0 <= j < offs@.len() ==> offs@[j] == rel_offset(data@, vram, nc, j),
            offsets_in_range(data@, vram, nc),
            rdr.data@ == data@,
            primary_scan(data@, vram, nc, 0, seq![]) == primary_scan(
                data@,
                vram,
                nc,
                i as int,
                font@,
            ),
        decreases total - i,
    {
        let idx = 18 * (i / 8) + (i % 8);
        proof {
            assert(i as int / 8 == (i / 8) as int && i as int % 8 == (i % 8) as int);
            assert(i as int / 8 < num_chars as int) by (nonlinear_arith)
                requires
                    0 <= i as int,
                    (i as int) < 8 * (num_chars as int),
            ;
            assert(18 * (i as int / 8) + (i as int % 8) < 18 * (num_chars as int));
        }
        let off = offs[idx];
        let rel = off as usize;
        if rel > len - tl {
            proof {
                assert(!can_read(data@, tl + rel as int, 8));
            }
            return Err(DecodeError::Truncated);
        }
        rdr.set_pos(tl + rel);
        let ghost font_pre = font@;
        match parse_function(&mut rdr) {
            Ok(Parsed::Row(mut px)) => {
                font.append(&mut px);
            },
            Ok(_) => {
                // a slot without a row routine reads back as a blank row
                let mut c: usize = 0;
                while c < 8
                    invariant
                        c <= 8,
                        font@ =~= font_pre + blank_row().take(c as int),
                    decreases 8 - c,
                {
                    font.push(0);
                    c = c + 1;
                }
                proof {
                    assert(blank_row().take(8) =~= blank_row());
                }
            },
            Err(e) => {
                return Err(e);
            },
        }
        i = i + 1;
        proof {
            assert(primary_scan(data@, vram, nc, i as int - 1, font_pre) == primary_scan(
                data@,
                vram,
                nc,
                i as int,
                font@,
            ));
        }
    }

    let mut extra: Vec<u8> = Vec::new();
    if extra_offset <= len - tl {
        rdr.set_pos(tl + extra_offset);
        while rdr.pos < len
            invariant
                len == data@.len(),
                rdr.data@ == data@,
                rdr.pos <= len,
                nc == num_chars as nat,
                tl == table_len(nc),
                tl <= len,
                offsets_in_range(data@, vram, nc),
                primary_scan(data@, vram, nc, 0, seq![]) == Ok::<Seq<u8>, DecodeError>(font@),
                extra_scan(data@, tl + extra_offset as int, seq![]) == extra_scan(
                    data@,
                    rdr.pos as int,
                    extra@,
                ),
            decreases len - rdr.pos,
        {
            let ghost pos_here = rdr.pos as int;
            let ghost extra_pre = extra@;
            proof {
                lemma_parse_at_next(data@, pos_here);
            }
            match parse_function(&mut rdr) {
                Ok(Parsed::Row(mut px)) => {
                    extra.append(&mut px);
                },
                Ok(_) => {},
                Err(e) => {
                    return Err(e);
                },
            }
            proof {
                assert(extra_scan(data@, pos_here, extra_pre) == extra_scan(
                    data@,
                    rdr.pos as int,
                    extra@,
                ));
            }
        }
    } else {
        proof {
            assert(tl + extra_offset as int >= data@.len());
        }
    }
    proof {
        lemma_primary_scan_len(data@, vram, nc, 0, seq![]);
    }
    Ok((font, extra))
}

} // verus!
