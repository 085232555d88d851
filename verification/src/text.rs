//! ASCII text building blocks for the emitted assembly module.
//!
//! The module is produced as a byte vector of ASCII text; these helpers
//! render numbers and splice byte runs, each pinned to a spec-level value.

use vstd::prelude::*;

verus! {

/// The given characters as their ASCII bytes.
pub open spec fn ascii(s: Seq<char>) -> Seq<u8> {
    s.map_values(|c: char| c as u8)
}

/// The decimal digits of `n`, for `n` up to two digits.
pub open spec fn dec2(n: u8) -> Seq<u8> {
    if n < 10 {
        seq![(0x30 + n) as u8]
    } else {
        seq![(0x30 + n / 10) as u8, (0x30 + n % 10) as u8]
    }
}

/// The eight binary digits of `b`, most significant first.
pub open spec fn bin8(b: u8) -> Seq<u8> {
    Seq::new(8, |k: int| if (b >> ((7 - k) as u8)) & 1 == 1 {
        '1' as u8
    } else {
        '0' as u8
    })
}

/// Appends the bytes of `s` to `out`.
pub fn push_slice(out: &mut Vec<u8>, s: &[u8])
    ensures
        final(out)@ == old(out)@ + s@,
{
    let len = s.len();
    let mut i: usize = 0;
    while i < len
        invariant
            i <= len,
            len == s@.len(),
            out@ == old(out)@ + s@.take(i as int),
        decreases len - i,
    {
        out.push(s[i]);
        i = i + 1;
        proof {
            assert(out@ =~= old(out)@ + s@.take(i as int));
        }
    }
    proof {
        assert(out@ =~= old(out)@ + s@);
    }
}

/// Appends `n` in decimal to `out`.
pub fn push_dec2(out: &mut Vec<u8>, n: u8)
    requires
        n < 100,
    ensures
        final(out)@ == old(out)@ + dec2(n),
{
    if n < 10 {
        out.push(0x30 + n);
        proof {
            assert(out@ =~= old(out)@ + dec2(n));
        }
    } else {
        out.push(0x30 + n / 10);
        out.push(0x30 + n % 10);
        proof {
            assert(out@ =~= old(out)@ + dec2(n));
        }
    }
}

/// Appends the eight binary digits of `b` to `out`, most significant first.
pub fn push_bin8(out: &mut Vec<u8>, b: u8)
    ensures
        final(out)@ == old(out)@ + bin8(b),
{
    let mut k: u8 = 0;
    while k < 8
        invariant
            k <= 8,
            out@ == old(out)@ + bin8(b).take(k as int),
        decreases 8 - k,
    {
        let bit = (b >> (7 - k)) & 1;
        if bit == 1 {
            out.push('1' as u8);
        } else {
            out.push('0' as u8);
        }
        proof {
            assert((7 - k) as u8 == (7 - k as int) as u8);
            assert(out@ =~= old(out)@ + bin8(b).take(k as int + 1));
        }
        k = k + 1;
    }
    proof {
        assert(bin8(b).take(8) =~= bin8(b));
    }
}

} // verus!
