//! CRC-32 of a byte sequence: polynomial `0xEDB88320`, initial value
//! `0xFFFFFFFF`, one's-complement output, computed over the record payload
//! only.

use vstd::prelude::*;

verus! {

/// One shift step of the bitwise CRC-32.
pub open spec fn crc_step(c: u32) -> u32 {
    if c & 1 == 1 {
        (c >> 1) ^ 0xEDB88320u32
    } else {
        c >> 1
    }
}

/// `n` shift steps of the bitwise CRC-32, first step applied first.
pub open spec fn crc_steps(c: u32, n: nat) -> u32
    decreases n,
{
    if n == 0 {
        c
    } else {
        crc_steps(crc_step(c), (n - 1) as nat)
    }
}

/// The CRC accumulator after absorbing `data`, starting from `c`.
pub open spec fn crc_accum(c: u32, data: Seq<u8>) -> u32
    decreases data.len(),
{
    if data.len() == 0 {
        c
    } else {
        crc_accum(crc_steps(c ^ (data[0] as u32), 8), data.drop_first())
    }
}

/// CRC-32 of `data`.  Opaque: callers treat the checksum as a value; the
/// computation below reveals it.
#[verifier::opaque]
pub open spec fn crc32_of(data: Seq<u8>) -> u32 {
    !crc_accum(0xFFFFFFFFu32, data)
}

/// Computes the CRC-32 of `data`.
pub fn crc32(data: &[u8]) -> (r: u32)
    ensures
        r == crc32_of(data@),
{
    let mut crc: u32 = 0xFFFFFFFF;
    let mut i: usize = 0;
    proof {
        assert(data@.skip(0) =~= data@);
    }
    while i < data.len()
        invariant
            i <= data@.len(),
            crc_accum(crc, data@.skip(i as int)) == crc_accum(0xFFFFFFFFu32, data@),
        decreases data@.len() - i,
    {
        let ghost rest = data@.skip(i as int);
        crc = crc ^ (data[i] as u32);
        let ghost entry: u32 = crc;
        let mut j: usize = 0;
        while j < 8
            invariant
                j <= 8,
                crc_steps(crc, (8 - j) as nat) == crc_steps(entry, 8),
            decreases 8 - j,
        {
            if crc & 1 == 1 {
                crc = (crc >> 1) ^ 0xEDB88320;
            } else {
                crc = crc >> 1;
            }
            j = j + 1;
        }
        proof {
            assert(rest.drop_first() =~= data@.skip(i + 1));
        }
        i = i + 1;
    }
    proof {
        assert(data@.skip(data@.len() as int) =~= Seq::<u8>::empty());
        reveal(crc32_of);
    }
    !crc
}

} // verus!
