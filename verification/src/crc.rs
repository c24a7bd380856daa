use vstd::prelude::*;

verus! {

/// One bit step of the CRC-32 used by PNG: shift right, folding the
/// reflected polynomial in when the low bit is set.
pub open spec fn crc_bit(c: u32) -> u32 {
    if c & 1 == 1 {
        0xEDB88320u32 ^ (c >> 1)
    } else {
        c >> 1
    }
}

/// Folds one byte into the running CRC state: xor it in, then eight bit
/// steps.
pub open spec fn crc_byte(c: u32, b: u8) -> u32 {
    crc_bit(crc_bit(crc_bit(crc_bit(crc_bit(crc_bit(crc_bit(crc_bit(c ^ (b as u32)))))))))
}

/// The CRC state after folding in the first `n` bytes of `s`, starting
/// from the all-ones state.
pub open spec fn crc_state(s: Seq<u8>, n: int) -> u32
    decreases n,
{
    if n <= 0 {
        0xFFFFFFFFu32
    } else {
        crc_byte(crc_state(s, n - 1), s[n - 1])
    }
}

/// The CRC-32 of a byte sequence, as PNG chunks carry it.
pub open spec fn crc32_spec(s: Seq<u8>) -> u32 {
    crc_state(s, s.len() as int) ^ 0xFFFFFFFFu32
}

fn crc_bit_step(c: u32) -> (r: u32)
    ensures
        r == crc_bit(c),
{
    if c & 1 == 1 {
        0xEDB88320u32 ^ (c >> 1)
    } else {
        c >> 1
    }
}

/// Computes the CRC-32 of a byte buffer.
pub fn crc32(data: &Vec<u8>) -> (r: u32)
    ensures
        r == crc32_spec(data@),
{
    let mut c: u32 = 0xFFFFFFFFu32;
    let mut i: usize = 0;
    while i < data.len()
        invariant
            i <= data.len(),
            c == crc_state(data@, i as int),
        decreases data.len() - i,
    {
        let mut x: u32 = c ^ (data[i] as u32);
        x = crc_bit_step(x);
        x = crc_bit_step(x);
        x = crc_bit_step(x);
        x = crc_bit_step(x);
        x = crc_bit_step(x);
        x = crc_bit_step(x);
        x = crc_bit_step(x);
        x = crc_bit_step(x);
        c = x;
        i = i + 1;
    }
    c ^ 0xFFFFFFFFu32
}

} // verus!
