//! CRC32C (Castagnoli polynomial, reflected bit order) as send streams
//! carry it: the shift register itself, started from the seed and not
//! complemented, so that the state after one call is the seed of the next.
use vstd::prelude::*;

verus! {

/// The Castagnoli polynomial 0x1EDC6F41 in reflected bit order.
pub const CRC32C_POLY_REFLECTED: u32 = 0x82F6_3B78;

/// One bit step of the reflected shift register.
pub open spec fn crc_shift(c: u32) -> u32 {
    if c & 1 == 1 {
        (c >> 1u32) ^ CRC32C_POLY_REFLECTED
    } else {
        c >> 1u32
    }
}

/// The register after taking in one byte, low bit first.
pub open spec fn crc_byte(c: u32, b: u8) -> u32 {
    let x = c ^ (b as u32);
    crc_shift(
        crc_shift(crc_shift(crc_shift(crc_shift(crc_shift(crc_shift(crc_shift(x))))))),
    )
}

/// The register after taking in every byte of `s` in order.
pub open spec fn crc_register(c: u32, s: Seq<u8>) -> u32
    decreases s.len(),
{
    if s.len() == 0 {
        c
    } else {
        crc_byte(crc_register(c, s.drop_last()), s.last())
    }
}

/// CRC32C of `s` continued from `state`: the register after taking in `s`,
/// starting from `state` (0 for a fresh checksum, as the stream format
/// has it).
pub open spec fn crc32c_spec(state: u32, s: Seq<u8>) -> u32 {
    crc_register(state, s)
}

pub proof fn lemma_crc_register_append(c: u32, a: Seq<u8>, b: Seq<u8>)
    ensures
        crc_register(c, a + b) == crc_register(crc_register(c, a), b),
    decreases b.len(),
{
    if b.len() == 0 {
        assert(a + b =~= a);
    } else {
        assert((a + b).drop_last() =~= a + b.drop_last());
        assert((a + b).last() == b.last());
        lemma_crc_register_append(c, a, b.drop_last());
    }
}

/// Checksumming `a` and then continuing with `b` is checksumming `a + b`.
pub proof fn lemma_crc32c_append(state: u32, a: Seq<u8>, b: Seq<u8>)
    ensures
        crc32c_spec(crc32c_spec(state, a), b) == crc32c_spec(state, a + b),
{
    lemma_crc_register_append(state, a, b);
}

fn shift(c: u32) -> (r: u32)
    ensures
        r == crc_shift(c),
{
    if c & 1 == 1 {
        (c >> 1u32) ^ CRC32C_POLY_REFLECTED
    } else {
        c >> 1u32
    }
}

fn take_byte(c: u32, b: u8) -> (r: u32)
    ensures
        r == crc_byte(c, b),
{
    let x = c ^ (b as u32);
    shift(shift(shift(shift(shift(shift(shift(shift(x))))))))
}

/// Continues the CRC32C `state` over `data`; a state of 0 starts afresh.
pub fn crc32c(state: u32, data: &[u8]) -> (r: u32)
    ensures
        r == crc32c_spec(state, data@),
{
    let mut c: u32 = state;
    let mut i: usize = 0;
    while i < data.len()
        invariant
            i <= data@.len(),
            c == crc_register(state, data@.subrange(0, i as int)),
        decreases data@.len() - i,
    {
        assert(data@.subrange(0, i + 1).drop_last() =~= data@.subrange(0, i as int));
        c = take_byte(c, data[i]);
        i = i + 1;
    }
    assert(data@.subrange(0, data@.len() as int) =~= data@);
    c
}

} // verus!
