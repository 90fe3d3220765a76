//! The parameter codec.
//!
//! A packed 32-bit parameter word carries a lookup-table index in its high 16
//! bits and a raw blend level in its low 16 bits. The level `b` stands for
//! the fraction `beta = b / 65535`, so `beta` ranges over `[0, 1]` at a
//! granularity of `1/65535` by construction. The solver resolves voltage
//! forcing through this codec, and the energy integrator resolves
//! permittivity blending through the very same definition.

use vstd::prelude::*;
use vstd::arithmetic::div_mod::lemma_fundamental_div_mod_converse;

verus! {

/// The table index carried in the high 16 bits of a packed word.
pub open spec fn word_index(w: int) -> int {
    w / 0x10000
}

/// The raw blend level carried in the low 16 bits of a packed word.
pub open spec fn word_beta(w: int) -> int {
    w % 0x10000
}

/// The packed word holding a table index and a raw blend level.
pub open spec fn word_of(index: int, beta: int) -> int {
    index * 0x10000 + beta
}

/// Decodes a packed parameter word into its table index and raw blend level.
pub fn unpack_data(packed_data: u32) -> (r: (usize, u16))
    ensures
        r.0 as int == word_index(packed_data as int),
        r.1 as int == word_beta(packed_data as int),
{
    proof {
        assert((packed_data >> 16) < 0x10000u32 && (packed_data >> 16) as int == packed_data as int
            / 0x10000 && (packed_data & 0xFFFF) as int == packed_data as int % 0x10000)
            by (bit_vector);
    }
    let index = (packed_data >> 16) as usize;
    let beta = (packed_data & 0xFFFF) as u16;
    (index, beta)
}

/// Packs a table index and a raw blend level into one parameter word.
pub fn pack_data(index: u16, beta: u16) -> (w: u32)
    ensures
        w as int == word_of(index as int, beta as int),
{
    proof {
        assert((((index as u32) << 16) | (beta as u32)) as int == index as int * 0x10000
            + beta as int) by (bit_vector);
    }
    ((index as u32) << 16) | (beta as u32)
}

/// Law: decoding a packed word recovers the table index and the raw blend
/// level exactly, for every one of the 65536 representable levels.
pub proof fn lemma_pack_unpack_roundtrip(index: u16, beta: u16)
    ensures
        word_index(word_of(index as int, beta as int)) == index,
        word_beta(word_of(index as int, beta as int)) == beta,
{
    lemma_fundamental_div_mod_converse(
        index as int * 0x10000 + beta as int,
        0x10000,
        index as int,
        beta as int,
    );
}

/// The raw blend level of any word lies in `[0, 65535]`: `beta` is in `[0, 1]`
/// by construction of the encoding.
pub proof fn lemma_word_beta_range(w: u32)
    ensures
        0 <= word_beta(w as int) <= 65535,
{
    assert(0 <= w as int % 0x10000 < 0x10000) by (nonlinear_arith);
}

} // verus!
