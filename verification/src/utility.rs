//! Bit-width compaction of binary32 values into binary16 bit patterns.
//!
//! The conversion works purely on bit patterns, so the host hands in the raw
//! 32-bit words of its samples (sign 1, exponent 8, mantissa 23) and receives
//! 16-bit words (sign 1, exponent 5, mantissa 10). The exponent is rebiased
//! from 127 to 15 and clamped into the representable 5-bit range; the
//! mantissa is truncated, never rounded. An explicit, portable bit
//! decomposition replaces any layout-dependent reinterpretation of a float
//! buffer.

use vstd::prelude::*;
use crate::FieldError;

verus! {

/// The 16-bit pattern a 32-bit pattern compacts to: the sign kept, the
/// exponent rebiased and clamped to `[0, 31]`, the top ten mantissa bits
/// kept.
pub open spec fn f16_bits_of(z: u32) -> u16 {
    let sign = z >> 31;
    let exponent = (z >> 23) & 0xFF;
    let mantissa = (z & 0x7FFFFF) >> 13;
    let clamped: u32 = if exponent < 112 {
        0
    } else if exponent > 143 {
        31
    } else {
        (exponent - 112) as u32
    };
    (((sign << 15) as u16) | ((clamped << 10) as u16) | (mantissa as u16)) as u16
}

/// Compacts each 32-bit pattern of `x_arr` into the 16-bit pattern at the
/// same position of `y_arr`. Fails, mutating nothing, exactly when the two
/// buffers differ in length.
pub fn convert_f32_to_f16(x_arr: &Vec<u32>, y_arr: &mut Vec<u16>) -> (r: Result<(), FieldError>)
    ensures
        final(y_arr)@.len() == old(y_arr)@.len(),
        match r {
            Ok(()) => x_arr@.len() == old(y_arr)@.len() && forall|i: int|
                0 <= i < x_arr@.len() ==> #[trigger] final(y_arr)@[i] == f16_bits_of(x_arr@[i]),
            Err(FieldError::LengthMismatch) => x_arr@.len() != old(y_arr)@.len() && final(y_arr)@
                == old(y_arr)@,
            Err(_) => false,
        },
{
    let n = x_arr.len();
    if y_arr.len() != n {
        return Err(FieldError::LengthMismatch);
    }
    let mut i: usize = 0;
    while i < n
        invariant
            x_arr@.len() == n,
            y_arr@.len() == n,
            old(y_arr)@.len() == n,
            i <= n,
            forall|j: int| 0 <= j < i ==> #[trigger] y_arr@[j] == f16_bits_of(x_arr@[j]),
        decreases n - i,
    {
        let z = x_arr[i];
        let sign: u32 = z >> 31;
        let exponent: u32 = (z >> 23) & 0xFF;
        let mantissa: u32 = (z & 0x7FFFFF) >> 13;
        proof {
            assert(z >> 31 < 2 && ((z >> 23) & 0xFF) < 256 && ((z & 0x7FFFFF) >> 13) < 1024)
                by (bit_vector);
        }
        let clamped: u32 = if exponent < 112 {
            0
        } else if exponent > 143 {
            31
        } else {
            exponent - 112
        };
        let f16_sign: u16 = (sign << 15) as u16;
        let f16_exponent: u16 = (clamped << 10) as u16;
        let f16_mantissa: u16 = mantissa as u16;
        let packed: u16 = f16_sign | f16_exponent | f16_mantissa;
        proof {
            assert(packed == f16_bits_of(z));
        }
        y_arr[i] = packed;
        i = i + 1;
    }
    Ok(())
}

} // verus!
