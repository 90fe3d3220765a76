use electrostatic_2d::convert_f32_to_f16;
use electrostatic_2d::FieldError;

fn convert_one(x: f32) -> u16 {
    let bits = vec![x.to_bits()];
    let mut out = vec![0u16];
    convert_f32_to_f16(&bits, &mut out).unwrap();
    out[0]
}

#[test]
fn converts_simple_values() {
    assert_eq!(convert_one(0.0), 0x0000);
    assert_eq!(convert_one(1.0), 0x3C00);
    assert_eq!(convert_one(2.0), 0x4000);
    assert_eq!(convert_one(-2.0), 0xC000);
    assert_eq!(convert_one(0.5), 0x3800);
    // -1.5: sign 1, exponent 15, top mantissa bit set
    assert_eq!(convert_one(-1.5), 0xBE00);
}

#[test]
fn mantissa_is_truncated_not_rounded() {
    // 1.0009765625 = 1 + 2^-10: the kept ten mantissa bits end in ...01
    assert_eq!(convert_one(1.0009765625), 0x3C01);
    // 1 + 2^-11 lies between two representable values and truncates down
    assert_eq!(convert_one(1.00048828125), 0x3C00);
}

#[test]
fn exponent_clamps_at_both_ends() {
    // 2^100 is far above the 5-bit exponent range: clamps to 31
    let huge = (2.0f32).powi(100);
    assert_eq!(convert_one(huge) >> 10, 0b0_11111);
    // 2^-100 is far below: clamps to 0
    let tiny = (2.0f32).powi(-100);
    assert_eq!(convert_one(tiny) >> 10, 0);
}

#[test]
fn converts_a_whole_buffer_in_place() {
    let xs = vec![1.0f32.to_bits(), 2.0f32.to_bits(), 0.5f32.to_bits()];
    let mut out = vec![0u16; 3];
    convert_f32_to_f16(&xs, &mut out).unwrap();
    assert_eq!(out, vec![0x3C00, 0x4000, 0x3800]);
}

#[test]
fn conversion_rejects_mismatched_lengths() {
    let xs = vec![0u32; 3];
    let mut out = vec![0u16; 2];
    assert_eq!(
        convert_f32_to_f16(&xs, &mut out).unwrap_err(),
        FieldError::LengthMismatch
    );
    assert_eq!(out, vec![0, 0]);
}
