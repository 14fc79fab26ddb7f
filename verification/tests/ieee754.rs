use rtmp_core::ieee754::single::Single;
use rtmp_core::ieee754::Double;

fn next(state: &mut u64) -> u64 {
    *state = state.wrapping_mul(6364136223846793005).wrapping_add(1442695040888963407);
    let mut mixed = *state;
    mixed ^= mixed >> 33;
    mixed = mixed.wrapping_mul(0xff51afd7ed558ccd);
    mixed ^= mixed >> 29;
    mixed
}

fn double_of(value: f64) -> Double {
    Double { bits: value.to_bits() }
}

fn single_of(value: f32) -> Single {
    Single { bits: value.to_bits() }
}

fn check_to_u32(bits: u64) {
    let expected = f64::from_bits(bits) as u32;
    assert_eq!(Double { bits }.to_u32(), expected, "bits {:#x}", bits);
}

fn check_to_single(bits: u64) {
    let value = f64::from_bits(bits);
    let narrow = Double { bits }.to_single();
    if value.is_nan() {
        assert!(f32::from_bits(narrow.bits).is_nan(), "bits {:#x}", bits);
        assert_eq!(narrow.bits & 0x0040_0000, 0x0040_0000);
        assert_eq!((narrow.bits >> 31) as u64, bits >> 63);
    } else {
        assert_eq!(narrow.bits, (value as f32).to_bits(), "bits {:#x}", bits);
    }
}

fn check_to_double(bits: u32) {
    let value = f32::from_bits(bits);
    let wide = Single { bits }.to_double();
    if value.is_nan() {
        assert!(f64::from_bits(wide.bits).is_nan(), "bits {:#x}", bits);
        assert_eq!(wide.bits & 0x0008_0000_0000_0000, 0x0008_0000_0000_0000);
        assert_eq!(wide.bits >> 63, (bits >> 31) as u64);
    } else {
        assert_eq!(wide.bits, (value as f64).to_bits(), "bits {:#x}", bits);
    }
}

#[test]
fn from_u32_gives_the_exact_number() {
    assert_eq!(Double::from_u32(0).bits, 0);
    assert_eq!(Double::from_u32(1).bits, 0x3FF0_0000_0000_0000);
    assert_eq!(Double::from_u32(2).bits, 0x4000_0000_0000_0000);
    assert_eq!(Double::from_u32(3).bits, 0x4008_0000_0000_0000);
    assert_eq!(Double::from_u32(1920).bits, 1920.0f64.to_bits());
    assert_eq!(Double::from_u32(u32::MAX).bits, 4294967295.0f64.to_bits());
}

#[test]
fn from_u32_agrees_with_the_machine() {
    let mut state: u64 = 17;
    for _ in 0..200_000 {
        let value = next(&mut state) as u32;
        assert_eq!(Double::from_u32(value).bits, (value as f64).to_bits());
        let small = value >> (next(&mut state) % 32);
        assert_eq!(Double::from_u32(small).bits, (small as f64).to_bits());
    }
    for shift in 0..32u32 {
        let power = 1u32 << shift;
        assert_eq!(Double::from_u32(power).bits, (power as f64).to_bits());
        assert_eq!(Double::from_u32(power - 1).bits, ((power - 1) as f64).to_bits());
        assert_eq!(Double::from_u32(power | 1).bits, ((power | 1) as f64).to_bits());
    }
}

#[test]
fn to_u32_rounds_toward_zero_and_saturates() {
    assert_eq!(double_of(0.0).to_u32(), 0);
    assert_eq!(double_of(-0.0).to_u32(), 0);
    assert_eq!(double_of(0.999).to_u32(), 0);
    assert_eq!(double_of(1.0).to_u32(), 1);
    assert_eq!(double_of(1.999).to_u32(), 1);
    assert_eq!(double_of(1920.0).to_u32(), 1920);
    assert_eq!(double_of(29.97).to_u32(), 29);
    assert_eq!(double_of(-1.0).to_u32(), 0);
    assert_eq!(double_of(-5000000000.0).to_u32(), 0);
    assert_eq!(double_of(4294967295.0).to_u32(), u32::MAX);
    assert_eq!(double_of(4294967295.5).to_u32(), u32::MAX);
    assert_eq!(double_of(4294967296.0).to_u32(), u32::MAX);
    assert_eq!(double_of(1e300).to_u32(), u32::MAX);
    assert_eq!(double_of(f64::INFINITY).to_u32(), u32::MAX);
    assert_eq!(double_of(f64::NEG_INFINITY).to_u32(), 0);
    assert_eq!(double_of(f64::NAN).to_u32(), 0);
    assert_eq!(double_of(-f64::NAN).to_u32(), 0);
    assert_eq!(double_of(f64::MIN_POSITIVE).to_u32(), 0);
    assert_eq!(Double { bits: 1 }.to_u32(), 0);
    assert_eq!(Double { bits: 0x7FF0_0000_0000_0001 }.to_u32(), 0);
}

#[test]
fn to_u32_agrees_with_the_machine() {
    let mut state: u64 = 99;
    for _ in 0..200_000 {
        let bits = next(&mut state);
        check_to_u32(bits);
        // Exponents near the range of 32-bit integers.
        let exponent = 1015 + next(&mut state) % 50;
        let near = (bits & 0x800F_FFFF_FFFF_FFFF) | (exponent << 52);
        check_to_u32(near);
        check_to_u32(near & 0x7FFF_FFFF_FFFF_FFFF);
    }
    for exponent in 0..2048u64 {
        check_to_u32(exponent << 52);
        check_to_u32((exponent << 52) | 0x000F_FFFF_FFFF_FFFF);
        check_to_u32((exponent << 52) | 0x0008_0000_0000_0000);
        check_to_u32((exponent << 52) | 1);
    }
}

#[test]
fn u32_round_trips_through_a_double() {
    let mut state: u64 = 5;
    for _ in 0..100_000 {
        let value = next(&mut state) as u32;
        assert_eq!(Double::from_u32(value).to_u32(), value);
    }
    for value in [0u32, 1, 2, 1920, 1080, 44100, u32::MAX - 1, u32::MAX] {
        assert_eq!(Double::from_u32(value).to_u32(), value);
    }
}

#[test]
fn to_single_rounds_to_nearest_even() {
    assert_eq!(double_of(0.0).to_single().bits, 0);
    assert_eq!(double_of(-0.0).to_single().bits, 0x8000_0000);
    assert_eq!(double_of(1.0).to_single().bits, 0x3F80_0000);
    assert_eq!(double_of(29.97).to_single().bits, 29.97f32.to_bits());
    assert_eq!(double_of(-30.0).to_single().bits, (-30.0f32).to_bits());
    // Half way between two binary32 numbers: the even one wins.
    assert_eq!(Double { bits: 0x3FF0_0000_1000_0000 }.to_single().bits, 0x3F80_0000);
    assert_eq!(Double { bits: 0x3FF0_0000_3000_0000 }.to_single().bits, 0x3F80_0002);
    // Just above and just below half way.
    assert_eq!(Double { bits: 0x3FF0_0000_1000_0001 }.to_single().bits, 0x3F80_0001);
    assert_eq!(Double { bits: 0x3FF0_0000_2FFF_FFFF }.to_single().bits, 0x3F80_0001);
    // A carry out of the significand reaches the next exponent.
    assert_eq!(Double { bits: 0x3FFF_FFFF_F000_0000 }.to_single().bits, 0x4000_0000);
    // Beyond the largest binary32 number.
    assert_eq!(double_of(1e300).to_single().bits, 0x7F80_0000);
    assert_eq!(double_of(-1e300).to_single().bits, 0xFF80_0000);
    assert_eq!(double_of(3.4028235677973366e38).to_single().bits, 0x7F80_0000);
    assert_eq!(double_of(f64::INFINITY).to_single().bits, 0x7F80_0000);
    assert_eq!(double_of(f64::NEG_INFINITY).to_single().bits, 0xFF80_0000);
    // Subnormal results and underflow.
    assert_eq!(double_of(1e-40).to_single().bits, 1e-40f32.to_bits());
    assert_eq!(double_of(1e-46).to_single().bits, 0);
    assert_eq!(double_of(-1e-46).to_single().bits, 0x8000_0000);
    assert_eq!(double_of(f64::MIN_POSITIVE).to_single().bits, 0);
    assert_eq!(Double { bits: 1 }.to_single().bits, 0);
    // A NaN stays a NaN, and comes out quiet.
    assert_eq!(double_of(f64::NAN).to_single().bits, 0x7FC0_0000);
    assert_eq!(Double { bits: 0x7FF0_0000_0000_0001 }.to_single().bits, 0x7FC0_0000);
    assert_eq!(Double { bits: 0xFFF4_0000_2000_0000 }.to_single().bits, 0xFFE0_0001);
}

#[test]
fn to_single_agrees_with_the_machine() {
    let mut state: u64 = 12345;
    for _ in 0..200_000 {
        let bits = next(&mut state);
        check_to_single(bits);
        // Exponents in and around the binary32 range, ties included.
        let exponent = 860 + next(&mut state) % 300;
        let near = (bits & 0x800F_FFFF_FFFF_FFFF) | (exponent << 52);
        check_to_single(near);
        check_to_single(near & 0xFFFF_FFFF_F000_0000);
        check_to_single(near & 0xFFFF_FFFF_E000_0000);
        check_to_single((near & 0xFFFF_FFFF_E000_0000) | 0x1000_0000);
        check_to_single(near | 0x0000_0000_0FFF_FFFF);
        check_to_single(near | 0x000F_FFFF_FFFF_FFFF);
    }
    for exponent in 0..2048u64 {
        for fraction in [
            0u64,
            1,
            0x0000_0000_1000_0000,
            0x0000_0000_0FFF_FFFF,
            0x0000_0000_1000_0001,
            0x0000_0000_3000_0000,
            0x0008_0000_0000_0000,
            0x000F_FFFF_E000_0000,
            0x000F_FFFF_F000_0000,
            0x000F_FFFF_FFFF_FFFF,
        ] {
            check_to_single((exponent << 52) | fraction);
            check_to_single((1 << 63) | (exponent << 52) | fraction);
        }
    }
}

#[test]
fn to_single_agrees_with_the_machine_on_every_subnormal_shift() {
    // Each exponent below the normal binary32 range, with each position of
    // the rounding bit.
    for exponent in 840..900u64 {
        for bit in 0..52u64 {
            let fraction = 1u64 << bit;
            check_to_single((exponent << 52) | fraction);
            check_to_single((exponent << 52) | (fraction - 1));
            check_to_single((exponent << 52) | fraction | (fraction >> 1));
            check_to_single((exponent << 52) | fraction | 1);
            check_to_single((exponent << 52) | (0x000F_FFFF_FFFF_FFFF & !fraction));
        }
    }
}

#[test]
fn to_double_gives_the_same_value() {
    assert_eq!(single_of(0.0).to_double().bits, 0);
    assert_eq!(single_of(-0.0).to_double().bits, 0x8000_0000_0000_0000);
    assert_eq!(single_of(1.0).to_double().bits, 0x3FF0_0000_0000_0000);
    assert_eq!(single_of(29.97).to_double().bits, (29.97f32 as f64).to_bits());
    assert_eq!(single_of(f32::MAX).to_double().bits, (f32::MAX as f64).to_bits());
    assert_eq!(single_of(f32::MIN_POSITIVE).to_double().bits, (f32::MIN_POSITIVE as f64).to_bits());
    assert_eq!(Single { bits: 1 }.to_double().bits, (f32::from_bits(1) as f64).to_bits());
    assert_eq!(Single { bits: 0x007F_FFFF }.to_double().bits, (f32::from_bits(0x007F_FFFF) as f64).to_bits());
    assert_eq!(single_of(f32::INFINITY).to_double().bits, 0x7FF0_0000_0000_0000);
    assert_eq!(single_of(f32::NEG_INFINITY).to_double().bits, 0xFFF0_0000_0000_0000);
    assert_eq!(single_of(f32::NAN).to_double().bits, 0x7FF8_0000_0000_0000);
    assert_eq!(Single { bits: 0x7F80_0001 }.to_double().bits, 0x7FF8_0000_2000_0000);
}

#[test]
fn to_double_agrees_with_the_machine() {
    let mut state: u64 = 777;
    for _ in 0..300_000 {
        let bits = next(&mut state) as u32;
        check_to_double(bits);
        check_to_double(bits & 0x807F_FFFF);
        check_to_double(bits & 0x8000_FFFF);
    }
    for exponent in 0..256u32 {
        for fraction in [0u32, 1, 2, 0x0040_0000, 0x003F_FFFF, 0x007F_FFFF] {
            check_to_double((exponent << 23) | fraction);
            check_to_double((1 << 31) | (exponent << 23) | fraction);
        }
    }
    for bit in 0..23u32 {
        check_to_double(1 << bit);
        check_to_double((1 << bit) | 1);
        check_to_double((1 << bit) - 1);
    }
}

#[test]
fn single_round_trips_through_a_double() {
    let mut state: u64 = 4242;
    for _ in 0..300_000 {
        let bits = next(&mut state) as u32;
        let single = Single { bits };
        let signaling = (bits & 0x7F80_0000) == 0x7F80_0000
            && (bits & 0x007F_FFFF) != 0
            && (bits & 0x0040_0000) == 0;
        let back = single.to_double().to_single();
        if signaling {
            assert_eq!(back.bits, bits | 0x0040_0000);
        } else {
            assert_eq!(back, single);
        }
        let subnormal = Single { bits: bits & 0x807F_FFFF };
        assert_eq!(subnormal.to_double().to_single(), subnormal);
    }
}

#[test]
fn bits_pass_through_unchanged() {
    assert_eq!(Double::from_bits(0x4000_0000_0000_0001).to_bits(), 0x4000_0000_0000_0001);
    assert_eq!(Single::from_bits(0x4000_0001).to_bits(), 0x4000_0001);
    assert_eq!(Double::from_bits(7), Double { bits: 7 });
    assert_eq!(Single::from_bits(7), Single { bits: 7 });
}
