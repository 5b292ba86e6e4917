use vox::scale::{bits_of_level, canonical_bits, level_of_bits};

fn level(x: f32) -> i32 {
    level_of_bits(x.to_bits())
}

#[test]
fn level_has_the_sign_of_the_number() {
    assert_eq!(level(0.0), 0);
    assert_eq!(level(-0.0), 0);
    assert!(level(1.0e-30) > 0);
    assert!(level(-1.0e-30) < 0);
    assert_eq!(level(1.0), 0x3f80_0000);
    assert_eq!(level(-1.0), -0x3f80_0000);
}

#[test]
fn level_orders_as_the_numbers_do() {
    let numbers = [
        f32::NEG_INFINITY,
        f32::MIN,
        -1000.5,
        -1.0,
        -0.25,
        -f32::MIN_POSITIVE,
        0.0,
        f32::MIN_POSITIVE,
        0.25,
        0.8660254,
        1.0,
        1.5,
        1000.5,
        f32::MAX,
        f32::INFINITY,
    ];
    for i in 0..numbers.len() {
        for j in 0..numbers.len() {
            assert_eq!(level(numbers[i]) < level(numbers[j]), numbers[i] < numbers[j]);
        }
    }
}

#[test]
fn level_and_bits_go_back_and_forth() {
    for x in [0.0f32, 1.0, -1.0, 0.8660254, -123.456, f32::MAX, f32::MIN, f32::INFINITY] {
        assert_eq!(f32::from_bits(bits_of_level(level(x))), x);
    }
    assert_eq!(bits_of_level(level(-0.0)), 0);
    assert_eq!(bits_of_level(0), 0);
    assert_eq!(bits_of_level(-1), 0x8000_0001);
    assert_eq!(bits_of_level(i32::MAX), 0x7fff_ffff);
    assert_eq!(bits_of_level(i32::MIN + 1), 0xffff_ffff);
    assert_eq!(bits_of_level(i32::MIN), 0xffff_ffff);
    assert_eq!(level_of_bits(0xffff_ffff), i32::MIN + 1);
}

#[test]
fn canonical_bits_join_what_counts_as_equal() {
    assert_eq!(canonical_bits((0.0f32).to_bits()), 0);
    assert_eq!(canonical_bits((-0.0f32).to_bits()), 0);
    assert_eq!(canonical_bits(f32::NAN.to_bits()), 0x7fc0_0000);
    assert_eq!(canonical_bits(0x7f80_0001), 0x7fc0_0000);
    assert_eq!(canonical_bits(0xffff_ffff), 0x7fc0_0000);
    assert_eq!(canonical_bits(f32::INFINITY.to_bits()), f32::INFINITY.to_bits());
    assert_eq!(canonical_bits(f32::NEG_INFINITY.to_bits()), f32::NEG_INFINITY.to_bits());
    assert_eq!(canonical_bits((1.5f32).to_bits()), (1.5f32).to_bits());
    assert_eq!(canonical_bits((-1.5f32).to_bits()), (-1.5f32).to_bits());
}
