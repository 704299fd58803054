use mst::{weight_from_bits, weight_to_bits};

fn key(x: f64) -> i64 {
    weight_from_bits(x.to_bits())
}

fn number(key: i64) -> f64 {
    f64::from_bits(weight_to_bits(key))
}

#[test]
fn keys_of_some_bit_patterns() {
    assert_eq!(weight_from_bits(0), 0);
    assert_eq!(weight_from_bits(1), 1);
    assert_eq!(weight_from_bits(0x7fff_ffff_ffff_ffff), i64::MAX);
    assert_eq!(weight_from_bits(0x8000_0000_0000_0000), -1);
    assert_eq!(weight_from_bits(0x8000_0000_0000_0001), -2);
    assert_eq!(weight_from_bits(u64::MAX), i64::MIN);
}

#[test]
fn bit_patterns_of_some_keys() {
    assert_eq!(weight_to_bits(0), 0);
    assert_eq!(weight_to_bits(1), 1);
    assert_eq!(weight_to_bits(i64::MAX), 0x7fff_ffff_ffff_ffff);
    assert_eq!(weight_to_bits(-1), 0x8000_0000_0000_0000);
    assert_eq!(weight_to_bits(-2), 0x8000_0000_0000_0001);
    assert_eq!(weight_to_bits(i64::MIN), u64::MAX);
}

#[test]
fn every_weight_is_found_again() {
    let samples = [
        0.0,
        -0.0,
        1.0,
        -1.0,
        2.5,
        -2.5,
        1e-300,
        -1e-300,
        1e300,
        -1e300,
        f64::MIN_POSITIVE,
        f64::MAX,
        f64::MIN,
        f64::INFINITY,
        f64::NEG_INFINITY,
        5e-324,
    ];
    for x in samples {
        assert_eq!(number(key(x)).to_bits(), x.to_bits());
    }
    for k in [0, 1, -1, 42, -42, i64::MAX, i64::MIN] {
        assert_eq!(weight_from_bits(weight_to_bits(k)), k);
    }
}

#[test]
fn keys_are_ordered_as_the_numbers_are() {
    let ascending = [
        f64::NEG_INFINITY,
        f64::MIN,
        -1e300,
        -2.5,
        -1.0,
        -1e-300,
        -5e-324,
        0.0,
        5e-324,
        1e-300,
        1.0,
        2.5,
        1e300,
        f64::MAX,
        f64::INFINITY,
    ];
    for i in 0..ascending.len() {
        for j in 0..ascending.len() {
            assert_eq!(
                key(ascending[i]) < key(ascending[j]),
                ascending[i] < ascending[j]
            );
        }
    }
}

#[test]
fn negative_zero_comes_just_below_zero() {
    assert_eq!(key(0.0), 0);
    assert_eq!(key(-0.0), -1);
}
