use qb_tools::number::{parse_decimal, Number};

fn num(value: f64) -> Number {
    Number { bits: value.to_bits() }
}

fn value(number: Number) -> f64 {
    f64::from_bits(number.bits)
}

fn next(seed: &mut u64) -> u64 {
    *seed ^= *seed << 13;
    *seed ^= *seed >> 7;
    *seed ^= *seed << 17;
    *seed
}

fn same(left: f64, right: f64) -> bool {
    left.to_bits() == right.to_bits() || (left.is_nan() && right.is_nan())
}

/// Numbers of all kinds: special ones, small integers, close neighbours and arbitrary bits.
fn samples() -> Vec<f64> {
    let mut list = vec![
        0.0,
        -0.0,
        1.0,
        -1.0,
        0.1,
        100.0,
        1024.0,
        1_073_741_824.0,
        f64::MAX,
        f64::MIN,
        f64::MIN_POSITIVE,
        f64::from_bits(1),
        f64::from_bits(0x000f_ffff_ffff_ffff),
        f64::INFINITY,
        f64::NEG_INFINITY,
        f64::NAN,
        9_007_199_254_740_993.0,
        1e-300,
        1e300,
    ];
    let mut seed: u64 = 0x9e37_79b9_7f4a_7c15;
    for _ in 0..12 {
        list.push(f64::from_bits(next(&mut seed)));
    }
    for _ in 0..6 {
        list.push((next(&mut seed) % 2_000_000) as f64 / 1000.0);
    }
    list
}

#[test]
fn products_are_rounded_to_the_nearest_number() {
    for left in samples() {
        for right in samples() {
            assert!(
                same(value(num(left).times(num(right))), left * right),
                "{left:e} * {right:e}"
            );
        }
    }
}

#[test]
fn quotients_are_rounded_to_the_nearest_number() {
    for left in samples() {
        for right in samples() {
            assert!(
                same(value(num(left).over(num(right))), left / right),
                "{left:e} / {right:e}"
            );
        }
    }
}

#[test]
fn sums_are_rounded_to_the_nearest_number() {
    for left in samples() {
        for right in samples() {
            if left.is_nan() || right.is_nan() {
                continue;
            }
            let left = left.abs();
            let right = right.abs();
            assert!(
                same(value(num(left).plus(num(right))), left + right),
                "{left:e} + {right:e}"
            );
        }
    }
}

#[test]
fn numbers_compare_by_their_amount() {
    for left in samples() {
        for right in samples() {
            assert_eq!(num(left).less(num(right)), left < right);
            assert_eq!(num(left).same(num(right)), left == right);
        }
        assert_eq!(num(left).none(), left.is_nan());
        assert_eq!(num(left).finite(), left.is_finite());
    }
}

#[test]
fn integers_become_the_nearest_number() {
    let mut seed: u64 = 42;
    let mut list: Vec<u64> = vec![0, 1, 2, 100, 1 << 53, (1 << 53) + 1, (1 << 53) + 3, u64::MAX];
    for shift in 0..64 {
        list.push(next(&mut seed) >> shift);
    }
    for natural in list {
        assert_eq!(value(Number::from_natural(natural)), natural as f64);
        let integer = natural as i64;
        assert_eq!(value(Number::from_integer(integer)), integer as f64);
        assert_eq!(
            value(Number::from_difference(0, integer)),
            -(integer as i128) as f64 + 0.0
        );
        assert_eq!(
            value(Number::from_difference(integer, i64::MAX)),
            (integer as i128 - i64::MAX as i128) as f64
        );
    }
    assert_eq!(
        value(Number::from_difference(i64::MAX, i64::MIN)),
        (i64::MAX as i128 - i64::MIN as i128) as f64
    );
}

#[test]
fn whole_numbers_are_cut_and_raised() {
    for sample in samples() {
        assert_eq!(num(sample).floor(u64::MAX), sample as u64, "{sample:e}");
        assert_eq!(num(sample).ceiling(u64::MAX), sample.ceil() as u64, "{sample:e}");
    }
    assert_eq!(num(2.5).floor(u64::MAX), 2);
    assert_eq!(num(2.5).ceiling(u64::MAX), 3);
    assert_eq!(num(1e30).floor(u64::MAX), u64::MAX);
    assert_eq!(num(12.0).floor(5), 5);
    assert_eq!(num(12.25).ceiling(5), 5);
}

fn read(text: &str) -> Option<f64> {
    let chars: Vec<char> = text.chars().collect();
    parse_decimal(&chars).map(value)
}

#[test]
fn decimals_become_the_nearest_number() {
    let texts = [
        "0",
        "1",
        "1209600",
        "0.1",
        "12.5",
        "3.",
        ".5",
        "0.0000003",
        "9007199254740993",
        "2.2250738585072011",
        "179769313486231580793728971405303415079934132710037826936173778980444968292764750946",
        "0.30000000000000004",
        "123456789012345678901234567890.123456789",
        "00012.2500",
    ];
    for text in texts {
        assert_eq!(read(text), text.parse::<f64>().ok(), "{text}");
    }
}

#[test]
fn what_is_no_decimal_is_turned_down() {
    for text in ["", ".", "1.2.3", "1..", ".."] {
        assert_eq!(read(text), None, "{text}");
        assert!(text.parse::<f64>().is_err(), "{text}");
    }
}
