use tricord::natural::Natural;
use tricord::quantity::{in_grains, nearest_to, net_in_grains, Quantity};
use tricord::text::{push_decimal, push_natural, push_padded, same_text};

fn q(value: f64) -> Quantity {
    Quantity::from_bits(value.to_bits())
}

fn float(quantity: Quantity) -> f64 {
    f64::from_bits(quantity.to_bits())
}

/// Numbers of all sizes, the same in every run.
fn samples() -> Vec<u64> {
    let mut out = vec![0, 1, 2, 3, 99, 100, u64::MAX, u64::MAX - 1, 1 << 53, (1 << 53) + 1];
    let mut state: u64 = 0x9e37_79b9_7f4a_7c15;
    for i in 0..60u32 {
        state ^= state << 13;
        state ^= state >> 7;
        state ^= state << 17;
        out.push(state >> (i % 60));
    }
    out
}

#[test]
fn text_agrees_with_float_formatting() {
    let mut values = vec![
        0.0, -0.0, 0.125, 0.375, 0.5, 1.5, 2.5, 0.1, 0.005, 0.00005, 7.9, 95.2, 12.3456, 1e15,
        1e16, 123456789.987654321, 1e22, 1e23, 1e300, f64::MAX, f64::MIN_POSITIVE, 5e-324, 1e-10,
        f64::INFINITY, f64::NEG_INFINITY, f64::NAN, -7.25,
    ];
    for n in samples() {
        let value = f64::from_bits(n);
        values.push(value);
        values.push(n as f64 / 1048576.0);
        values.push(n as f64 / 1e9);
        values.push(-(n as f64) / 3.0);
    }
    for value in values {
        assert_eq!(q(value).to_fixed(0), format!("{:.0}", value));
        assert_eq!(q(value).to_fixed(1), format!("{:.1}", value));
        assert_eq!(q(value).to_fixed(2), format!("{:.2}", value));
        assert_eq!(q(value).to_fixed(4), format!("{:.4}", value));
        assert_eq!(q(value).to_fixed(19), format!("{:.19}", value));
        assert_eq!(q(value).whole_units(), value.max(0.0) as u64);
    }
}

#[test]
fn text_takes_the_even_one_on_a_tie() {
    assert_eq!(q(0.125).to_fixed(2), "0.12");
    assert_eq!(q(0.375).to_fixed(2), "0.38");
    assert_eq!(Quantity::mebibytes(131_072).to_fixed(2), "0.12");
}

#[test]
fn text_agrees_with_float_formatting_on_dyadic_values() {
    for numerator in 0..500u64 {
        for shift in 0..12u32 {
            let value = numerator as f64 / (1u64 << shift) as f64;
            assert_eq!(q(value).to_fixed(2), format!("{:.2}", value));
        }
    }
}

#[test]
fn arithmetic_agrees_with_floats() {
    for a in samples() {
        let x = a as f64;
        assert_eq!(float(Quantity::of_u64(a)), x);
        assert_eq!(float(Quantity::mebibytes(a)), x / (1024.0 * 1024.0));
        assert_eq!(float(q(x).multiplied_by(100)), x * 100.0);
        assert_eq!(float(q(x).divided_by(1_000_000_000)), x / 1_000_000_000.0);
        for b in samples() {
            let y = b as f64 / 7.0;
            assert_eq!(float(q(x).add_to(&q(y))), x + y);
            assert_eq!(q(x).is_above(&q(y)), x > y);
            assert_eq!(q(-x).is_above(&q(y)), -x > y);
            assert_eq!(q(-x).is_above(&q(-y)), -x > -y);
            if y > 0.0 {
                assert_eq!(float(q(x).ratio_to(&q(y))), x / y);
            }
        }
    }
}

#[test]
fn specials_compute_as_floats_do() {
    let inf = q(f64::INFINITY);
    let nan = q(f64::NAN);
    assert_eq!(float(inf.add_to(&q(1.0))), f64::INFINITY);
    assert!(float(nan.add_to(&q(1.0))).is_nan());
    assert!(float(inf.ratio_to(&inf)).is_nan());
    assert_eq!(float(inf.ratio_to(&q(2.0))), f64::INFINITY);
    assert_eq!(float(q(2.0).ratio_to(&inf)), 0.0);
    assert_eq!(float(inf.multiplied_by(100)), f64::INFINITY);
    assert_eq!(float(inf.divided_by(3)), f64::INFINITY);
    assert!(float(nan.multiplied_by(2)).is_nan());
    assert_eq!(float(q(f64::MAX).multiplied_by(2)), f64::INFINITY);
    assert_eq!(float(q(5e-324).divided_by(2)), 0.0);
    assert_eq!(float(q(1.5e-323).divided_by(2)), 1e-323);
    assert!(!nan.is_above(&q(0.0)) && !q(0.0).is_above(&nan));
    assert!(!q(0.0).is_above(&q(-0.0)) && inf.is_above(&q(f64::MAX)));
    assert_eq!(float(q(3.5).negated()), -3.5);
    assert!(inf.infinite() && q(f64::NEG_INFINITY).infinite() && !nan.infinite());
    assert!(nan.no_number() && !inf.no_number() && !q(1.0).no_number());
    assert!(q(-1.0).is_negative() && q(-0.0).is_negative() && !q(1.0).is_negative());
    assert_eq!(float(q(3.5).signed(true)), -3.5);
    assert_eq!(float(q(3.5).signed(false)), 3.5);
}

#[test]
fn products_and_quotients_keep_the_sign() {
    for x in [-0.0, -1.0, -0.1, -3.5e300, -5e-324, f64::NEG_INFINITY] {
        assert_eq!(q(x).multiplied_by(100).to_bits(), (x * 100.0).to_bits());
        assert_eq!(q(x).divided_by(3).to_bits(), (x / 3.0).to_bits());
        assert_eq!(q(x).ratio_to(&q(7.0)).to_bits(), (x / 7.0).to_bits());
    }
    assert_eq!(float(q(1.0).ratio_to(&q(0.0))), f64::INFINITY);
    assert_eq!(float(q(-1.0).ratio_to(&q(0.0))), f64::NEG_INFINITY);
    assert_eq!(float(q(f64::INFINITY).ratio_to(&q(0.0))), f64::INFINITY);
    assert!(float(q(0.0).ratio_to(&q(0.0))).is_nan());
    assert!(float(q(1.0).ratio_to(&q(f64::NAN))).is_nan());
    assert_eq!(q(-1.0).ratio_to(&q(f64::INFINITY)).to_bits(), (-0.0f64).to_bits());
}

#[test]
fn a_net_amount_has_the_sign_of_the_larger_side() {
    let net = |gains: u64, losses: u64| {
        float(net_in_grains(&Natural::from_u64(gains), &Natural::from_u64(losses)))
    };
    assert_eq!(net(3, 1), 1e-323);
    assert_eq!(net(1, 3), -1e-323);
    assert_eq!(net(5, 5).to_bits(), 0.0f64.to_bits());
}

#[test]
fn nearest_of_a_fraction_is_the_correctly_rounded_quotient() {
    for (a, b) in [(1u64, 3u64), (2, 3), (1, 10), (22, 7), (1, 1 << 60), (u64::MAX, 3)] {
        let found = nearest_to(&Natural::from_u64(a), &Natural::from_u64(b));
        if a < 1 << 53 && b < 1 << 53 || b == 1 << 60 {
            assert_eq!(float(found), a as f64 / b as f64);
        }
    }
    assert_eq!(float(in_grains(&Natural::from_u64(1))), 5e-324);
}

#[test]
fn naturals_compute_beyond_machine_words() {
    let mut n = Natural::from_u64(u64::MAX);
    n.times_plus(u32::MAX, 7);
    let copy = n.copy();
    n.shift(100);
    let mut text = String::new();
    push_natural(&mut text, &copy);
    assert_eq!(text, "79228162495817593515539431432");
    assert!(copy.minus(&n).is_none());
    assert!(copy.minus(&copy).unwrap().is_zero());
    let mut sum = copy.copy();
    sum.plus(&copy);
    let half = sum.minus(&copy).unwrap();
    let mut text = String::new();
    push_natural(&mut text, &half);
    assert_eq!(text, "79228162495817593515539431432");
    assert_eq!(sum.divide(10), 4);
    assert!(!n.is_zero());
}

#[test]
fn numerals_are_appended() {
    let mut out = "n=".to_string();
    push_decimal(&mut out, 1070);
    push_padded(&mut out, 7, 3);
    push_padded(&mut out, 1234, 2);
    assert_eq!(out, "n=107000734");
    assert!(same_text("abc", "abc"));
    assert!(!same_text("abc", "abd"));
    assert!(!same_text("abc", "ab"));
}
