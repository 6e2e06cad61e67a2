use proxybroker::measure::Measure;

fn m(x: f64) -> Measure {
    Measure { bits: x.to_bits() }
}

#[test]
fn measures_order_as_their_numbers() {
    let rising = [
        f64::NEG_INFINITY,
        -1.5,
        -0.0,
        0.0,
        5e-324,
        0.3,
        1.0,
        1e300,
        f64::INFINITY,
        f64::NAN,
    ];
    for pair in rising.windows(2) {
        assert!(m(pair[0]).order_key() < m(pair[1]).order_key());
    }
    assert_eq!(Measure::zero(), m(0.0));
    assert_eq!(Measure::one(), m(1.0));
}

#[test]
fn exceeding_is_that_of_numbers() {
    let all = [-1.0, -0.0, 0.0, 0.5, 2.0, f64::INFINITY, f64::NAN, f64::NEG_INFINITY];
    for a in all {
        for b in all {
            assert_eq!(m(a).exceeds(m(b)), a > b, "{a} {b}");
        }
    }
}
