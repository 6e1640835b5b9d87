use keamogetswe::keys::{cost_key, key_bits, INFINITY_BITS};
use keamogetswe::solver::UNREACHED;

#[test]
fn keys_order_as_costs() {
    let costs = [
        f64::NEG_INFINITY,
        -1.0e300,
        -2.5,
        -1.0,
        -1.0e-300,
        0.0,
        1.0e-310,
        1.0e-300,
        0.5,
        1.0,
        2.0,
        123456.75,
        1.0e300,
        f64::MAX,
        f64::INFINITY,
    ];
    for i in 0..costs.len() {
        for j in 0..costs.len() {
            let (a, b) = (costs[i], costs[j]);
            let (ka, kb) = (cost_key(a.to_bits()), cost_key(b.to_bits()));
            assert_eq!(ka < kb, a < b, "{} vs {}", a, b);
            assert_eq!(ka == kb, a == b, "{} vs {}", a, b);
        }
    }
}

#[test]
fn key_of_infinity_is_unreached() {
    assert_eq!(INFINITY_BITS, f64::INFINITY.to_bits());
    assert_eq!(cost_key(f64::INFINITY.to_bits()), UNREACHED);
    assert!(cost_key(f64::MAX.to_bits()) < UNREACHED);
}

#[test]
fn key_bits_reads_back_the_cost() {
    for c in [0.0, 1.5, -3.25, 1.0e-310, f64::MAX, f64::NEG_INFINITY, f64::INFINITY] {
        assert_eq!(f64::from_bits(key_bits(cost_key(c.to_bits()))), c);
    }
    // negative zero reads back as positive zero and shares its key
    let nz = -0.0f64;
    assert_eq!(cost_key(nz.to_bits()), cost_key(0.0f64.to_bits()));
    assert_eq!(key_bits(cost_key(nz.to_bits())), 0);
}
