use battlefield_sim::order::{le, lt, total_key_of};

fn b(x: f64) -> u64 {
    x.to_bits()
}

#[test]
fn ieee_comparisons_on_bit_patterns() {
    let values = [-f64::INFINITY, -3.5, -0.0, 0.0, 1e-300, 2.0, 10.0, f64::INFINITY, f64::NAN, -f64::NAN];
    for &x in &values {
        for &y in &values {
            assert_eq!(lt(b(x), b(y)), x < y, "{x} < {y}");
            assert_eq!(le(b(x), b(y)), x <= y, "{x} <= {y}");
            assert_eq!(
                total_key_of(b(x)).cmp(&total_key_of(b(y))),
                x.total_cmp(&y),
                "total_cmp {x} {y}"
            );
        }
    }
}
