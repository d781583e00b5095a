use algokit::karatsuba::karatsuba;

#[test]
fn four_digit_products() {
    assert_eq!(karatsuba(1234, 5678), 7006652);
    assert_eq!(karatsuba(9999, 9999), 99980001);
}

#[test]
fn unequal_lengths_fall_back_to_native() {
    assert_eq!(karatsuba(0, 1234), 0);
    assert_eq!(karatsuba(1234, 0), 0);
    assert_eq!(karatsuba(12, 3456), 41472);
}

#[test]
fn odd_digit_counts_multiply_exactly() {
    assert_eq!(karatsuba(100, 100), 10000);
    assert_eq!(karatsuba(123, 456), 56088);
    assert_eq!(karatsuba(99999, 10001), 1000089999);
}

#[test]
fn equal_lengths_match_native_products() {
    let samples: [(u128, u128); 6] = [
        (7, 9),
        (10, 99),
        (123456789, 987654321),
        (1000000000, 1000000000),
        (999999999, 999999999),
        (31415926, 27182818),
    ];
    for (x, y) in samples {
        assert_eq!(karatsuba(x, y), x * y);
    }
}
