use nonsmallint::NonSmallInt;
use std::cmp::Ordering;

#[test]
fn double_sided_iter_digits() {
    let nsi = NonSmallInt::of(654321);
    let mut iter = nsi.iter_digits(10);

    assert_eq!(Some(0), iter.next_back());
    assert_eq!(Some(0), iter.next_back());
    assert_eq!(Some(0), iter.next_back());
    assert_eq!(Some(0), iter.next_back());
    assert_eq!(Some(1), iter.next());
    assert_eq!(Some(6), iter.next_back());
    assert_eq!(Some(5), iter.next_back());
    assert_eq!(Some(2), iter.next());
    assert_eq!(Some(3), iter.next());
    assert_eq!(Some(4), iter.next());
    assert_eq!(None, iter.next());
    assert_eq!(None, iter.next_back());

    let mut reversed: Vec<u8> = Vec::new();
    let mut back_iter = nsi.iter_digits(6);
    while let Some(d) = back_iter.next_back() {
        reversed.push(d);
    }
    let reversed_expected: Vec<u8> = (1..7).rev().collect();
    assert_eq!(reversed, reversed_expected)
}

#[test]
fn counts_length_correctly() {
    assert_eq!(NonSmallInt::of(0).length(10), 0);
    assert_eq!(NonSmallInt::of(7).length(10), 1);
    assert_eq!(NonSmallInt::of(654321).length(10), 6);
    for n in [1u64, 9, 10, 99, 100, 12345, 1000000, u64::MAX] {
        assert_eq!(NonSmallInt::of(n).length(10), format!("{}", n).len());
    }
}

#[test]
fn comparison() {
    let pairs = [(0u64, 0u64), (0, 1), (1, 0), (123, 124), (124, 123), (999, 999), (10, 100)];
    for (x, y) in pairs {
        assert_eq!(NonSmallInt::of(x).cmp(&NonSmallInt::of(y)), x.cmp(&y));
    }
    assert_eq!(NonSmallInt::of(5).cmp(&NonSmallInt::of(6)), Ordering::Less);
    assert_eq!(NonSmallInt::of(6).cmp(&NonSmallInt::of(6)), Ordering::Equal);
    assert_eq!(NonSmallInt::of(7).cmp(&NonSmallInt::of(6)), Ordering::Greater);
    assert!(NonSmallInt::of(123).lt(&NonSmallInt::of(124)));
    assert!(!NonSmallInt::of(124).lt(&NonSmallInt::of(123)));
    assert!(!NonSmallInt::of(7).lt(&NonSmallInt::of(7)));
    assert!(NonSmallInt::of(5) < NonSmallInt::of(6));
}

#[test]
fn multiplies_by_u32() {
    assert_eq!(NonSmallInt::of(123).mul_u32(456), NonSmallInt::of(123 * 456));
    assert_eq!(NonSmallInt::of(0).mul_u32(4294967295), NonSmallInt::of(0));
    assert_eq!(
        NonSmallInt::of(987654321).mul_u32(4294967295),
        NonSmallInt::of(987654321u64 * 4294967295u64)
    );
}

#[test]
fn div_by_u32() {
    let x = NonSmallInt::of(100);
    assert_eq!(x.div_u32(7), Some((NonSmallInt::of(14), NonSmallInt::of(2))));
    assert_eq!(x.div_u32(0), None);
    let big = NonSmallInt::of(18446744073709551615);
    assert_eq!(
        big.div_u32(97),
        Some((
            NonSmallInt::of(18446744073709551615 / 97),
            NonSmallInt::of(18446744073709551615 % 97)
        ))
    );
}

#[test]
fn subtracts() {
    assert_eq!(
        NonSmallInt::of(5).safe_sub(&NonSmallInt::of(5)),
        Some(NonSmallInt::of(0))
    );
    assert_eq!(NonSmallInt::of(5).safe_sub(&NonSmallInt::of(6)), None);
    assert_eq!(
        NonSmallInt::of(1000).safe_sub(&NonSmallInt::of(1)),
        Some(NonSmallInt::of(999))
    );
    assert_eq!(NonSmallInt::of(10).sub(&NonSmallInt::of(3)), NonSmallInt::of(7));
}

#[test]
fn full_division() {
    assert_eq!(
        NonSmallInt::of(100).div_nsi(&NonSmallInt::of(7)),
        Some((NonSmallInt::of(14), NonSmallInt::of(2)))
    );
    assert_eq!(NonSmallInt::of(100).div_nsi(&NonSmallInt::of(0)), None);
    let cases = [
        (18446744073709551615u64, 99999999999u64),
        (987654321987654321, 123456789),
        (98765, 432),
        (555, 556),
        (1000000007, 1000000007),
    ];
    for (x, y) in cases {
        assert_eq!(
            NonSmallInt::of(x).div_nsi(&NonSmallInt::of(y)),
            Some((NonSmallInt::of(x / y), NonSmallInt::of(x % y)))
        );
    }
}

#[test]
fn long_division_general_case() {
    let q_r = nonsmallint::divide::long_division(&NonSmallInt::of(98765), &NonSmallInt::of(432));
    assert_eq!(q_r, Some((NonSmallInt::of(228), NonSmallInt::of(269))));
}

#[test]
fn div_and_rem_entry_points() {
    assert_eq!(NonSmallInt::of(100).div(&NonSmallInt::of(7)), NonSmallInt::of(14));
    assert_eq!(NonSmallInt::of(100).rem(&NonSmallInt::of(7)), NonSmallInt::of(2));
}

#[test]
fn adds() {
    assert_eq!(NonSmallInt::of(999).add(&NonSmallInt::of(1)), NonSmallInt::of(1000));
    assert_eq!(NonSmallInt::of(0).add(&NonSmallInt::of(0)), NonSmallInt::of(0));
    assert_eq!(
        NonSmallInt::of(18446744073709551615)
            .add(&NonSmallInt::of(18446744073709551615))
            .to_decimal_string(),
        "36893488147419103230"
    );
}

#[test]
fn mul_operator() {
    assert_eq!(
        NonSmallInt::of(999).mul(&NonSmallInt::of(999)),
        NonSmallInt::of(998001)
    );
    assert_eq!(NonSmallInt::of(0).mul(&NonSmallInt::of(12345)), NonSmallInt::of(0));
    assert_eq!(
        NonSmallInt::of(123456789).mul(&NonSmallInt::of(987654321)),
        NonSmallInt::of(123456789u64 * 987654321u64)
    );
}

#[test]
fn power() {
    assert_eq!(NonSmallInt::of(2).pow(10), NonSmallInt::of(1024));
    assert_eq!(NonSmallInt::of(12345).pow(0), NonSmallInt::of(1));
    assert_eq!(NonSmallInt::of(12345).pow(1), NonSmallInt::of(12345));
    assert_eq!(NonSmallInt::of(0).pow(0), NonSmallInt::of(1));
    assert_eq!(NonSmallInt::of(10).pow(19), NonSmallInt::of(10000000000000000000));
}

#[test]
fn sums() {
    let xs = vec![NonSmallInt::of(1), NonSmallInt::of(2), NonSmallInt::of(3)];
    assert_eq!(NonSmallInt::sum(&xs), NonSmallInt::of(6));
    let empty: Vec<NonSmallInt> = Vec::new();
    assert_eq!(NonSmallInt::sum(&empty), NonSmallInt::of(0));
}

#[test]
fn parses() {
    let parsed = NonSmallInt::parse("000123");
    assert_eq!(parsed, Some(NonSmallInt::of(123)));
    assert_eq!(parsed.unwrap().length(10), 3);
    assert_eq!(NonSmallInt::parse("12a3"), None);
    assert_eq!(NonSmallInt::parse(" 42 "), Some(NonSmallInt::of(42)));
    assert_eq!(NonSmallInt::parse("\t9\n"), Some(NonSmallInt::of(9)));
    assert_eq!(NonSmallInt::parse(""), Some(NonSmallInt::of(0)));
    assert_eq!(NonSmallInt::parse("-1"), None);
    assert_eq!(NonSmallInt::parse("1 2"), None);
}

#[test]
fn displays() {
    assert_eq!(NonSmallInt::of(0).to_decimal_string(), "0");
    assert_eq!(NonSmallInt::of(10500).to_decimal_string(), "10500");
    for n in [1u64, 7, 10, 100, 654321, u64::MAX] {
        assert_eq!(NonSmallInt::of(n).to_decimal_string(), format!("{}", n));
    }
    assert_eq!(
        NonSmallInt::parse("0099").unwrap().to_decimal_string(),
        "99"
    );
}

#[test]
fn round_trips() {
    for n in [0u64, 1, 9, 10, 123, 999999999999999999, u64::MAX] {
        let v = NonSmallInt::of(n);
        assert_eq!(NonSmallInt::parse(&v.to_decimal_string()), Some(v));
    }
}

#[test]
fn zero_and_shifts() {
    assert!(NonSmallInt::of(0).is_zero());
    assert!(!NonSmallInt::of(5).is_zero());
    assert!(NonSmallInt::parse("000").unwrap().is_zero());
    assert_eq!(NonSmallInt::of(5).times_radix(2), NonSmallInt::of(500));
    assert!(NonSmallInt::of(0).times_radix(3).is_zero());
    assert_eq!(NonSmallInt::of(0), NonSmallInt::parse("0070").unwrap().sub(&NonSmallInt::of(70)));
    assert_eq!(NonSmallInt::parse("0070"), Some(NonSmallInt::of(70)));
}

#[test]
fn clone_keeps_value() {
    let a = NonSmallInt::of(987654321);
    let b = a.clone();
    assert_eq!(a, b);
    assert_eq!(b.to_decimal_string(), "987654321");
}
