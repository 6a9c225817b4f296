use cpusim::natural::{
    at_least, bit_and, bit_or, bit_xor, difference, is_zero, one, product, quotient, shl, shr, sum,
    zero, Natural,
};
use num_bigint::BigUint;

fn natural_of(s: &str) -> Natural {
    Natural::from_u32_digits(s.parse::<BigUint>().unwrap().to_u32_digits())
}

fn big(n: &Natural) -> BigUint {
    BigUint::new(n.to_u32_digits())
}

const VALUES: &[&str] = &["0", "1", "4294967295", "4294967296", "18446744073709551617", "340282366920938463463374607431768211457"];

#[test]
fn arithmetic_matches_biguint() {
    for a in VALUES {
        for b in VALUES {
            let (x, y) = (natural_of(a), natural_of(b));
            let (bx, by): (BigUint, BigUint) = (a.parse().unwrap(), b.parse().unwrap());
            assert_eq!(big(&sum(&x, &y)), &bx + &by);
            assert_eq!(big(&product(&x, &y)), &bx * &by);
            assert_eq!(big(&bit_and(&x, &y)), &bx & &by);
            assert_eq!(big(&bit_or(&x, &y)), &bx | &by);
            assert_eq!(big(&bit_xor(&x, &y)), &bx ^ &by);
            assert_eq!(at_least(&x, &y), bx >= by);
            if bx >= by {
                assert_eq!(big(&difference(&x, &y)), &bx - &by);
            }
            if by != BigUint::from(0u32) {
                assert_eq!(big(&quotient(&x, &y)), &bx / &by);
            }
        }
        let x = natural_of(a);
        let bx: BigUint = a.parse().unwrap();
        assert_eq!(big(&shl(&x, 37)), &bx << 37usize);
        assert_eq!(big(&shr(&x, 33)), &bx >> 33usize);
        assert_eq!(is_zero(&x), *a == "0");
        assert_eq!(big(&x.copy()), bx);
    }
    assert_eq!(big(&zero()), BigUint::from(0u32));
    assert_eq!(big(&one()), BigUint::from(1u32));
    // digits with high zeros stand for the same number
    assert!(is_zero(&Natural::from_u32_digits(vec![0, 0])));
}
