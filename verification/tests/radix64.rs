use oyster::bignum::Bignum;
use rand::Rng;
use oyster::radix256::FromRadix256Bytes;
use oyster::radix64::{FromRadix64String, ToRadix64String};

fn get_random_bignum_256_bits() -> Bignum {
    let mut bytes: Vec<u8> = Vec::with_capacity(32);
    for _ in 0..32 {
        let b: u8 = rand::thread_rng().gen();
        bytes.push(b);
    }
    Bignum::from_radix256_bytes(&bytes).unwrap()
}

#[test]
fn t_to_radix64_and_back_random() {
    for _ in 0..100 {
        let n = get_random_bignum_256_bits();
        let s = n.to_radix64_string();
        let n2 = Bignum::from_radix64_string(&s).unwrap();
        assert_eq!(n, n2);
    }
}

#[test]
fn t_to_radix64_and_back_systematically() {
    for i in 1..=1000000u64 {
        let n = Bignum::from_u64(i);
        let s = n.to_radix64_string();
        let n2 = Bignum::from_radix64_string(&s).unwrap();
        assert_eq!(n, n2);
    }
}

#[test]
fn t_to_radix64_and_back() {
    let n = Bignum::from_u64(2342666);
    let s = n.to_radix64_string();
    println!("{}", s);
}

#[test]
fn t_radix64_exact() {
    let n = Bignum::from_u64(2342666);
    let s = n.to_radix64_string();
    assert_eq!(s, "8XYa");
    let n2 = Bignum::from_radix64_string(&s).unwrap();
    assert_eq!(n2, n);
}

#[test]
fn t_radix64_zero() {
    let n = Bignum::from_u64(0);
    assert_eq!(n.to_radix64_string(), "0");
    let n2 = Bignum::from_radix64_string("0").unwrap();
    assert_eq!(n2, n);
}

#[test]
fn t_radix64_empty_rejected() {
    assert!(Bignum::from_radix64_string("").is_err());
}

#[test]
fn t_radix64_invalid_symbol_rejected() {
    assert!(Bignum::from_radix64_string("8X+a").is_err());
    assert!(Bignum::from_radix64_string(" ").is_err());
    assert!(Bignum::from_radix64_string("abc=").is_err());
}

#[test]
fn t_radix64_leading_zero_digits_accepted() {
    let with_zeros = Bignum::from_radix64_string("008XYa").unwrap();
    let plain = Bignum::from_radix64_string("8XYa").unwrap();
    assert_eq!(with_zeros, plain);
}
