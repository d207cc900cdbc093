use oyster::bignum::Bignum;
use oyster::radix256::{FromRadix256Bytes, ToRadix256Bytes};
use rand::Rng;

#[test]
fn t_radix256() {
    let n = Bignum::from_u64(2342666);
    let bytes = n.to_radix256_bytes();
    println!("{:?}", bytes);
    let n = Bignum::from_radix256_bytes(&bytes).unwrap();
    println!("{:?}", n);
}

#[test]
fn t_radix256_exact() {
    let n = Bignum::from_u64(2342666);
    let bytes = n.to_radix256_bytes();
    assert_eq!(bytes, vec![0x23, 0xbf, 0x0a]);
    let n2 = Bignum::from_radix256_bytes(&bytes).unwrap();
    assert_eq!(n2, n);
}

#[test]
fn t_radix256_leading_zeros_accepted() {
    let n = Bignum::from_u64(2342666);
    let plain = Bignum::from_radix256_bytes(&[0x23, 0xbf, 0x0a]).unwrap();
    let padded = Bignum::from_radix256_bytes(&[0x00, 0x00, 0x00, 0x23, 0xbf, 0x0a]).unwrap();
    assert_eq!(plain, n);
    assert_eq!(padded, n);
}

#[test]
fn t_radix256_zero() {
    let n = Bignum::from_u64(0);
    assert_eq!(n.to_radix256_bytes(), Vec::<u8>::new());
    let from_empty = Bignum::from_radix256_bytes(&[]).unwrap();
    let from_zero_bytes = Bignum::from_radix256_bytes(&[0x00, 0x00]).unwrap();
    assert_eq!(from_empty, n);
    assert_eq!(from_zero_bytes, n);
}

#[test]
fn t_radix256_random_round_trip() {
    for _ in 0..100 {
        let len: usize = rand::thread_rng().gen_range(0..64);
        let mut bytes: Vec<u8> = Vec::with_capacity(len);
        for _ in 0..len {
            let b: u8 = rand::thread_rng().gen();
            bytes.push(b);
        }
        let n = Bignum::from_radix256_bytes(&bytes).unwrap();
        let encoded = n.to_radix256_bytes();
        let n2 = Bignum::from_radix256_bytes(&encoded).unwrap();
        assert_eq!(n2, n);
    }
}
