use oyster::btt64::{FromBtt64String, ToBtt64String};
use rand::Rng;

fn get_random_usize(max: usize) -> usize {
    rand::thread_rng().gen_range(0..max)
}

fn get_random_data(length: usize) -> Vec<u8> {
    let mut data: Vec<u8> = Vec::with_capacity(length);
    for _ in 0..length {
        let random_val: u8 = rand::thread_rng().gen();
        data.push(random_val);
    }
    data
}

#[test]
fn t_encode_decode() {
    for _ in 0..100 {
        let data_len = get_random_usize(1000);
        let data = get_random_data(data_len);
        let msg = data.to_btt64_string();
        let received = Vec::from_btt64_string(&msg).unwrap();
        assert_eq!(data, received);
    }
}

#[test]
fn t_string_encode_decode() {
    let s = "Hello world!".to_string();
    let s_encoded = s.to_btt64_string();
    let s_decoded = <String>::from_btt64_string(&s_encoded).unwrap();
    assert_eq!(s_decoded, s);
}

#[test]
fn t_ref_str_encode_decode() {
    let s = "Hello world!";
    let s_encoded = s.to_btt64_string();
    let s_decoded = <String>::from_btt64_string(&s_encoded).unwrap();
    assert_eq!(s_decoded, s);
}

#[test]
fn t_three_byte_block_exact() {
    let data: Vec<u8> = vec![0xff, 0x00, 0x0f];
    let msg = data.to_btt64_string();
    assert_eq!(msg, "M_0f");
    let received = <Vec<u8>>::from_btt64_string(&msg).unwrap();
    assert_eq!(received, data);
}

#[test]
fn t_empty_encode_decode() {
    let data: Vec<u8> = Vec::new();
    let msg = data.to_btt64_string();
    assert_eq!(msg, "");
    let received = <Vec<u8>>::from_btt64_string("").unwrap();
    assert_eq!(received, data);
}

#[test]
fn t_partial_blocks_encode_decode() {
    let one: Vec<u8> = vec![0x41];
    let two: Vec<u8> = vec![0x41, 0x42];
    assert_eq!(one.to_btt64_string().len(), 2);
    assert_eq!(two.to_btt64_string().len(), 3);
    assert_eq!(<Vec<u8>>::from_btt64_string(&one.to_btt64_string()).unwrap(), one);
    assert_eq!(<Vec<u8>>::from_btt64_string(&two.to_btt64_string()).unwrap(), two);
}

#[test]
fn t_invalid_symbol_rejected() {
    assert!(<Vec<u8>>::from_btt64_string("ab!c").is_err());
    assert!(<Vec<u8>>::from_btt64_string("=0").is_err());
    assert!(<String>::from_btt64_string("ab c").is_err());
}

#[test]
fn t_lone_tail_rejected() {
    assert!(<Vec<u8>>::from_btt64_string("0").is_err());
    assert!(<Vec<u8>>::from_btt64_string("00000").is_err());
}

#[test]
fn t_noncanonical_first_symbol_rejected() {
    // A two-symbol group may only use the bits 0b00110000 in its first
    // symbol; index 1 has a bit outside that mask.
    assert!(<Vec<u8>>::from_btt64_string("11").is_err());
    // A three-symbol group allows 0b00111100; index 1 is outside it too.
    assert!(<Vec<u8>>::from_btt64_string("111").is_err());
    // The same bit patterns are fine where the mask allows them.
    assert!(<Vec<u8>>::from_btt64_string("g1").is_ok());
}

#[test]
fn t_invalid_utf8_rejected_for_string() {
    let data: Vec<u8> = vec![0xff];
    let msg = data.to_btt64_string();
    assert!(<Vec<u8>>::from_btt64_string(&msg).is_ok());
    assert!(<String>::from_btt64_string(&msg).is_err());
}
