use neptune_core::digest::{Digest, BFIELD_MODULUS, DIGEST_BYTES};
use neptune_core::digest_text::{parse_numbers, write_numbers};

#[test]
fn devnet_signature_digest_conversion_test() {
    let bfe_vec = vec![12u64, 24, 36, 48, 60];
    let digest_from_vec: Digest = Digest::from_vec(&bfe_vec).unwrap();
    let shorter: Vec<u8> = digest_from_vec.to_devnet_msg_bytes();
    assert_eq!(shorter.len(), 32);
    assert_eq!(shorter[0], 12);
    assert_eq!(shorter[8], 24);
    assert_eq!(shorter[24], 48);
}

#[test]
fn a_digest_holds_canonical_elements() {
    let d = Digest::new([BFIELD_MODULUS, BFIELD_MODULUS + 1, 5, u64::MAX, 0]);
    assert_eq!(d.values(), [0, 1, 5, u64::MAX - BFIELD_MODULUS, 0]);
    assert_eq!(Digest::default().values(), [0; 5]);
    assert_eq!(d.to_vec(), vec![0, 1, 5, u64::MAX - BFIELD_MODULUS, 0]);
}

#[test]
fn a_digest_needs_five_elements() {
    assert!(Digest::from_vec(&vec![1, 2, 3, 4]).is_none());
    assert!(Digest::from_vec(&vec![1, 2, 3, 4, 5, 6]).is_none());
    assert_eq!(
        Digest::from_vec(&vec![1, 2, 3, 4, 5]).unwrap(),
        Digest::new([1, 2, 3, 4, 5])
    );
}

#[test]
fn bytes_round_trip() {
    let d = Digest::new([1, 0x0102_0304_0506_0708, 3, BFIELD_MODULUS - 1, 5]);
    let bytes = d.to_bytes();
    assert_eq!(bytes.len(), DIGEST_BYTES);
    assert_eq!(&bytes[8..16], &[8, 7, 6, 5, 4, 3, 2, 1]);
    assert_eq!(Digest::from_bytes(&bytes), Some(d));
}

#[test]
fn bytes_that_are_no_digest_are_rejected() {
    assert!(Digest::from_bytes(&[0u8; 39]).is_none());
    assert!(Digest::from_bytes(&[0u8; 41]).is_none());
    // the modulus itself is not a canonical element
    let mut bytes = vec![0u8; 40];
    bytes[..8].copy_from_slice(&BFIELD_MODULUS.to_le_bytes());
    assert!(Digest::from_bytes(&bytes).is_none());
    bytes[..8].copy_from_slice(&(BFIELD_MODULUS - 1).to_le_bytes());
    assert!(Digest::from_bytes(&bytes).is_some());
}

#[test]
fn digests_are_ordered_by_their_last_element_first() {
    let small = Digest::new([9, 9, 9, 9, 1]);
    let large = Digest::new([0, 0, 0, 0, 2]);
    assert!(small < large);
    assert!(small.less_than(&large));
    assert!(!large.less_than(&small));
    assert!(!small.less_than(&small));
    assert!(Digest::new([1, 0, 0, 0, 2]) > large);
    // the order agrees with that of twenty-first
    let a = twenty_first::prelude::Digest::new(
        small.values().map(twenty_first::prelude::BFieldElement::new),
    );
    let b = twenty_first::prelude::Digest::new(
        large.values().map(twenty_first::prelude::BFieldElement::new),
    );
    assert!(a < b);
}

#[test]
fn a_digest_is_written_in_decimal_with_commas() {
    let digest = Digest::new([12, 24, 36, 48, 60]);
    assert_eq!(digest.to_text(), b"12,24,36,48,60".to_vec());
    assert_eq!(Digest::default().to_text(), b"0,0,0,0,0".to_vec());
    let greatest = Digest::new([BFIELD_MODULUS - 1; 5]);
    assert_eq!(
        String::from_utf8(greatest.to_text()).unwrap(),
        ["18446744069414584320"; 5].join(",")
    );
}

#[test]
fn a_digest_is_read_back_from_its_text() {
    for values in [
        [0, 0, 0, 0, 0],
        [1, 10, 100, 1000, 10_000],
        [9, 99, 18446744069414584320, 4294967295, 4294967296],
    ] {
        let digest = Digest::new(values);
        assert_eq!(Digest::from_text(&digest.to_text()), Some(digest));
    }
}

#[test]
fn numbers_are_read_with_leading_zeros_and_reduced() {
    assert_eq!(
        Digest::from_text(b"007,0,00,10,0000000000000000000000001"),
        Some(Digest::new([7, 0, 0, 10, 1]))
    );
    // the modulus stands for zero, and the greatest number for what is left of it
    assert_eq!(
        Digest::from_text(b"18446744069414584321,18446744073709551615,0,0,0"),
        Some(Digest::new([0, 4294967294, 0, 0, 0]))
    );
    assert_eq!(parse_numbers(b"5"), Some(vec![5]));
    assert_eq!(parse_numbers(b"1,2"), Some(vec![1, 2]));
    assert_eq!(
        parse_numbers(b"18446744073709551615"),
        Some(vec![u64::MAX])
    );
    assert_eq!(write_numbers(&vec![]), Vec::<u8>::new());
    assert_eq!(write_numbers(&vec![u64::MAX, 0]), b"18446744073709551615,0".to_vec());
}

#[test]
fn a_text_that_is_no_digest_is_not_read() {
    for text in [
        &b""[..],
        b"1,2,3,4",
        b"1,2,3,4,5,6",
        b"1,2,3,4,5,",
        b",1,2,3,4,5",
        b"1,,3,4,5",
        b"1,2,3,4,x",
        b"1,2,3,4,-5",
        b"1,2,3,4,+5",
        b"1, 2,3,4,5",
        b"1,2,3,4,18446744073709551616",
        b"1,2,3,4,99999999999999999999999",
    ] {
        assert_eq!(Digest::from_text(text), None, "{:?}", text);
    }
    assert_eq!(parse_numbers(b""), None);
    assert_eq!(parse_numbers(b","), None);
    assert_eq!(parse_numbers(b"18446744073709551616"), None);
    assert_eq!(parse_numbers(b"18446744073709551620"), None);
}
