use radix_partition::format::{
    decode_tuples, decode_word, encode_tuples, encode_word, native_order, ByteOrder, FormatError,
};
use radix_partition::generate::generate_tuples;
use radix_partition::tuple::Tuple;
use rand::rngs::StdRng;
use rand::SeedableRng;

#[test]
fn word_bytes_in_each_order() {
    let x = 0x0102_0304_0506_0708u64;
    assert_eq!(encode_word(x, ByteOrder::Little), vec![8, 7, 6, 5, 4, 3, 2, 1]);
    assert_eq!(encode_word(x, ByteOrder::Big), vec![1, 2, 3, 4, 5, 6, 7, 8]);
    let bytes = vec![9u8, 8, 7, 6, 5, 4, 3, 2, 1, 0];
    assert_eq!(decode_word(&bytes, 1, ByteOrder::Little), 0x0102_0304_0506_0708);
    assert_eq!(decode_word(&bytes, 2, ByteOrder::Big), 0x0706_0504_0302_0100);
}

#[test]
fn native_order_matches_machine() {
    let x = 0xA1B2_C3D4_E5F6_0718u64;
    assert_eq!(encode_word(x, native_order()), x.to_ne_bytes().to_vec());
}

#[test]
fn tuples_round_trip() {
    let ts = vec![Tuple::new(0, u64::MAX), Tuple::new(42, 7), Tuple::new(u64::MAX, 0)];
    for order in [ByteOrder::Little, ByteOrder::Big] {
        let bytes = encode_tuples(&ts, order);
        assert_eq!(bytes.len(), 48);
        assert_eq!(decode_tuples(&bytes, order), Ok(ts.clone()));
    }
    let le = encode_tuples(&ts, ByteOrder::Little);
    assert_eq!(&le[16..32], &[42, 0, 0, 0, 0, 0, 0, 0, 7, 0, 0, 0, 0, 0, 0, 0]);
}

#[test]
fn truncated_bytes_are_refused() {
    assert_eq!(decode_tuples(&vec![0u8; 15], ByteOrder::Little), Err(FormatError::TruncatedRecord));
    assert_eq!(decode_tuples(&vec![0u8; 33], ByteOrder::Big), Err(FormatError::TruncatedRecord));
    assert_eq!(decode_tuples(&Vec::new(), ByteOrder::Big), Ok(Vec::new()));
}

#[test]
fn generated_tuples_read_back() {
    let mut rng = StdRng::seed_from_u64(11);
    let size = 1000;
    let ts = generate_tuples(size, &mut rng);
    let order = native_order();
    let back = decode_tuples(&encode_tuples(&ts, order), order).unwrap();
    assert_eq!(back.len(), size);
    assert!(back.iter().enumerate().all(|(i, t)| t.key == i as u64));
    assert_eq!(back, ts);
    assert!(ts.iter().any(|t| t.payload != ts[0].payload));
}

#[test]
fn generation_is_reproducible_from_seed() {
    let a = generate_tuples(50, &mut StdRng::seed_from_u64(3));
    let b = generate_tuples(50, &mut StdRng::seed_from_u64(3));
    assert_eq!(a, b);
    assert!(generate_tuples(0, &mut StdRng::seed_from_u64(3)).is_empty());
}
