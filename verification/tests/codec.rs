use quickcheck::{quickcheck, TestResult};
use tlv_parser::tlv::{Tlv, Value};
use tlv_parser::TlvError;

#[test]
fn from_vec_test() {
    // simple two bytes TLV
    let input: Vec<u8> = vec![0x01, 0x02, 0x00, 0x00];
    assert_eq!(Tlv::from_vec(&input).unwrap().to_vec(), input);

    // TLV with two bytes tag
    let input: Vec<u8> = vec![0x9F, 0x02, 0x02, 0x00, 0x00];
    assert_eq!(Tlv::from_vec(&input).unwrap().to_vec(), input);

    // TLV with two bytes length
    let mut input: Vec<u8> = vec![0x9F, 0x02, 0x81, 0x80];
    input.extend_from_slice(&[0; 0x80]);
    assert_eq!(Tlv::from_vec(&input).unwrap().to_vec(), input);

    // TLV with four bytes tag number
    let input: Vec<u8> = vec![0x5f, 0xc8, 0x80, 0x01, 0x02, 0x01, 0x02];
    assert_eq!(Tlv::from_vec(&input).unwrap().to_vec(), input);
}

#[test]
fn to_vec_test() {
    let tlv = Tlv::new(0x01, Value::Val(vec![0])).unwrap();

    assert_eq!(tlv.to_vec(), vec![0x01, 0x01, 0x00]);

    let tlv = Tlv::new(0x01, Value::Val(vec![0; 127])).unwrap();

    assert_eq!(&tlv.to_vec()[0..3], [0x01, 0x7F, 0x00]);

    let tlv = Tlv::new(0x01, Value::Val(vec![0; 255])).unwrap();

    assert_eq!(&tlv.to_vec()[0..4], [0x01, 0x81, 0xFF, 0x00]);

    let tlv = Tlv::new(0x02, Value::Val(vec![0; 256])).unwrap();

    assert_eq!(&tlv.to_vec()[0..4], [0x02, 0x82, 0x01, 0x00]);

    let tlv = Tlv::new(0x03, Value::Val(vec![0; 0xffff01])).unwrap();

    assert_eq!(&tlv.to_vec()[0..5], [0x03, 0x83, 0xFF, 0xFF, 0x01]);
}

#[test]
fn find_val_test() {
    let input: Vec<u8> = vec![0x21, 0x05, 0x22, 0x03, 0x03, 0x01, 0xaa];
    let tlv = Tlv::from_vec(&input).unwrap();

    if let Some(&Value::Val(ref val)) = tlv.find_val("21 / 22 / 03") {
        assert_eq!(*val, vec![0xaa]);
    } else {
        assert!(false);
    }
}

#[test]
fn tag_len_test() {
    let tlv1 = Tlv::new(0x03, Value::Nothing).unwrap();
    let tlv2 = Tlv::new(0x0303, Value::Nothing).unwrap();
    let tlv3 = Tlv::new(0x030303, Value::Nothing).unwrap();
    let tlv4 = Tlv::new(0x03030303, Value::Nothing).unwrap();

    assert_eq!(tlv1.tag_len(), 1);
    assert_eq!(tlv2.tag_len(), 2);
    assert_eq!(tlv3.tag_len(), 3);
    assert_eq!(tlv4.tag_len(), 4);
}

#[test]
fn value_to_vec_test() {
    assert_eq!(Value::Nothing.to_vec(), Vec::new());
    assert_eq!(Value::Val(vec![1, 2, 3]).to_vec(), vec![1, 2, 3]);

    // A list cannot stand under the primitive tag 3, so the bytes
    // `3, 2, 4, 0` are a node of two raw bytes.
    assert_eq!(
        Tlv::new(3, Value::TlvList(vec![Tlv::new(4, Value::Nothing).unwrap()])).unwrap_err(),
        TlvError::ValExpected { tag_number: 3 }
    );
    assert_eq!(
        Value::TlvList(vec![
            Tlv::new(1, Value::Nothing).unwrap(),
            Tlv::new(2, Value::Val(vec![1, 2, 3])).unwrap(),
            Tlv::new(3, Value::Val(vec![4, 0])).unwrap(),
        ])
        .to_vec(),
        vec![1, 0, 2, 3, 1, 2, 3, 3, 2, 4, 0]
    );

    // The same shape with a list under a constructed tag.
    assert_eq!(
        Value::TlvList(vec![
            Tlv::new(1, Value::Nothing).unwrap(),
            Tlv::new(2, Value::Val(vec![1, 2, 3])).unwrap(),
            Tlv::new(0x23, Value::TlvList(vec![Tlv::new(4, Value::Nothing).unwrap()])).unwrap(),
        ])
        .to_vec(),
        vec![1, 0, 2, 3, 1, 2, 3, 0x23, 2, 4, 0]
    );
}

/// The number of bytes at the front of `xs` that make up its first node:
/// the shortest prefix that decodes.
fn first_node_len(xs: &[u8]) -> usize {
    (0..=xs.len()).find(|&k| Tlv::from_vec(&xs[..k]).is_ok()).unwrap()
}

fn prop(xs: Vec<u8>) -> TestResult {
    match Tlv::from_vec(&xs) {
        Ok(tlv) => {
            let restored_tlv = tlv.to_vec();
            if restored_tlv.len() != first_node_len(&xs) {
                // a length field of the input is longer than it has to be
                return TestResult::discard();
            }
            let truncacted_xs = xs.into_iter().take(restored_tlv.len()).collect::<Vec<u8>>();

            TestResult::from_bool(restored_tlv == truncacted_xs)
        }
        Err(_) => TestResult::discard(),
    }
}

#[test]
fn quickcheck_from_vec() {
    quickcheck(prop as fn(Vec<u8>) -> TestResult);
}

fn on_seed(seed: u64) {
    quickcheck::QuickCheck::new()
        .rng(quickcheck::Gen::from_size_and_seed(64, seed))
        .tests(300)
        .max_tests(200_000)
        .quickcheck(prop as fn(Vec<u8>) -> TestResult);
}

#[test]
fn quickcheck_from_vec_on_fixed_seeds() {
    on_seed(1);
    on_seed(0x5eed);
    on_seed(u64::MAX);
}

fn encoding_is_no_longer_than_the_input(xs: Vec<u8>) -> TestResult {
    match Tlv::from_vec(&xs) {
        Ok(tlv) => {
            let restored = tlv.to_vec();
            let again = Tlv::from_vec(&restored).unwrap();
            TestResult::from_bool(
                !restored.is_empty()
                    && restored.len() == tlv.len()
                    && restored.len() <= first_node_len(&xs)
                    && again.to_vec() == restored,
            )
        }
        Err(_) => TestResult::discard(),
    }
}

#[test]
fn quickcheck_decoded_trees_encode() {
    quickcheck(encoding_is_no_longer_than_the_input as fn(Vec<u8>) -> TestResult);
}
