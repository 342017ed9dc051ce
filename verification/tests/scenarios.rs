use tlv_parser::tlv::{Tlv, Value};
use tlv_parser::TlvError;

fn raw(tlv: &Tlv) -> &Vec<u8> {
    match tlv.val() {
        Value::Val(bytes) => bytes,
        _ => panic!("raw bytes expected"),
    }
}

fn children(tlv: &Tlv) -> &Vec<Tlv> {
    match tlv.val() {
        Value::TlvList(list) => list,
        _ => panic!("children expected"),
    }
}

#[test]
fn length_field_boundaries() {
    assert_eq!(Value::Val(vec![0; 127]).encode_len(), vec![0x7f]);
    assert_eq!(Value::Val(vec![0; 128]).encode_len(), vec![0x81, 0x80]);
    assert_eq!(Value::Val(vec![0; 255]).encode_len(), vec![0x81, 0xff]);
    assert_eq!(Value::Val(vec![0; 256]).encode_len(), vec![0x82, 0x01, 0x00]);
    assert_eq!(Value::Val(vec![0; 65536]).encode_len(), vec![0x83, 0x01, 0x00, 0x00]);
    assert_eq!(Value::Val(vec![]).encode_len(), vec![0x00]);
    assert_eq!(Value::Nothing.encode_len(), vec![0x00]);
}

#[test]
fn length_field_counts_the_encodings_of_children() {
    let child = Tlv::new(0x01, Value::Val(vec![0; 126])).unwrap();
    assert_eq!(child.len(), 128);
    let list = Value::TlvList(vec![child]);
    assert_eq!(list.encode_len(), vec![0x81, 0x80]);
    let parent = Tlv::new(0x21, list).unwrap();
    assert_eq!(parent.len(), 1 + 2 + 128);
    assert_eq!(&parent.to_vec()[0..5], [0x21, 0x81, 0x80, 0x01, 0x7e]);
}

#[test]
fn truncated_long_tag() {
    assert_eq!(Tlv::from_vec(&[0x9f]).unwrap_err(), TlvError::TruncatedTlv);
    assert_eq!(Tlv::from_vec(&[0x1f, 0x81, 0x82]).unwrap_err(), TlvError::TruncatedTlv);
}

#[test]
fn truncated_input() {
    assert_eq!(Tlv::from_vec(&[]).unwrap_err(), TlvError::TruncatedTlv);
    assert_eq!(Tlv::from_vec(&[0x01]).unwrap_err(), TlvError::TruncatedTlv);
    assert_eq!(Tlv::from_vec(&[0x9f, 0x02]).unwrap_err(), TlvError::TruncatedTlv);
    // two octets of length are announced and one is there
    assert_eq!(Tlv::from_vec(&[0x01, 0x82, 0x01]).unwrap_err(), TlvError::TruncatedTlv);
    assert_eq!(Tlv::from_vec(&[0x01, 0x81]).unwrap_err(), TlvError::TruncatedTlv);
}

#[test]
fn short_body() {
    assert_eq!(
        Tlv::from_vec(&[0x01, 0x05, 0xaa, 0xbb]).unwrap_err(),
        TlvError::TooShortBody { expected: 5, found: 2 }
    );
    assert_eq!(
        Tlv::from_vec(&[0x01, 0x82, 0x01, 0x00, 0xaa]).unwrap_err(),
        TlvError::TooShortBody { expected: 256, found: 1 }
    );
}

#[test]
fn short_body_of_a_child_counts_what_the_parent_holds() {
    // the child asks for three bytes; its parent has one left for it,
    // though the input goes on
    assert_eq!(
        Tlv::from_vec(&[0x21, 0x03, 0x01, 0x03, 0xaa, 0xbb, 0xcc]).unwrap_err(),
        TlvError::TooShortBody { expected: 3, found: 1 }
    );
}

#[test]
fn invalid_length() {
    // a long form that counts no octets
    assert_eq!(Tlv::from_vec(&[0x01, 0x80]).unwrap_err(), TlvError::InvalidLength);
    assert_eq!(Tlv::from_vec(&[0x01, 0x80, 0x00, 0x00]).unwrap_err(), TlvError::InvalidLength);
    // seventeen octets of 0xff fit no usize
    let mut input = vec![0x01, 0x91];
    input.extend_from_slice(&[0xff; 17]);
    assert_eq!(Tlv::from_vec(&input).unwrap_err(), TlvError::InvalidLength);
    // nor do they where the input ends before the field does
    let mut input = vec![0x01, 0xff];
    input.extend_from_slice(&[0xff; 17]);
    assert_eq!(Tlv::from_vec(&input).unwrap_err(), TlvError::InvalidLength);
}

#[test]
fn long_form_length_with_leading_zeros_is_read() {
    let mut input = vec![0x01, 0x8a];
    input.extend_from_slice(&[0, 0, 0, 0, 0, 0, 0, 0, 0, 2]);
    input.extend_from_slice(&[0xaa, 0xbb]);
    let tlv = Tlv::from_vec(&input).unwrap();
    assert_eq!(*raw(&tlv), vec![0xaa, 0xbb]);
    assert_eq!(tlv.to_vec(), vec![0x01, 0x02, 0xaa, 0xbb]);
    assert_eq!(tlv.len(), 4);
}

#[test]
fn invalid_tag_number() {
    assert_eq!(Tlv::from_vec(&[0x00, 0x00]).unwrap_err(), TlvError::InvalidTagNumber);
    assert_eq!(Tlv::from_vec(&[0x00]).unwrap_err(), TlvError::InvalidTagNumber);
    // seventeen octets fit no usize
    let mut input = vec![0x1f];
    input.extend_from_slice(&[0x81; 15]);
    input.extend_from_slice(&[0x01, 0x00]);
    assert_eq!(Tlv::from_vec(&input).unwrap_err(), TlvError::InvalidTagNumber);
    // nor do they where the input ends before the field does
    let mut input = vec![0x1f];
    input.extend_from_slice(&[0x81; 16]);
    assert_eq!(Tlv::from_vec(&input).unwrap_err(), TlvError::InvalidTagNumber);
}

#[test]
fn long_tag_ends_at_the_first_octet_without_high_bit() {
    let tlv = Tlv::from_vec(&[0x9f, 0x81, 0x02, 0x01, 0x55]).unwrap();
    assert_eq!(tlv.tag(), 0x9f8102);
    assert_eq!(tlv.tag_len(), 3);
    assert_eq!(*raw(&tlv), vec![0x55]);
}

#[test]
fn nested_scenario() {
    let input: Vec<u8> = vec![0x21, 0x05, 0x22, 0x03, 0x03, 0x01, 0xaa];
    let tlv = Tlv::from_vec(&input).unwrap();
    assert_eq!(tlv.tag(), 0x21);
    assert!(!tlv.is_primitive());
    assert_eq!(tlv.len(), 7);
    let level1 = children(&tlv);
    assert_eq!(level1.len(), 1);
    assert_eq!(level1[0].tag(), 0x22);
    assert!(!level1[0].is_primitive());
    let level2 = children(&level1[0]);
    assert_eq!(level2.len(), 1);
    assert_eq!(level2[0].tag(), 0x03);
    assert!(level2[0].is_primitive());
    assert_eq!(*raw(&level2[0]), vec![0xaa]);
    match tlv.find_val("21 / 22 / 03") {
        Some(Value::Val(bytes)) => assert_eq!(*bytes, vec![0xaa]),
        _ => panic!("value expected"),
    }
    assert_eq!(tlv.to_vec(), input);
}

#[test]
fn nothing_under_a_list() {
    let primitive_tlv = Tlv::new(0x01, Value::Nothing).unwrap();
    let constructed_tlv = Tlv::new(0x21, Value::TlvList(vec![primitive_tlv])).unwrap();
    assert_eq!(constructed_tlv.to_vec(), vec![0x21, 0x02, 0x01, 0x00]);
}

#[test]
fn two_children() {
    let tlv = Tlv::new(
        0x21,
        Value::TlvList(vec![
            Tlv::new(0x01, Value::Val(vec![0xa1, 0xa2])).unwrap(),
            Tlv::new(0x02, Value::Val(vec![0xb1, 0xb2])).unwrap(),
        ]),
    )
    .unwrap();
    assert_eq!(
        tlv.to_vec(),
        vec![0x21, 0x08, 0x01, 0x02, 0xa1, 0xa2, 0x02, 0x02, 0xb1, 0xb2]
    );
    let back = Tlv::from_vec(&tlv.to_vec()).unwrap();
    assert_eq!(children(&back).len(), 2);
    assert_eq!(children(&back)[1].tag(), 0x02);
    assert_eq!(*raw(&children(&back)[1]), vec![0xb1, 0xb2]);
}

#[test]
fn four_byte_tag() {
    let input: Vec<u8> = vec![0x5f, 0xc8, 0x80, 0x01, 0x02, 0x01, 0x02];
    let tlv = Tlv::from_vec(&input).unwrap();
    assert_eq!(tlv.tag(), 0x5fc88001);
    assert_eq!(tlv.tag_len(), 4);
    assert!(tlv.is_primitive());
    assert_eq!(*raw(&tlv), vec![0x01, 0x02]);
    assert_eq!(tlv.len(), 7);
    assert_eq!(tlv.to_vec(), input);
}

#[test]
fn what_follows_the_node_is_left_aside() {
    let tlv = Tlv::from_vec(&[0x01, 0x01, 0xaa, 0x02, 0x01, 0xbb]).unwrap();
    assert_eq!(tlv.tag(), 0x01);
    assert_eq!(tlv.len(), 3);
    assert_eq!(tlv.to_vec(), vec![0x01, 0x01, 0xaa]);
}

#[test]
fn accessors() {
    let tlv = Tlv::from_vec(&[0x01, 0x00]).unwrap();
    assert_eq!(tlv.tag(), 0x01);
    assert_eq!(tlv.tag_len(), 0x01);
    assert_eq!(tlv.len(), 0x02);
    assert!(tlv.is_empty());
    assert!(tlv.is_primitive());
    assert!(matches!(tlv.val(), Value::Val(bytes) if bytes.is_empty()));

    let tlv_len = Tlv::new(0x01, Value::Val(vec![0x02, 0x03])).unwrap().len();
    assert_eq!(tlv_len, 4);

    let empty_list = Tlv::from_vec(&[0x21, 0x00]).unwrap();
    assert!(empty_list.is_empty());
    assert!(!empty_list.is_primitive());
    assert!(matches!(empty_list.val(), Value::TlvList(list) if list.is_empty()));
}

#[test]
fn value_is_empty() {
    assert!(Value::Nothing.is_empty());
    assert!(Value::Val(vec![]).is_empty());
    assert!(!Value::Val(vec![0]).is_empty());
    assert!(Value::TlvList(vec![]).is_empty());
    assert!(!Value::TlvList(vec![Tlv::new(1, Value::Nothing).unwrap()]).is_empty());
}

#[test]
fn classification_goes_by_the_first_octet() {
    assert!(Tlv::new(0x01, Value::Nothing).unwrap().is_primitive());
    assert!(!Tlv::new(0x21, Value::Nothing).unwrap().is_primitive());
    assert!(Tlv::new(0x9f02, Value::Nothing).unwrap().is_primitive());
    assert!(!Tlv::new(0xbf0c, Value::Nothing).unwrap().is_primitive());
    // bit 0x20 of the last octet does not count
    assert!(Tlv::new(0x9f22, Value::Nothing).unwrap().is_primitive());
    assert!(!Tlv::new(0x3f0102, Value::Nothing).unwrap().is_primitive());
    assert!(Tlv::new(0, Value::Nothing).unwrap().is_primitive());
}

#[test]
fn construction_checks_the_value_against_the_tag() {
    assert_eq!(
        Tlv::new(0x01, Value::TlvList(vec![])).unwrap_err(),
        TlvError::ValExpected { tag_number: 0x01 }
    );
    assert_eq!(
        Tlv::new(0x9f02, Value::TlvList(vec![])).unwrap_err(),
        TlvError::ValExpected { tag_number: 0x9f02 }
    );
    assert_eq!(
        Tlv::new(0x21, Value::Val(vec![1])).unwrap_err(),
        TlvError::TlvListExpected { tag_number: 0x21 }
    );
    assert_eq!(
        Tlv::new(0xbf0c, Value::Val(vec![])).unwrap_err(),
        TlvError::TlvListExpected { tag_number: 0xbf0c }
    );
    assert!(Tlv::new(0x21, Value::TlvList(vec![])).is_ok());
    assert!(Tlv::new(0x01, Value::Val(vec![])).is_ok());
    assert!(Tlv::new(0x21, Value::Nothing).is_ok());
}

#[test]
fn tag_zero_is_written_as_one_zero_octet() {
    let tlv = Tlv::new(0, Value::Nothing).unwrap();
    assert_eq!(tlv.tag_len(), 1);
    assert_eq!(tlv.to_vec(), vec![0x00, 0x00]);
    assert_eq!(tlv.len(), 2);
}

#[test]
fn fields_have_no_leading_zero() {
    assert_eq!(Tlv::new(0x0303, Value::Nothing).unwrap().to_vec(), vec![0x03, 0x03, 0x00]);
    assert_eq!(
        Tlv::new(0x5fc88001, Value::Nothing).unwrap().to_vec(),
        vec![0x5f, 0xc8, 0x80, 0x01, 0x00]
    );
    let encoded = Tlv::new(0x01, Value::Val(vec![0; 300])).unwrap().to_vec();
    assert_eq!(&encoded[0..4], [0x01, 0x82, 0x01, 0x2c]);
    assert_eq!(encoded.len(), 304);
}

#[test]
fn decoding_an_encoding_keeps_the_length() {
    let tree = Tlv::new(
        0x21,
        Value::TlvList(vec![
            Tlv::new(0x01, Value::Nothing).unwrap(),
            Tlv::new(0x22, Value::Nothing).unwrap(),
            Tlv::new(0x9f02, Value::Val(vec![7; 200])).unwrap(),
        ]),
    )
    .unwrap();
    let encoded = tree.to_vec();
    let back = Tlv::from_vec(&encoded).unwrap();
    assert_eq!(back.len(), tree.len());
    assert_eq!(back.len(), encoded.len());
    assert_eq!(back.to_vec(), encoded);
    // nothing comes back as no bytes, or as no children
    assert!(matches!(children(&back)[0].val(), Value::Val(bytes) if bytes.is_empty()));
    assert!(matches!(children(&back)[1].val(), Value::TlvList(list) if list.is_empty()));
}

#[test]
fn deep_nesting() {
    let mut input: Vec<u8> = vec![0x01, 0x00];
    for _ in 0..40 {
        let mut outer = vec![0x21, input.len() as u8];
        outer.extend_from_slice(&input);
        input = outer;
    }
    let tlv = Tlv::from_vec(&input).unwrap();
    assert_eq!(tlv.len(), 82);
    assert_eq!(tlv.to_vec(), input);
}
