use tlv_parser::dump::{dump, dump_hex, HexError};
use tlv_parser::tlv::{Tlv, Value};
use tlv_parser::TlvError;

#[test]
fn text_of_raw_bytes() {
    let tlv = Tlv::new(0x01, Value::Val(vec![0x41, 0x00])).unwrap();
    assert_eq!(tlv.to_string(), "tag=01,     len=2,    val=4100 A.");
    assert_eq!(tlv.val().to_string(), "val=4100 A.");
    let tlv = Tlv::new(0x9f02, Value::Val(b"Hi~\x7f\x1f ".to_vec())).unwrap();
    assert_eq!(tlv.to_string(), "tag=9F02,   len=6,    val=48697E7F1F20 Hi~.. ");
    let tlv = Tlv::new(0x0a, Value::Val(vec![])).unwrap();
    assert_eq!(tlv.to_string(), "tag=0A,     len=0,    val= ");
}

#[test]
fn text_columns() {
    let tlv = Tlv::new(0x5fc88001, Value::Val(vec![0x30; 12])).unwrap();
    assert_eq!(
        tlv.to_string(),
        "tag=5FC88001,len=12,   val=303030303030303030303030 000000000000"
    );
    // three digits stand for a tag field of two octets
    let tlv = Tlv::new(0x103, Value::Val(vec![0xff])).unwrap();
    assert_eq!(tlv.to_string(), "tag=103,   len=1,    val=FF .");
    let tlv = Tlv::new(0x01, Value::Val(vec![0x2e; 100000])).unwrap();
    let text = tlv.to_string();
    assert!(text.starts_with("tag=01,     len=100000,val=2E2E"));
    assert_eq!(text.len(), 27 + 200000 + 1 + 100000);
}

#[test]
fn text_of_children_and_of_nothing() {
    let tlv = Tlv::new(
        0x21,
        Value::TlvList(vec![
            Tlv::new(0x01, Value::Val(vec![0xaa])).unwrap(),
            Tlv::new(0x02, Value::Nothing).unwrap(),
        ]),
    )
    .unwrap();
    assert_eq!(
        tlv.to_string(),
        "tag=21,     len=5,tag=01,     len=1,    val=AA .\ntag=02,     len=0,()\n"
    );
    assert_eq!(Value::Nothing.to_string(), "()");
    assert_eq!(Value::TlvList(vec![]).to_string(), "");
}

#[test]
fn text_of_errors() {
    assert_eq!(TlvError::TruncatedTlv.to_string(), "Too short input vector");
    assert_eq!(TlvError::InvalidLength.to_string(), "Invalid length value\n");
    assert_eq!(TlvError::InvalidTagNumber.to_string(), "Invalid tag number");
    assert_eq!(
        TlvError::TooShortBody { expected: 5, found: 2 }.to_string(),
        "Too short body: expected 5, found 2"
    );
    assert_eq!(
        TlvError::TooShortBody { expected: 1200, found: 0 }.to_string(),
        "Too short body: expected 1200, found 0"
    );
    assert_eq!(
        TlvError::ValExpected { tag_number: 33 }.to_string(),
        "Tag number defines primitive TLV, but value is not Value::Val: 33"
    );
    assert_eq!(
        TlvError::TlvListExpected { tag_number: 1 }.to_string(),
        "Tag number defines constructed TLV, but value is not Value::TlvList: 1"
    );
    assert_eq!(TlvError::TagPathError.to_string(), "Provided 'tag-path' has error");
}

#[test]
fn outline_of_a_tree() {
    let tlv = Tlv::from_vec(&[0x21, 0x05, 0x22, 0x03, 0x03, 0x01, 0xaa]).unwrap();
    assert_eq!(
        tlv.outline(0),
        "tag=21\n  tag=22\n    tag=03,     len=1,    val=AA .\n"
    );
    assert_eq!(
        tlv.outline(3),
        "   tag=21\n     tag=22\n       tag=03,     len=1,    val=AA .\n"
    );
    assert_eq!(Tlv::new(0x01, Value::Nothing).unwrap().outline(2), "  ");
}

#[test]
fn dump_of_nodes_in_a_row() {
    assert_eq!(dump(&[]), "");
    assert_eq!(
        dump(&[0x01, 0x01, 0x41, 0x21, 0x03, 0x02, 0x01, 0x42]),
        "tag=01,     len=1,    val=41 A\n\ntag=21\n  tag=02,     len=1,    val=42 B\n\n"
    );
}

#[test]
fn dump_ends_with_the_error() {
    assert_eq!(
        dump(&[0x01, 0x01, 0x41, 0x01, 0x05, 0xaa, 0xbb]),
        "tag=01,     len=1,    val=41 A\n\nError: Too short body: expected 5, found 2\n"
    );
    assert_eq!(dump(&[0x00]), "Error: Invalid tag number\n");
    assert_eq!(dump(&[0x01, 0x80]), "Error: Invalid length value\n\n");
    assert_eq!(dump(&[0x9f]), "Error: Too short input vector\n");
}

#[test]
fn dump_goes_on_by_the_length_of_the_encoding() {
    // the length field has an octet more than it needs, so the next node is
    // looked for one byte early
    assert_eq!(
        dump(&[0x01, 0x81, 0x01, 0x41]),
        "tag=01,     len=1,    val=41 A\n\nError: Too short input vector\n"
    );
}

#[test]
fn dump_of_hexadecimal_digits() {
    assert_eq!(
        dump_hex(b"2105220303\n01aa\n").unwrap(),
        "tag=21\n  tag=22\n    tag=03,     len=1,    val=AA .\n\n"
    );
    assert_eq!(dump_hex(b"0101Ff").unwrap(), "tag=01,     len=1,    val=FF .\n\n");
    assert_eq!(dump_hex(b"").unwrap(), "");
    assert_eq!(dump_hex(b"\n\n").unwrap(), "");
}

#[test]
fn dump_of_what_is_no_hexadecimal() {
    assert_eq!(dump_hex(b"010").unwrap_err(), HexError::OddLength);
    assert_eq!(dump_hex(b"0\n1\n0").unwrap_err(), HexError::OddLength);
    assert_eq!(
        dump_hex(b"01g1").unwrap_err(),
        HexError::InvalidHexCharacter { c: 'g', index: 2 }
    );
    assert_eq!(
        dump_hex(b"01 0").unwrap_err(),
        HexError::InvalidHexCharacter { c: ' ', index: 2 }
    );
    // the index counts what is left without the line feeds
    assert_eq!(
        dump_hex(b"01\n0x").unwrap_err(),
        HexError::InvalidHexCharacter { c: 'x', index: 3 }
    );
    assert_eq!(
        dump_hex(b"0x\rz").unwrap_err(),
        HexError::InvalidHexCharacter { c: 'x', index: 1 }
    );
    assert_eq!(
        dump_hex("0\u{e9}1".as_bytes()).unwrap_err(),
        HexError::InvalidHexCharacter { c: '\u{c3}', index: 1 }
    );
}
