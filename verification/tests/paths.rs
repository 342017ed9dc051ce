use tlv_parser::tlv::{Tlv, Value};
use tlv_parser::TlvError;

fn sample() -> Tlv {
    Tlv::from_vec(&[0x6f, 0x09, 0xa5, 0x07, 0xbf, 0x0c, 0x04, 0xdf, 0x7f, 0x01, 0x55]).unwrap()
}

fn found(tlv: &Tlv, path: &str) -> Option<Vec<u8>> {
    tlv.find_val(path).map(|value| value.to_vec())
}

#[test]
fn path_to_a_leaf() {
    let tlv = sample();
    if let &Value::Val(ref v) = tlv.find_val("6F / A5 / BF0C / DF7F").unwrap() {
        assert_eq!(*v, vec![0x55]);
    } else {
        panic!("raw bytes expected");
    }
}

#[test]
fn path_to_an_inner_node_gives_its_children() {
    let tlv = sample();
    match tlv.find_val("6F/A5") {
        Some(Value::TlvList(list)) => {
            assert_eq!(list.len(), 1);
            assert_eq!(list[0].tag(), 0xbf0c);
        }
        _ => panic!("children expected"),
    }
    assert_eq!(found(&tlv, "6f"), Some(vec![0xa5, 0x07, 0xbf, 0x0c, 0x04, 0xdf, 0x7f, 0x01, 0x55]));
}

#[test]
fn path_is_anchored_at_the_root() {
    let tlv = sample();
    assert!(tlv.find_val("A5").is_none());
    assert!(tlv.find_val("A5 / BF0C").is_none());
    assert!(tlv.find_val("70 / A5").is_none());
}

#[test]
fn path_step_without_a_node_fails() {
    let tlv = sample();
    assert!(tlv.find_val("6F / A6").is_none());
    // a step that finds nothing is not passed over
    assert!(tlv.find_val("6F / 99 / A5").is_none());
    assert!(tlv.find_val("6F / A5 / 99 / BF0C").is_none());
}

#[test]
fn path_beyond_a_leaf_fails() {
    let tlv = sample();
    assert!(tlv.find_val("6F / A5 / BF0C / DF7F / 01").is_none());
    let nothing = Tlv::new(0x21, Value::Nothing).unwrap();
    assert!(matches!(nothing.find_val("21"), Some(Value::Nothing)));
    assert!(nothing.find_val("21 / 01").is_none());
}

#[test]
fn first_child_with_the_tag_wins() {
    let tlv = Tlv::from_vec(&[0x21, 0x09, 0x01, 0x01, 0xaa, 0x01, 0x01, 0xbb, 0x02, 0x01, 0xcc])
        .unwrap();
    assert_eq!(found(&tlv, "21 / 01"), Some(vec![0xaa]));
    assert_eq!(found(&tlv, "21 / 02"), Some(vec![0xcc]));

    // the search does not go back to a later child of the same tag
    let tlv = Tlv::from_vec(&[0x21, 0x07, 0x22, 0x00, 0x22, 0x03, 0x01, 0x01, 0xdd]).unwrap();
    assert!(tlv.find_val("21 / 22 / 01").is_none());
    assert_eq!(found(&tlv, "21 / 22"), Some(vec![]));
}

#[test]
fn path_digits_of_either_case_and_white_space() {
    let tlv = sample();
    assert_eq!(found(&tlv, "6f/a5/bf0c/df7f"), Some(vec![0x55]));
    assert_eq!(found(&tlv, "  6F\t/\nA5 / B F 0 C / DF7F \r\n"), Some(vec![0x55]));
    assert_eq!(found(&tlv, "6F\u{a0}/\u{2003}A5\u{3000}/BF0C/DF7F"), Some(vec![0x55]));
    assert_eq!(found(&tlv, "006F / 0A5 / 0000BF0C / DF7F"), Some(vec![0x55]));
}

#[test]
fn what_is_no_path_finds_nothing() {
    let tlv = sample();
    assert!(tlv.find_val("").is_none());
    assert!(tlv.find_val("   ").is_none());
    assert!(tlv.find_val("/").is_none());
    assert!(tlv.find_val("6F /").is_none());
    assert!(tlv.find_val("/ 6F").is_none());
    assert!(tlv.find_val("6F // A5").is_none());
    assert!(tlv.find_val("6F / ZZ").is_none());
    assert!(tlv.find_val("6G").is_none());
    assert!(tlv.find_val("6F, A5").is_none());
    assert!(tlv.find_val("0x6F").is_none());
    assert!(tlv.find_val("+6F").is_none());
    assert!(tlv.find_val("6F / 10000000000000000000000000000000000").is_none());
}

#[test]
fn tag_path_error() {
    assert_eq!(Tlv::get_path("6F / A5").unwrap(), vec![0x6f, 0xa5]);
    assert_eq!(Tlv::get_path("21").unwrap(), vec![0x21]);
    assert_eq!(Tlv::get_path(" 0 / 00ff / FFFFFFFF ").unwrap(), vec![0, 0xff, 0xffff_ffff]);
    assert_eq!(Tlv::get_path("").unwrap_err(), TlvError::TagPathError);
    assert_eq!(Tlv::get_path("21 /").unwrap_err(), TlvError::TagPathError);
    assert_eq!(Tlv::get_path("21 / x").unwrap_err(), TlvError::TagPathError);
    assert_eq!(Tlv::get_path("2G").unwrap_err(), TlvError::TagPathError);
    assert_eq!(
        Tlv::get_path("1FFFFFFFFFFFFFFFFFFFFFFFFFFFFFFFF").unwrap_err(),
        TlvError::TagPathError
    );
}

#[test]
fn find_val_takes_any_text() {
    let tlv = Tlv::new(0x6a, Value::Nothing).unwrap();
    for text in ["\u{fffd}\u{fffd}", "6a\u{0}", "////", "6A6A6A6A6A6A6A6A6A6A6A6A6A", "é"] {
        assert!(tlv.find_val(text).is_none());
    }
    assert!(tlv.find_val("6a").is_some());
}
