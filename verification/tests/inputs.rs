use nom::error::{Error, ErrorKind};
use nom_find::Input;

#[test]
fn str_input_len_counts_bytes() {
    assert_eq!("hello".input_len(), 5);
    assert_eq!("héllo".input_len(), 6);
    assert_eq!("🦀".input_len(), 4);
    assert_eq!("".input_len(), 0);
}

#[test]
fn bytes_input_len_counts_bytes() {
    let bytes: &[u8] = &[1, 2, 3];
    assert_eq!(bytes.input_len(), 3);
    let empty: &[u8] = &[];
    assert_eq!(empty.input_len(), 0);
}

#[test]
fn str_take_units_splits_after_characters() {
    assert_eq!("héllo".take_units(2), Ok(("llo", "hé")));
    assert_eq!("héllo".take_units(1), Ok(("éllo", "h")));
    assert_eq!("🦀x".take_units(1), Ok(("x", "🦀")));
    assert_eq!("ab".take_units(0), Ok(("ab", "")));
    assert_eq!("ab".take_units(2), Ok(("", "ab")));
}

#[test]
fn str_take_units_fails_when_short() {
    assert_eq!("ab".take_units(3), Err(nom::Err::Error(Error::new("ab", ErrorKind::Eof))));
    assert_eq!("é".take_units(2), Err(nom::Err::Error(Error::new("é", ErrorKind::Eof))));
    assert!("".take_units(1).is_err());
}

#[test]
fn bytes_take_units_splits_after_bytes() {
    let bytes: &[u8] = &[10, 20, 30];
    assert_eq!(bytes.take_units(1), Ok((&[20u8, 30][..], &[10u8][..])));
    assert_eq!(bytes.take_units(3), Ok((&[][..], &[10u8, 20, 30][..])));
    assert_eq!(bytes.take_units(0), Ok((&[10u8, 20, 30][..], &[][..])));
}

#[test]
fn bytes_take_units_fails_when_short() {
    let bytes: &[u8] = &[10, 20, 30];
    assert_eq!(bytes.take_units(4), Err(nom::Err::Error(Error::new(bytes, ErrorKind::Eof))));
    let empty: &[u8] = &[];
    assert!(empty.take_units(1).is_err());
}

#[test]
fn after_match_goes_on_at_the_rest_of_a_match() {
    assert_eq!(nom_find::cursor::after_match("abc", "c"), Ok("c"));
    assert_eq!(nom_find::cursor::after_match("abc", ""), Ok(""));
}

#[test]
fn after_match_moves_one_unit_after_a_match_of_nothing() {
    assert_eq!(nom_find::cursor::after_match("abc", "abc"), Ok("bc"));
    assert_eq!(nom_find::cursor::after_match("éa", "éa"), Ok("a"));
    let bytes: &[u8] = &[7, 8];
    assert_eq!(nom_find::cursor::after_match(bytes, bytes), Ok(&[8u8][..]));
}

#[test]
fn after_match_fails_where_no_unit_is_left() {
    assert_eq!(
        nom_find::cursor::after_match("", ""),
        Err(nom::Err::Error(Error::new("", ErrorKind::Eof)))
    );
}
