use utils::text::{parse_integer, parse_unsigned};

#[test]
fn parses_unsigned_numbers() {
    assert_eq!(parse_unsigned(b"0"), Some(0));
    assert_eq!(parse_unsigned(b"+42"), Some(42));
    assert_eq!(parse_unsigned(b"18446744073709551615"), Some(u64::MAX));
    assert_eq!(parse_unsigned(b"18446744073709551616"), None);
    assert_eq!(parse_unsigned(b""), None);
    assert_eq!(parse_unsigned(b"+"), None);
    assert_eq!(parse_unsigned(b"-1"), None);
    assert_eq!(parse_unsigned(b"12a"), None);
}

#[test]
fn parses_signed_numbers() {
    assert_eq!(parse_integer(b"-17"), Some(-17));
    assert_eq!(parse_integer(b"+17"), Some(17));
    assert_eq!(parse_integer(b"9223372036854775807"), Some(i64::MAX));
    assert_eq!(parse_integer(b"-9223372036854775808"), Some(i64::MIN));
    assert_eq!(parse_integer(b"9223372036854775808"), None);
    assert_eq!(parse_integer(b"-"), None);
    assert_eq!(parse_integer(b" 5"), None);
}

#[test]
fn splits_on_every_separator() {
    let fields = utils::text::split_fields(b"a,bc,,d", b',');
    assert_eq!(fields, vec![b"a".to_vec(), b"bc".to_vec(), b"".to_vec(), b"d".to_vec()]);
    assert_eq!(utils::text::split_fields(b"", b','), vec![Vec::<u8>::new()]);
    assert_eq!(utils::text::split_fields(b",", b','), vec![Vec::<u8>::new(), Vec::new()]);
}

#[test]
fn splits_on_runs_of_whitespace() {
    let words = utils::text::split_whitespace(b"  ab c\t\n de  ");
    assert_eq!(words, vec![b"ab".to_vec(), b"c".to_vec(), b"de".to_vec()]);
    assert_eq!(utils::text::split_whitespace(b" \n "), Vec::<Vec<u8>>::new());
    assert_eq!(utils::text::split_whitespace(b"x"), vec![b"x".to_vec()]);
}
