use bencode_parser::combinator::{
    parse_bencode_dict, parse_bencode_list, parse_bencode_num, parse_bencode_string, BencodeDict,
    BencodeItemView,
};

#[test]
fn combinator_zero_is_valid_be_num() {
    let (_, parsed) = parse_bencode_num(b"i0e").unwrap();
    assert_eq!(parsed, b"0");
}

#[test]
fn combinator_positive_number_without_leading_zero_is_valid() {
    let (_, parsed) = parse_bencode_num(b"i124223e").unwrap();
    assert_eq!(parsed, b"124223");
}

#[test]
fn combinator_positive_number_with_leading_zero_is_rejected() {
    let res = parse_bencode_num(b"i0001e");
    assert!(res.is_err());
}

#[test]
fn combinator_negative_number_without_leading_zero_is_valid() {
    let (_, parsed) = parse_bencode_num(b"i-121241e").unwrap();
    assert_eq!(parsed, b"-121241")
}

#[test]
fn combinator_negative_zero_is_not_allowed() {
    let parsed = parse_bencode_num(b"i-0e");
    assert!(parsed.is_err())
}

#[test]
fn combinator_positive_number_with_zeroes_in_between_is_valid() {
    let (_, parsed) = parse_bencode_num(b"i700454e").unwrap();
    assert_eq!(parsed, b"700454");
}

#[test]
fn combinator_negative_number_with_zeroes_in_between_is_valid() {
    let (_, parsed) = parse_bencode_num(b"i-6004e").unwrap();
    assert_eq!(parsed, b"-6004")
}

#[test]
fn combinator_naked_numbers_are_not_bencode_numbers() {
    let parsed = parse_bencode_num(b"8232");
    assert!(parsed.is_err())
}

#[test]
fn combinator_negative_number_with_leading_zeroes_is_not_allowed() {
    let parsed = parse_bencode_num(b"i-0001213e");
    assert!(parsed.is_err())
}

#[test]
fn combinator_letters_are_not_be_numbers() {
    let parsed = parse_bencode_num(b"iabcedfge");
    assert!(parsed.is_err());
}

#[test]
fn combinator_naked_string_is_not_bencode_string() {
    let parsed = parse_bencode_string(b"string!");
    assert!(parsed.is_err());
}

#[test]
fn combinator_bencode_string_takes_exact_length() {
    let (_, parsed) = parse_bencode_string(b"4:spam").unwrap();
    assert_eq!(parsed, b"spam");
}

#[test]
fn combinator_strings_shorter_than_declaration_is_not_allowed() {
    let parsed = parse_bencode_string(b"4:spa");
    assert!(parsed.is_err());
}

#[test]
fn combinator_bencode_list_eats_all_inputs() {
    let (remaining, parsed) = parse_bencode_list(b"l4:spami42ee").unwrap();

    let expected = vec![
        BencodeItemView::ByteString(b"spam"),
        BencodeItemView::Integer(42),
    ];
    assert_eq!(expected, parsed);
    assert_eq!(remaining, b"");
}

#[test]
fn combinator_bencode_dict_eats_all_inputs() {
    let (remaining, parsed) = parse_bencode_dict(b"d3:bar4:spam3:fooi42ee").unwrap();

    let mut expected = BencodeDict::new();
    expected.insert(b"bar".as_slice(), BencodeItemView::ByteString(b"spam"));
    expected.insert(b"foo".as_slice(), BencodeItemView::Integer(42));

    assert_eq!(expected, parsed);
    assert_eq!(remaining, b"");
}
