use bencode_parser::{
    bencode_value, parse_bencode_dict, parse_bencode_integer, parse_bencode_list,
    parse_bencode_num, parse_bencode_string, BencodeSchemaError, BencodeSchemaErrorKinds,
    ErrorKind,
};

fn grammar(kind: ErrorKind) -> BencodeSchemaErrorKinds {
    BencodeSchemaErrorKinds::NomInternal(kind)
}

#[test]
fn new_keeps_message_and_kind() {
    let e = BencodeSchemaError::new(
        String::from("keys out of order"),
        BencodeSchemaErrorKinds::DictNotInLexicographicalOrder,
    );
    assert_eq!(e.message(), "keys out of order");
    assert_eq!(e.kind(), BencodeSchemaErrorKinds::DictNotInLexicographicalOrder);
}

#[test]
fn from_error_kind_describes_rule_and_input() {
    let e = BencodeSchemaError::from_error_kind(b"ab", ErrorKind::Tag);
    assert_eq!(e.message(), "Tag:\t[97, 98]\n");
    assert_eq!(e.kind(), grammar(ErrorKind::Tag));

    let e = BencodeSchemaError::from_error_kind(b"", ErrorKind::Eof);
    assert_eq!(e.message(), "Eof:\t[]\n");
    assert_eq!(e.kind(), grammar(ErrorKind::Eof));
}

#[test]
fn append_puts_the_new_frame_in_front() {
    let inner = BencodeSchemaError::from_error_kind(b"b", ErrorKind::Digit);
    let outer = BencodeSchemaError::append(b"ab", ErrorKind::Many1, inner);
    assert_eq!(outer.message(), "Many1:\t[97, 98]\nDigit:\t[98]\n");
    assert_eq!(outer.kind(), grammar(ErrorKind::Many1));

    let outermost = BencodeSchemaError::append(b"xab", ErrorKind::Alt, outer);
    assert_eq!(outermost.message(), "Alt:\t[120, 97, 98]\nMany1:\t[97, 98]\nDigit:\t[98]\n");
    assert_eq!(outermost.kind(), grammar(ErrorKind::Alt));
}

#[test]
fn append_keeps_a_trace_given_to_new() {
    let inner = BencodeSchemaError::new(
        String::from("unordered\n"),
        BencodeSchemaErrorKinds::DictNotInLexicographicalOrder,
    );
    let outer = BencodeSchemaError::append(b"d", ErrorKind::Alt, inner);
    assert_eq!(outer.message(), "Alt:\t[100]\nunordered\n");
    assert_eq!(outer.kind(), grammar(ErrorKind::Alt));
}

#[test]
fn integer_token_without_its_marker_fails_at_the_first_byte() {
    let e = parse_bencode_num(b"8232").unwrap_err();
    assert_eq!(e.kind(), grammar(ErrorKind::Tag));
    assert_eq!(e.message(), "Tag:\t[56, 50, 51, 50]\n");

    let e = parse_bencode_num(b"").unwrap_err();
    assert_eq!(e.kind(), grammar(ErrorKind::Tag));
    assert_eq!(e.message(), "Tag:\t[]\n");
}

#[test]
fn integer_token_without_a_numeral_fails_in_every_alternative() {
    let e = parse_bencode_num(b"i-0e").unwrap_err();
    assert_eq!(e.kind(), grammar(ErrorKind::Alt));
    assert_eq!(e.message(), "Alt:\t[45, 48, 101]\nTag:\t[45, 48, 101]\n");

    let e = parse_bencode_num(b"iabcedfge").unwrap_err();
    assert_eq!(e.kind(), grammar(ErrorKind::Alt));
}

#[test]
fn integer_token_with_a_leading_zero_fails_after_the_zero() {
    let e = parse_bencode_num(b"i0001e").unwrap_err();
    assert_eq!(e.kind(), grammar(ErrorKind::Tag));
    assert_eq!(e.message(), "Tag:\t[48, 48, 49, 101]\n");
}

#[test]
fn integer_out_of_range_is_a_conversion_failure() {
    let input = b"i9223372036854775808e";
    let e = parse_bencode_integer(input).unwrap_err();
    assert_eq!(e.kind(), grammar(ErrorKind::MapRes));
    assert_eq!(e.message(), format!("MapRes:\t{:?}\n", input.as_slice()));

    let e = bencode_value(input).unwrap_err();
    assert_eq!(e.kind(), grammar(ErrorKind::Alt));
    assert_eq!(
        e.message(),
        format!("Alt:\t{:?}\nMapRes:\t{:?}\n", input.as_slice(), input.as_slice())
    );
}

#[test]
fn byte_string_failures_name_the_rule() {
    let e = parse_bencode_string(b"string!").unwrap_err();
    assert_eq!(e.kind(), grammar(ErrorKind::Digit));
    assert_eq!(e.message(), "Digit:\t[115, 116, 114, 105, 110, 103, 33]\n");

    let e = parse_bencode_string(b"18446744073709551616:x").unwrap_err();
    assert_eq!(e.kind(), grammar(ErrorKind::Digit));

    let e = parse_bencode_string(b"4spam").unwrap_err();
    assert_eq!(e.kind(), grammar(ErrorKind::Tag));
    assert_eq!(e.message(), "Tag:\t[115, 112, 97, 109]\n");

    let e = parse_bencode_string(b"4:spa").unwrap_err();
    assert_eq!(e.kind(), grammar(ErrorKind::Eof));
    assert_eq!(e.message(), "Eof:\t[115, 112, 97]\n");
}

#[test]
fn value_failure_wraps_the_deepest_alternative() {
    // Begins like an integer: the integer's failure is kept.
    let e = bencode_value(b"i-0e").unwrap_err();
    assert_eq!(e.kind(), grammar(ErrorKind::Alt));
    assert_eq!(
        e.message(),
        "Alt:\t[105, 45, 48, 101]\nAlt:\t[45, 48, 101]\nTag:\t[45, 48, 101]\n"
    );
    // Begins like a byte string.
    let e = bencode_value(b"4:spa").unwrap_err();
    assert_eq!(e.message(), "Alt:\t[52, 58, 115, 112, 97]\nEof:\t[115, 112, 97]\n");
    // Begins like a list.
    let e = bencode_value(b"li1e").unwrap_err();
    assert_eq!(e.message(), "Alt:\t[108, 105, 49, 101]\nTag:\t[]\n");
    // Begins like a dictionary.
    let e = bencode_value(b"d1:a").unwrap_err();
    assert_eq!(
        e.message(),
        "Alt:\t[100, 49, 58, 97]\nMany1:\t[49, 58, 97]\nAlt:\t[]\nTag:\t[]\n"
    );
    // Begins like nothing: the last alternative's failure is kept.
    let e = bencode_value(b"x").unwrap_err();
    assert_eq!(e.message(), "Alt:\t[120]\nTag:\t[120]\n");
    let e = bencode_value(b"").unwrap_err();
    assert_eq!(e.message(), "Alt:\t[]\nTag:\t[]\n");
}

#[test]
fn list_failures_name_the_rule() {
    let e = parse_bencode_list(b"i1e").unwrap_err();
    assert_eq!(e.kind(), grammar(ErrorKind::Tag));
    assert_eq!(e.message(), "Tag:\t[105, 49, 101]\n");

    let e = parse_bencode_list(b"le").unwrap_err();
    assert_eq!(e.kind(), grammar(ErrorKind::Many1));
    assert_eq!(e.message(), "Many1:\t[101]\nAlt:\t[101]\nTag:\t[101]\n");

    let e = parse_bencode_list(b"li1ei-0ee").unwrap_err();
    assert_eq!(e.kind(), grammar(ErrorKind::Tag));
    assert_eq!(e.message(), "Tag:\t[105, 45, 48, 101, 101]\n");
}

#[test]
fn dictionary_failures_name_the_rule() {
    let e = parse_bencode_dict(b"l1:ae").unwrap_err();
    assert_eq!(e.kind(), grammar(ErrorKind::Tag));

    let e = parse_bencode_dict(b"de").unwrap_err();
    assert_eq!(e.kind(), grammar(ErrorKind::Many1));
    assert_eq!(e.message(), "Many1:\t[101]\nDigit:\t[101]\n");

    let e = parse_bencode_dict(b"d3:fooe").unwrap_err();
    assert_eq!(e.kind(), grammar(ErrorKind::Many1));
    assert_eq!(
        e.message(),
        "Many1:\t[51, 58, 102, 111, 111, 101]\nAlt:\t[101]\nTag:\t[101]\n"
    );

    // The second entry has a key and no value: the entries end before it.
    let e = parse_bencode_dict(b"d1:ai1e1:be").unwrap_err();
    assert_eq!(e.kind(), grammar(ErrorKind::Tag));
    assert_eq!(e.message(), "Tag:\t[49, 58, 98, 101]\n");
}
