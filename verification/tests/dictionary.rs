use bencode_parser::lexical::{compare_keys, KeyOrder};
use bencode_parser::{bencode_value, parse_bencode_dict, BencodeDict, BencodeItemView};

#[test]
fn keys_compare_byte_by_byte() {
    assert_eq!(compare_keys(b"", b""), KeyOrder::Same);
    assert_eq!(compare_keys(b"", b"a"), KeyOrder::Before);
    assert_eq!(compare_keys(b"a", b""), KeyOrder::After);
    assert_eq!(compare_keys(b"bar", b"foo"), KeyOrder::Before);
    assert_eq!(compare_keys(b"foo", b"bar"), KeyOrder::After);
    assert_eq!(compare_keys(b"foo", b"foo"), KeyOrder::Same);
    assert_eq!(compare_keys(b"fo", b"foo"), KeyOrder::Before);
    assert_eq!(compare_keys(b"foo", b"fo"), KeyOrder::After);
    assert_eq!(compare_keys(b"a\xff", b"b\x00"), KeyOrder::Before);
    assert_eq!(compare_keys(b"\x7f", b"\x80"), KeyOrder::Before);
    assert_eq!(compare_keys(b"Z", b"a"), KeyOrder::Before);
}

#[test]
fn keys_compare_as_slices_do() {
    let samples: [&[u8]; 8] = [b"", b"a", b"aa", b"ab", b"b", b"\x00", b"\xff", b"a\x00"];
    for a in samples {
        for b in samples {
            let expected = match a.cmp(b) {
                std::cmp::Ordering::Less => KeyOrder::Before,
                std::cmp::Ordering::Equal => KeyOrder::Same,
                std::cmp::Ordering::Greater => KeyOrder::After,
            };
            assert_eq!(compare_keys(a, b), expected);
        }
    }
}

#[test]
fn new_dictionary_is_empty() {
    let d = BencodeDict::new();
    assert_eq!(d.len(), 0);
    assert!(d.is_empty());
    assert!(d.get(b"a").is_none());
    assert!(d.entry(0).is_none());
}

#[test]
fn insert_keeps_keys_in_ascending_order() {
    let mut d = BencodeDict::new();
    assert!(d.insert(b"m", BencodeItemView::Integer(1)).is_none());
    assert!(d.insert(b"z", BencodeItemView::Integer(2)).is_none());
    assert!(d.insert(b"a", BencodeItemView::Integer(3)).is_none());
    assert!(d.insert(b"mm", BencodeItemView::Integer(4)).is_none());
    assert!(d.insert(b"", BencodeItemView::Integer(5)).is_none());
    assert_eq!(d.len(), 5);
    assert!(!d.is_empty());

    let expected: [(&[u8], i64); 5] = [(b"", 5), (b"a", 3), (b"m", 1), (b"mm", 4), (b"z", 2)];
    for (i, (key, n)) in expected.iter().enumerate() {
        let (k, v) = d.entry(i).unwrap();
        assert_eq!(k, *key);
        assert_eq!(*v, BencodeItemView::Integer(*n));
        assert_eq!(d.get(key), Some(&BencodeItemView::Integer(*n)));
    }
    assert!(d.entry(5).is_none());
    assert!(d.get(b"b").is_none());
    assert!(d.get(b"zz").is_none());
}

#[test]
fn insert_overwrites_and_hands_back_the_earlier_value() {
    let mut d = BencodeDict::new();
    d.insert(b"k", BencodeItemView::Integer(1));
    d.insert(b"j", BencodeItemView::Integer(0));
    let earlier = d.insert(b"k", BencodeItemView::ByteString(b"new"));
    assert_eq!(earlier, Some(BencodeItemView::Integer(1)));
    assert_eq!(d.len(), 2);
    assert_eq!(d.get(b"k"), Some(&BencodeItemView::ByteString(b"new")));
    assert_eq!(d.get(b"j"), Some(&BencodeItemView::Integer(0)));
}

#[test]
fn dictionary_keys_come_out_ascending_whatever_the_input_order() {
    let (rest, sorted) = parse_bencode_dict(b"d3:bar4:spam3:fooi42ee").unwrap();
    assert_eq!(rest, b"");
    let (rest, unsorted) = parse_bencode_dict(b"d3:fooi42e3:bar4:spame").unwrap();
    assert_eq!(rest, b"");
    assert_eq!(sorted, unsorted);

    assert_eq!(unsorted.len(), 2);
    let (first, value) = unsorted.entry(0).unwrap();
    assert_eq!(first, b"bar");
    assert_eq!(*value, BencodeItemView::ByteString(b"spam"));
    let (second, value) = unsorted.entry(1).unwrap();
    assert_eq!(second, b"foo");
    assert_eq!(*value, BencodeItemView::Integer(42));
}

#[test]
fn later_entry_wins_on_a_repeated_key() {
    let (rest, parsed) = parse_bencode_dict(b"d1:ai1e1:bi2e1:ai3ee").unwrap();
    assert_eq!(rest, b"");
    assert_eq!(parsed.len(), 2);
    assert_eq!(parsed.get(b"a"), Some(&BencodeItemView::Integer(3)));
    assert_eq!(parsed.get(b"b"), Some(&BencodeItemView::Integer(2)));
}

#[test]
fn many_keys_in_descending_order_are_sorted() {
    let mut encoded: Vec<u8> = vec![b'd'];
    for n in (0..200u32).rev() {
        let key = format!("{:03}", n);
        encoded.extend_from_slice(format!("3:{}i{}e", key, n).as_bytes());
    }
    encoded.push(b'e');
    let (rest, parsed) = parse_bencode_dict(&encoded).unwrap();
    assert_eq!(rest, b"");
    assert_eq!(parsed.len(), 200);
    for n in 0..200usize {
        let (key, value) = parsed.entry(n).unwrap();
        assert_eq!(key, format!("{:03}", n).as_bytes());
        assert_eq!(*value, BencodeItemView::Integer(n as i64));
        assert_eq!(parsed.get(key), Some(value));
    }
}

#[test]
fn clone_is_equal_to_what_was_cloned() {
    let (_, parsed) = bencode_value(b"d1:ali1e2:abd1:xi-1eee1:b0:e").unwrap();
    let copy = parsed.clone();
    assert_eq!(copy, parsed);
    if let BencodeItemView::Dictionary(d) = &parsed {
        let copy = d.clone();
        assert_eq!(&copy, d);
        assert_eq!(copy.len(), 2);
    } else {
        panic!("a dictionary was parsed");
    }
}
