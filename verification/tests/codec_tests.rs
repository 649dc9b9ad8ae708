//! The codec on concrete documents.

use torrentinfo::bytes::{bytes_less, same_bytes};
use torrentinfo::decimal::{push_decimal, push_int};
use torrentinfo::encode::encode_into;
use torrentinfo::{decode, encode, DecodeError, DecodeErrorKind, Dict, Value};

fn bytes(text: &str) -> Value {
    Value::Bytes(text.as_bytes().to_vec())
}

fn refused(input: &[u8]) -> DecodeError {
    match decode(input) {
        Ok(value) => panic!("decoded to {:?}", value),
        Err(error) => error,
    }
}

fn assert_refused(input: &[u8], kind: DecodeErrorKind, offset: usize) {
    assert_eq!(refused(input), DecodeError { kind, offset });
}

#[test]
fn decodes_integers() {
    assert_eq!(decode(b"i0e").unwrap(), Value::Int(0));
    assert_eq!(decode(b"i42e").unwrap(), Value::Int(42));
    assert_eq!(decode(b"i-42e").unwrap(), Value::Int(-42));
    assert_eq!(decode(b"i9223372036854775807e").unwrap(), Value::Int(i64::MAX));
    assert_eq!(decode(b"i-9223372036854775808e").unwrap(), Value::Int(i64::MIN));
}

#[test]
fn refuses_integers_that_are_not_minimal() {
    assert_refused(b"i-0e", DecodeErrorKind::InvalidInteger, 2);
    assert_refused(b"i01e", DecodeErrorKind::InvalidInteger, 1);
    assert_refused(b"i00e", DecodeErrorKind::InvalidInteger, 1);
    assert_refused(b"i-01e", DecodeErrorKind::InvalidInteger, 2);
    assert_refused(b"i+1e", DecodeErrorKind::InvalidInteger, 1);
    assert_refused(b"ie", DecodeErrorKind::InvalidInteger, 1);
    assert_refused(b"i-e", DecodeErrorKind::InvalidInteger, 2);
    assert_refused(b"i1x2e", DecodeErrorKind::InvalidInteger, 2);
    assert_refused(b"i 1e", DecodeErrorKind::InvalidInteger, 1);
}

#[test]
fn refuses_integers_that_do_not_fit() {
    assert_refused(b"i9223372036854775808e", DecodeErrorKind::InvalidInteger, 1);
    assert_refused(b"i-9223372036854775809e", DecodeErrorKind::InvalidInteger, 1);
    assert_refused(
        b"i100000000000000000000000000000000000000e",
        DecodeErrorKind::InvalidInteger,
        1,
    );
}

#[test]
fn refuses_integers_that_end_early() {
    assert_refused(b"i", DecodeErrorKind::UnexpectedEnd, 1);
    assert_refused(b"i-", DecodeErrorKind::UnexpectedEnd, 2);
    assert_refused(b"i12", DecodeErrorKind::UnexpectedEnd, 3);
}

#[test]
fn decodes_byte_strings() {
    assert_eq!(decode(b"4:spam").unwrap(), bytes("spam"));
    assert_eq!(decode(b"0:").unwrap(), Value::Bytes(Vec::new()));
    assert_eq!(decode(b"3:\x00\xff\x80").unwrap(), Value::Bytes(vec![0x00, 0xff, 0x80]));
    assert_eq!(decode(b"11:hello world").unwrap(), bytes("hello world"));
}

#[test]
fn tolerates_zeros_before_a_length() {
    assert_eq!(decode(b"03:abc").unwrap(), bytes("abc"));
    assert_eq!(decode(b"00:").unwrap(), Value::Bytes(Vec::new()));
}

#[test]
fn refuses_truncated_byte_strings() {
    // A length prefix that the input ends in.
    assert_refused(b"5", DecodeErrorKind::UnexpectedEnd, 1);
    assert_refused(b"12", DecodeErrorKind::UnexpectedEnd, 2);
    // Fewer bytes than the length says.
    assert_refused(b"5:abc", DecodeErrorKind::UnexpectedEnd, 5);
    assert_refused(b"1:", DecodeErrorKind::UnexpectedEnd, 2);
    assert_refused(
        b"99999999999999999999999999999999:abc",
        DecodeErrorKind::UnexpectedEnd,
        36,
    );
}

#[test]
fn refuses_a_length_without_a_colon() {
    assert_refused(b"4x", DecodeErrorKind::InvalidLength, 1);
    assert_refused(b"4-3:abc", DecodeErrorKind::InvalidLength, 1);
    assert_refused(b"12e", DecodeErrorKind::InvalidLength, 2);
}

#[test]
fn decodes_lists() {
    assert_eq!(decode(b"le").unwrap(), Value::List(Vec::new()));
    assert_eq!(
        decode(b"l4:spami42ee").unwrap(),
        Value::List(vec![bytes("spam"), Value::Int(42)])
    );
    assert_eq!(
        decode(b"lleli1eee").unwrap(),
        Value::List(vec![Value::List(Vec::new()), Value::List(vec![Value::Int(1)])])
    );
}

#[test]
fn keeps_the_order_of_a_list() {
    let forward = decode(b"li1ei2ee").unwrap();
    let backward = decode(b"li2ei1ee").unwrap();
    assert_ne!(forward, backward);
}

#[test]
fn decodes_dictionaries() {
    assert_eq!(decode(b"de").unwrap(), Value::Dict(Dict::new()));
    let mut expected = Dict::new();
    expected.insert(b"cow".to_vec(), bytes("moo"));
    expected.insert(b"spam".to_vec(), bytes("eggs"));
    assert_eq!(decode(b"d3:cow3:moo4:spam4:eggse").unwrap(), Value::Dict(expected));
}

#[test]
fn tolerates_keys_out_of_order() {
    let sorted = decode(b"d1:ai1e1:bi2ee").unwrap();
    let unsorted = decode(b"d1:bi2e1:ai1ee").unwrap();
    assert_eq!(sorted, unsorted);
    assert_eq!(encode(&unsorted), b"d1:ai1e1:bi2ee".to_vec());
}

#[test]
fn takes_the_last_value_of_a_repeated_key() {
    let value = decode(b"d1:ai1e1:ai2ee").unwrap();
    assert_eq!(value, decode(b"d1:ai2ee").unwrap());
    match &value {
        Value::Dict(dict) => {
            assert_eq!(dict.len(), 1);
            assert_eq!(dict.get(b"a"), Some(&Value::Int(2)));
        }
        other => panic!("decoded to {:?}", other),
    }
}

#[test]
fn refuses_a_dictionary_without_its_end() {
    assert_refused(b"d", DecodeErrorKind::UnexpectedEnd, 1);
    assert_refused(b"d3:cow3:moo", DecodeErrorKind::UnexpectedEnd, 11);
    assert_refused(b"d3:cow", DecodeErrorKind::UnexpectedEnd, 6);
}

#[test]
fn refuses_a_list_without_its_end() {
    assert_refused(b"l", DecodeErrorKind::UnexpectedEnd, 1);
    assert_refused(b"l4:spam", DecodeErrorKind::UnexpectedEnd, 7);
    assert_refused(b"lli1e", DecodeErrorKind::UnexpectedEnd, 5);
}

#[test]
fn refuses_a_key_that_is_no_byte_string() {
    assert_refused(b"di1e3:mooe", DecodeErrorKind::UnexpectedByte, 1);
    assert_refused(b"dle3:mooe", DecodeErrorKind::UnexpectedByte, 1);
}

#[test]
fn refuses_an_unknown_leading_byte() {
    assert_refused(b"x", DecodeErrorKind::UnexpectedByte, 0);
    assert_refused(b"e", DecodeErrorKind::UnexpectedByte, 0);
    assert_refused(b"-1", DecodeErrorKind::UnexpectedByte, 0);
    assert_refused(b"lxe", DecodeErrorKind::UnexpectedByte, 1);
    assert_refused(b"not a valid torrent file", DecodeErrorKind::UnexpectedByte, 0);
}

#[test]
fn refuses_empty_input() {
    assert_refused(b"", DecodeErrorKind::UnexpectedEnd, 0);
}

#[test]
fn refuses_bytes_after_the_document() {
    assert_refused(b"i1ei2e", DecodeErrorKind::TrailingBytes, 3);
    assert_refused(b"dee", DecodeErrorKind::TrailingBytes, 2);
    assert_refused(b"4:spam ", DecodeErrorKind::TrailingBytes, 6);
    assert_refused(b"le\n", DecodeErrorKind::TrailingBytes, 2);
}

#[test]
fn accepts_a_value_that_is_no_dictionary() {
    assert!(decode(b"i7e").is_ok());
    assert!(decode(b"2:ab").is_ok());
    assert!(decode(b"le").is_ok());
}

#[test]
fn encodes_integers_in_minimal_form() {
    assert_eq!(encode(&Value::Int(0)), b"i0e".to_vec());
    assert_eq!(encode(&Value::Int(7)), b"i7e".to_vec());
    assert_eq!(encode(&Value::Int(1234567890)), b"i1234567890e".to_vec());
    assert_eq!(encode(&Value::Int(-1)), b"i-1e".to_vec());
    assert_eq!(encode(&Value::Int(i64::MAX)), b"i9223372036854775807e".to_vec());
    assert_eq!(encode(&Value::Int(i64::MIN)), b"i-9223372036854775808e".to_vec());
}

#[test]
fn encodes_byte_strings() {
    assert_eq!(encode(&bytes("spam")), b"4:spam".to_vec());
    assert_eq!(encode(&Value::Bytes(Vec::new())), b"0:".to_vec());
    assert_eq!(encode(&bytes("0123456789")), b"10:0123456789".to_vec());
    assert_eq!(encode(&Value::Bytes(vec![0xff, 0x00])), b"2:\xff\x00".to_vec());
}

#[test]
fn encodes_lists_and_dictionaries() {
    assert_eq!(encode(&Value::List(Vec::new())), b"le".to_vec());
    assert_eq!(encode(&Value::Dict(Dict::new())), b"de".to_vec());
    assert_eq!(
        encode(&Value::List(vec![bytes("spam"), Value::Int(42)])),
        b"l4:spami42ee".to_vec()
    );
}

#[test]
fn encodes_keys_in_ascending_order_whatever_the_insertion_order() {
    let keys: [&[u8]; 5] = [b"b", b"a", b"ab", b"", b"B"];
    let expected = b"d0:i3e1:Bi4e1:ai1e2:abi2e1:bi0ee".to_vec();
    let orders: [[usize; 5]; 4] =
        [[0, 1, 2, 3, 4], [4, 3, 2, 1, 0], [2, 0, 4, 1, 3], [3, 4, 1, 2, 0]];
    for order in orders {
        let mut dict = Dict::new();
        for at in order {
            dict.insert(keys[at].to_vec(), Value::Int(at as i64));
        }
        assert_eq!(encode(&Value::Dict(dict)), expected);
    }
}

#[test]
fn orders_keys_by_raw_bytes() {
    let mut dict = Dict::new();
    dict.insert(vec![0xff], Value::Int(1));
    dict.insert(vec![0x7f], Value::Int(2));
    dict.insert(vec![0x00], Value::Int(3));
    dict.insert(vec![0x7f, 0x00], Value::Int(4));
    assert_eq!(
        encode(&Value::Dict(dict)),
        b"d1:\x00i3e1:\x7fi2e2:\x7f\x00i4e1:\xffi1ee".to_vec()
    );
}

#[test]
fn encodes_nested_dictionaries_canonically() {
    let mut inner = Dict::new();
    inner.insert(b"z".to_vec(), Value::Int(1));
    inner.insert(b"y".to_vec(), Value::List(vec![bytes("q")]));
    let mut outer = Dict::new();
    outer.insert(b"k2".to_vec(), Value::Dict(inner));
    outer.insert(b"k1".to_vec(), Value::Int(-5));
    assert_eq!(encode(&Value::Dict(outer)), b"d2:k1i-5e2:k2d1:yl1:qe1:zi1eee".to_vec());
}

#[test]
fn inserting_a_key_again_replaces_its_value() {
    let mut dict = Dict::new();
    dict.insert(b"a".to_vec(), Value::Int(1));
    dict.insert(b"b".to_vec(), Value::Int(2));
    dict.insert(b"a".to_vec(), Value::Int(3));
    assert_eq!(dict.len(), 2);
    assert_eq!(dict.get(b"a"), Some(&Value::Int(3)));
    assert_eq!(dict.get(b"c"), None);
    assert_eq!(encode(&Value::Dict(dict)), b"d1:ai3e1:bi2ee".to_vec());
}

#[test]
fn removes_a_key() {
    let mut dict = Dict::new();
    dict.insert(b"a".to_vec(), Value::Int(1));
    dict.insert(b"b".to_vec(), Value::Int(2));
    assert_eq!(dict.remove(b"a"), Some(Value::Int(1)));
    assert_eq!(dict.remove(b"a"), None);
    assert_eq!(dict.len(), 1);
    assert_eq!(dict.entries().len(), 1);
    assert_eq!(dict.entries()[0].0, b"b".to_vec());
}

#[test]
fn round_trip_gives_the_same_document() {
    let inputs: [&[u8]; 9] = [
        b"i0e",
        b"i-17e",
        b"0:",
        b"03:abc",
        b"le",
        b"de",
        b"d1:bi2e1:ai1ee",
        b"d1:ai1e1:ai2e1:0le1:-d2:zz0:2:aali1eeee",
        b"l4:spamd3:cowl3:mooi-3eeee",
    ];
    for input in inputs {
        let first = decode(input).unwrap();
        let encoded = encode(&first);
        let second = decode(&encoded).unwrap();
        assert_eq!(first, second);
        assert!(first.same_as(&second));
        // Past the first normalization the bytes no longer change.
        assert_eq!(encode(&second), encoded);
    }
}

#[test]
fn round_trip_normalizes_the_bytes() {
    let first = decode(b"d1:bi2e1:ai1ee").unwrap();
    assert_eq!(encode(&first), b"d1:ai1e1:bi2ee".to_vec());
    let first = decode(b"003:abc").unwrap();
    assert_eq!(encode(&first), b"3:abc".to_vec());
}

#[test]
fn values_differ_where_their_documents_do() {
    assert_ne!(Value::Int(1), Value::Int(2));
    assert_ne!(Value::Int(1), bytes("1"));
    assert_ne!(bytes("a"), bytes("b"));
    assert_ne!(Value::List(vec![Value::Int(1)]), Value::List(Vec::new()));
    assert_ne!(Value::List(Vec::new()), Value::Dict(Dict::new()));
    let mut a = Dict::new();
    a.insert(b"k".to_vec(), Value::Int(1));
    let mut b = Dict::new();
    b.insert(b"k".to_vec(), Value::Int(2));
    let mut c = Dict::new();
    c.insert(b"j".to_vec(), Value::Int(1));
    assert_ne!(Value::Dict(a), Value::Dict(b));
    let mut a = Dict::new();
    a.insert(b"k".to_vec(), Value::Int(1));
    assert_ne!(Value::Dict(a), Value::Dict(c));
}

#[test]
fn decodes_the_minimal_descriptor_as_a_document() {
    let input = b"d8:announce23:http://example.com/annc4:infod12:piece lengthi16384e6:pieces0:ee";
    let value = decode(input).unwrap();
    match &value {
        Value::Dict(top) => {
            assert_eq!(top.len(), 2);
            assert_eq!(top.get(b"announce"), Some(&bytes("http://example.com/annc")));
            match top.get(b"info") {
                Some(Value::Dict(info)) => {
                    assert_eq!(info.get(b"piece length"), Some(&Value::Int(16384)));
                    assert_eq!(info.get(b"pieces"), Some(&Value::Bytes(Vec::new())));
                    assert_eq!(info.get(b"length"), None);
                    assert_eq!(info.get(b"files"), None);
                }
                other => panic!("info is {:?}", other),
            }
        }
        other => panic!("decoded to {:?}", other),
    }
    assert_eq!(encode(&value), input.to_vec());
}

#[test]
fn decodes_deeply_nested_lists() {
    let depth = 200;
    let mut input = vec![b'l'; depth];
    input.extend(vec![b'e'; depth]);
    let value = decode(&input).unwrap();
    assert_eq!(encode(&value), input);
}

#[test]
fn compares_byte_strings() {
    assert!(same_bytes(b"", b""));
    assert!(same_bytes(b"abc", b"abc"));
    assert!(!same_bytes(b"abc", b"abd"));
    assert!(!same_bytes(b"abc", b"ab"));
    assert!(bytes_less(b"", b"a"));
    assert!(!bytes_less(b"", b""));
    assert!(!bytes_less(b"a", b""));
    assert!(bytes_less(b"a", b"b"));
    assert!(!bytes_less(b"b", b"a"));
    assert!(bytes_less(b"a", b"ab"));
    assert!(!bytes_less(b"ab", b"a"));
    assert!(bytes_less(b"ab", b"b"));
    assert!(bytes_less(b"B", b"a"));
    assert!(bytes_less(&[0x7f], &[0x80]));
    assert!(bytes_less(&[0x00, 0xff], &[0x01]));
    assert!(!bytes_less(b"same", b"same"));
}

#[test]
fn keeps_entries_in_the_order_of_their_first_insertion() {
    let mut dict = Dict::new();
    dict.insert(b"z".to_vec(), Value::Int(1));
    dict.insert(b"a".to_vec(), Value::Int(2));
    dict.insert(b"z".to_vec(), Value::Int(3));
    let keys: Vec<&[u8]> = dict.entries().iter().map(|entry| entry.0.as_slice()).collect();
    assert_eq!(keys, vec![b"z".as_slice(), b"a".as_slice()]);
    assert_eq!(dict.entries()[0].1, Value::Int(3));
}

#[test]
fn appends_an_encoding_to_what_is_there() {
    let mut out = b"x".to_vec();
    encode_into(&Value::Int(5), &mut out);
    encode_into(&bytes("ab"), &mut out);
    assert_eq!(out, b"xi5e2:ab".to_vec());
}

#[test]
fn writes_numerals() {
    let mut out = Vec::new();
    push_decimal(&mut out, 0);
    out.push(b' ');
    push_decimal(&mut out, 10);
    out.push(b' ');
    push_decimal(&mut out, u64::MAX);
    out.push(b' ');
    push_int(&mut out, -7);
    assert_eq!(out, b"0 10 18446744073709551615 -7".to_vec());
}

#[test]
fn tells_how_deep_a_value_nests() {
    assert!(Value::Int(1).nests_within(0));
    assert!(bytes("x").nests_within(0));
    assert!(!Value::List(Vec::new()).nests_within(0));
    assert!(Value::List(Vec::new()).nests_within(1));
    assert!(!Value::Dict(Dict::new()).nests_within(0));
    assert!(Value::Dict(Dict::new()).nests_within(1));
    let value = decode(b"d1:ali1eli2eee1:bi3ee").unwrap();
    assert!(!value.nests_within(2));
    assert!(value.nests_within(3));
    assert!(value.nests_within(usize::MAX));
    let value = decode(b"lli1eed1:ad1:bleeee").unwrap();
    assert!(!value.nests_within(3));
    assert!(value.nests_within(4));
}
