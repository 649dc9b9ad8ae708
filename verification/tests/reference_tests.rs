//! The codec and the info hash held against other implementations.

use std::collections::HashMap;

use serde_bencode::value::Value as Reference;
use sha1::{Digest, Sha1};
use torrentinfo::{decode, encode, Dict, Torrent, Value};

fn to_reference(value: &Value) -> Reference {
    match value {
        Value::Int(i) => Reference::Int(*i),
        Value::Bytes(bytes) => Reference::Bytes(bytes.clone()),
        Value::List(items) => Reference::List(items.iter().map(to_reference).collect()),
        Value::Dict(dict) => {
            let mut map = HashMap::new();
            for (key, value) in dict.entries() {
                map.insert(key.clone(), to_reference(value));
            }
            Reference::Dict(map)
        }
    }
}

fn from_reference(reference: &Reference) -> Value {
    match reference {
        Reference::Int(i) => Value::Int(*i),
        Reference::Bytes(bytes) => Value::Bytes(bytes.clone()),
        Reference::List(items) => Value::List(items.iter().map(from_reference).collect()),
        Reference::Dict(map) => {
            let mut dict = Dict::new();
            for (key, value) in map {
                dict.insert(key.clone(), from_reference(value));
            }
            Value::Dict(dict)
        }
    }
}

const DOCUMENTS: [&[u8]; 10] = [
    b"i0e",
    b"i-9223372036854775808e",
    b"i9223372036854775807e",
    b"0:",
    b"5:\x00\xff\x80ab",
    b"le",
    b"de",
    b"l4:spami42eli-1eedee",
    b"d0:0:1:Ai1e1:ai2e2:aai3e1:bd1:xl1:yeee",
    b"d8:announce23:http://example.com/annc4:infod6:lengthi6000e4:name8:file.bin12:piece lengthi16384e6:pieces0:ee",
];

#[test]
fn decodes_canonical_documents_as_serde_bencode_does() {
    for document in DOCUMENTS {
        let ours = decode(document).unwrap();
        let theirs: Reference = serde_bencode::from_bytes(document).unwrap();
        assert_eq!(ours, from_reference(&theirs));
        assert_eq!(to_reference(&ours), theirs);
    }
}

#[test]
fn encodes_as_serde_bencode_does() {
    for document in DOCUMENTS {
        let ours = decode(document).unwrap();
        let theirs = serde_bencode::to_bytes(&to_reference(&ours)).unwrap();
        assert_eq!(encode(&ours), theirs);
        assert_eq!(encode(&ours), document.to_vec());
    }
}

#[test]
fn encodes_dictionaries_built_out_of_order_as_serde_bencode_does() {
    let mut dict = Dict::new();
    dict.insert(b"zz".to_vec(), Value::Int(1));
    dict.insert(b"z".to_vec(), Value::Int(2));
    dict.insert(b"a".to_vec(), Value::List(vec![Value::Bytes(b"x".to_vec())]));
    dict.insert(vec![0xff], Value::Int(3));
    dict.insert(Vec::new(), Value::Int(4));
    let value = Value::Dict(dict);
    let theirs = serde_bencode::to_bytes(&to_reference(&value)).unwrap();
    assert_eq!(encode(&value), theirs);
}

#[test]
fn refuses_numerals_and_trailing_bytes_that_serde_bencode_lets_pass() {
    let lenient: [&[u8]; 5] = [b"i01e", b"i-0e", b"i+5e", b"i1ei2e", b"dee"];
    for input in lenient {
        assert!(serde_bencode::from_bytes::<Reference>(input).is_ok());
        assert!(decode(input).is_err());
    }
}

#[test]
fn refuses_what_serde_bencode_refuses() {
    let broken: [&[u8]; 8] = [b"", b"i", b"ie", b"5:abc", b"l", b"d3:cow", b"x", b"d3:cowe"];
    for input in broken {
        assert!(serde_bencode::from_bytes::<Reference>(input).is_err());
        assert!(decode(input).is_err());
    }
}

#[test]
fn info_hash_is_the_sha1_of_the_encoded_info_dictionary() {
    let input = b"d7:comment1:c4:infod5:extrali1ei2ee6:lengthi6000e4:name8:file.bin12:piece lengthi16384e6:pieces20:aaaaaaaaaaaaaaaaaaaaee";
    let torrent = Torrent::from_buf(input).unwrap();
    let raw = torrent.raw_info().as_ref().unwrap();
    let expected = Sha1::digest(encode(raw)).to_vec();
    assert_eq!(torrent.info_hash().unwrap(), expected);
    let encoded_info = &input[19..input.len() - 1];
    assert_eq!(encode(raw), encoded_info.to_vec());
    assert_eq!(torrent.info_hash().unwrap(), Sha1::digest(encoded_info).to_vec());
}

/// All inputs over `alphabet` of up to `longest` bytes.
fn inputs(alphabet: &[u8], longest: usize) -> Vec<Vec<u8>> {
    let mut all: Vec<Vec<u8>> = vec![Vec::new()];
    let mut last: Vec<Vec<u8>> = vec![Vec::new()];
    for _ in 0..longest {
        let mut next = Vec::new();
        for input in &last {
            for byte in alphabet {
                let mut longer = input.clone();
                longer.push(*byte);
                next.push(longer);
            }
        }
        all.extend(next.iter().cloned());
        last = next;
    }
    all
}

#[test]
fn every_short_input_that_decodes_is_decoded_as_serde_bencode_does() {
    let mut decoded = 0;
    for input in inputs(b"ilde01-:a", 6) {
        if let Ok(ours) = decode(&input) {
            decoded += 1;
            let theirs: Reference = serde_bencode::from_bytes(&input).unwrap();
            assert_eq!(to_reference(&ours), theirs, "on {:?}", input);
        }
    }
    assert!(decoded > 100);
}

#[test]
fn every_short_input_that_decodes_survives_the_round_trip() {
    for input in inputs(b"ilde01-:a", 6) {
        if let Ok(first) = decode(&input) {
            let encoded = encode(&first);
            assert!(encoded.len() <= input.len(), "on {:?}", input);
            let second = decode(&encoded).unwrap();
            assert!(first.same_as(&second), "on {:?}", input);
            assert_eq!(encode(&second), encoded, "on {:?}", input);
        }
    }
}

#[test]
fn every_short_input_that_decodes_is_refused_when_cut_or_continued() {
    for input in inputs(b"ilde01-:a", 5) {
        if decode(&input).is_ok() {
            for cut in 0..input.len() {
                let error = decode(&input[..cut]).unwrap_err();
                assert_eq!(error.kind, torrentinfo::DecodeErrorKind::UnexpectedEnd, "on {:?}", input);
                assert_eq!(error.offset, cut, "on {:?}", input);
            }
            for byte in b"ilde01-:a" {
                let mut longer = input.clone();
                longer.push(*byte);
                let error = decode(&longer).unwrap_err();
                assert_eq!(error.kind, torrentinfo::DecodeErrorKind::TrailingBytes, "on {:?}", input);
                assert_eq!(error.offset, input.len(), "on {:?}", input);
            }
        }
    }
}
