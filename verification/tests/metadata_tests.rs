//! Descriptors read from bytes.

use torrentinfo::{
    decode, encode, to_hex, DecodeErrorKind, Field, File, SchemaError, Torrent, TorrentError,
};

const SINGLE: &[u8] = b"d8:announce23:http://example.com/annc4:infod6:lengthi6000e4:name8:file.bin12:piece lengthi16384e6:pieces0:ee";

const MULTI_INFO: &[u8] = b"d5:filesld6:lengthi1000e4:pathl4:dir15:a.txteed6:lengthi2000e4:pathl5:b.txteee4:name3:top12:piece lengthi32768e6:pieces20:\x00\x01\x02\x03\x04\x05\x06\x07\x08\t\n\x0b\x0c\r\x0e\x0f\x10\x11\x12\x13e";

fn multi() -> Vec<u8> {
    let mut bytes = b"d13:announce-listll5:url-a5:url-bel5:url-cee7:comment2:hi10:created by4:tool13:creation datei1704067201e8:encoding5:UTF-89:httpseedsl6:seed-1e4:info".to_vec();
    bytes.extend_from_slice(MULTI_INFO);
    bytes.extend_from_slice(b"5:nodesll4:hosti6881eee");
    bytes.push(b'e');
    bytes
}

fn schema_error(input: &[u8]) -> SchemaError {
    match Torrent::from_buf(input) {
        Err(TorrentError::Schema(error)) => error,
        other => panic!("read as {:?}", other),
    }
}

#[test]
fn reads_a_single_file_descriptor() {
    let torrent = Torrent::from_buf(SINGLE).unwrap();
    assert_eq!(torrent.announce().as_deref(), Some("http://example.com/annc"));
    assert_eq!(torrent.name().as_deref(), Some("file.bin"));
    assert_eq!(*torrent.info().piece_length(), 16384);
    assert!(torrent.info().pieces().is_empty());
    assert!(torrent.files().is_none());
    assert_eq!(torrent.info.length, Some(6000));
    assert_eq!(torrent.total_size(), 6000);
    assert_eq!(torrent.num_files(), 1);
    assert!(torrent.size_fits());
    assert!(torrent.comment().is_none());
    assert!(torrent.announce_list().is_none());
    assert!(torrent.created_by().is_none());
    assert!(torrent.creation_date().is_none());
    assert!(torrent.encoding().is_none());
    assert!(torrent.nodes().is_none());
    assert!(torrent.httpseeds().is_none());
    assert!(torrent.info().private().is_none());
}

#[test]
fn reads_a_multi_file_descriptor() {
    let torrent = Torrent::from_buf(&multi()).unwrap();
    assert!(torrent.announce().is_none());
    let tiers = torrent.announce_list().as_ref().unwrap();
    assert_eq!(tiers.len(), 2);
    assert_eq!(tiers[0], vec!["url-a".to_string(), "url-b".to_string()]);
    assert_eq!(tiers[1], vec!["url-c".to_string()]);
    assert_eq!(torrent.comment().as_deref(), Some("hi"));
    assert_eq!(torrent.created_by().as_deref(), Some("tool"));
    assert_eq!(*torrent.creation_date(), Some(1_704_067_201));
    assert_eq!(torrent.encoding().as_deref(), Some("UTF-8"));
    assert_eq!(torrent.httpseeds().as_ref().unwrap(), &vec!["seed-1".to_string()]);
    let nodes = torrent.nodes().as_ref().unwrap();
    assert_eq!(nodes.len(), 1);
    assert_eq!(nodes[0].host, "host");
    assert_eq!(nodes[0].port, 6881);
    assert_eq!(torrent.name().as_deref(), Some("top"));
    assert_eq!(*torrent.info().piece_length(), 32768);
    assert_eq!(torrent.info().pieces().len(), 20);
    assert_eq!(torrent.info().pieces().len() % 20, 0);
    assert!(torrent.info.length.is_none());
    let files = torrent.files().as_ref().unwrap();
    assert_eq!(files.len(), 2);
    assert_eq!(files[0].length(), 1000);
    assert_eq!(files[0].path(), &["dir1", "a.txt"]);
    assert!(files[0].md5sum.is_none());
    assert_eq!(files[1].length(), 2000);
    assert_eq!(files[1].path(), &["b.txt"]);
    assert_eq!(torrent.num_files(), 2);
    assert_eq!(torrent.total_size(), 3000);
}

#[test]
fn a_populated_file_list_is_reported_and_summed() {
    let torrent = Torrent::from_buf(&multi()).unwrap();
    assert_eq!(torrent.files().is_none(), false);
    let sum: i64 = torrent.files().as_ref().unwrap().iter().map(|file| file.length()).sum();
    assert_eq!(torrent.total_size(), sum);
}

#[test]
fn refuses_a_descriptor_without_length_and_files() {
    let input = b"d8:announce23:http://example.com/annc4:infod12:piece lengthi16384e6:pieces0:ee";
    assert!(decode(input).is_ok());
    assert_eq!(schema_error(input), SchemaError::MissingLayout);
}

#[test]
fn refuses_the_minimal_descriptor_followed_by_a_byte() {
    let input = b"d8:announce23:http://example.com/annc4:infod12:piece lengthi16384e6:pieces0:eeI";
    match Torrent::from_buf(input) {
        Err(TorrentError::Decode(error)) => {
            assert_eq!(error.kind, DecodeErrorKind::TrailingBytes);
            assert_eq!(error.offset, input.len() - 1);
        }
        other => panic!("read as {:?}", other),
    }
}

#[test]
fn refuses_a_descriptor_with_length_and_files() {
    let input = b"d4:infod5:filesle6:lengthi1e12:piece lengthi1e6:pieces0:ee";
    assert_eq!(schema_error(input), SchemaError::ConflictingLayout);
}

#[test]
fn refuses_a_document_that_is_no_dictionary() {
    assert_eq!(schema_error(b"i1e"), SchemaError::NotADictionary);
    assert_eq!(schema_error(b"le"), SchemaError::NotADictionary);
    assert_eq!(schema_error(b"4:info"), SchemaError::NotADictionary);
}

#[test]
fn refuses_a_descriptor_without_info() {
    assert_eq!(schema_error(b"de"), SchemaError::MissingField(Field::Info));
    assert_eq!(schema_error(b"d8:announce1:ae"), SchemaError::MissingField(Field::Info));
    assert_eq!(schema_error(b"d4:infoi1ee"), SchemaError::InvalidField(Field::Info));
    assert_eq!(schema_error(b"d4:infolee"), SchemaError::InvalidField(Field::Info));
}

#[test]
fn refuses_info_without_its_mandatory_keys() {
    assert_eq!(
        schema_error(b"d4:infod6:lengthi1e6:pieces0:ee"),
        SchemaError::MissingField(Field::PieceLength)
    );
    assert_eq!(
        schema_error(b"d4:infod6:lengthi1e12:piece length2:166:pieces0:ee"),
        SchemaError::InvalidField(Field::PieceLength)
    );
    assert_eq!(
        schema_error(b"d4:infod6:lengthi1e12:piece lengthi16eee"),
        SchemaError::MissingField(Field::Pieces)
    );
    assert_eq!(
        schema_error(b"d4:infod6:lengthi1e12:piece lengthi16e6:piecesi0eee"),
        SchemaError::InvalidField(Field::Pieces)
    );
}

#[test]
fn refuses_optional_keys_of_another_kind() {
    assert_eq!(
        schema_error(b"d8:announcei1e4:infod6:lengthi1e12:piece lengthi1e6:pieces0:ee"),
        SchemaError::InvalidField(Field::Announce)
    );
    assert_eq!(
        schema_error(b"d13:announce-listl1:ae4:infod6:lengthi1e12:piece lengthi1e6:pieces0:ee"),
        SchemaError::InvalidField(Field::AnnounceList)
    );
    assert_eq!(
        schema_error(b"d13:creation date1:x4:infod6:lengthi1e12:piece lengthi1e6:pieces0:ee"),
        SchemaError::InvalidField(Field::CreationDate)
    );
    assert_eq!(
        schema_error(b"d4:infod6:lengthi1e12:piece lengthi1e6:pieces0:7:privatei256eee"),
        SchemaError::InvalidField(Field::Private)
    );
    assert_eq!(
        schema_error(b"d4:infod6:lengthi1e12:piece lengthi1e6:pieces0:7:privatei-1eee"),
        SchemaError::InvalidField(Field::Private)
    );
    assert_eq!(
        schema_error(b"d4:infod5:filesld6:lengthi1eee12:piece lengthi1e6:pieces0:ee"),
        SchemaError::InvalidField(Field::Files)
    );
    assert_eq!(
        schema_error(b"d4:infod6:lengthi1e12:piece lengthi1e6:pieces0:e5:nodesll1:heee"),
        SchemaError::InvalidField(Field::Nodes)
    );
    assert_eq!(
        schema_error(b"d4:infod6:lengthi1e12:piece lengthi1e6:pieces0:e5:nodesll1:hi1ei2eeee"),
        SchemaError::InvalidField(Field::Nodes)
    );
}

#[test]
fn reports_the_first_key_that_is_wrong() {
    // Both `announce` and `info` are wrong; `announce` is looked at first.
    assert_eq!(
        schema_error(b"d8:announcei1e4:infoi1ee"),
        SchemaError::InvalidField(Field::Announce)
    );
    // A wrong key of `info` is reported before its layout.
    assert_eq!(
        schema_error(b"d4:infod4:namei1e12:piece lengthi1e6:pieces0:ee"),
        SchemaError::InvalidField(Field::Name)
    );
}

#[test]
fn passes_over_keys_it_does_not_know() {
    let input = b"d4:infod6:lengthi1e12:piece lengthi1e6:pieces0:5:x-keyi9ee6:x-morelee";
    let torrent = Torrent::from_buf(input).unwrap();
    assert_eq!(torrent.total_size(), 1);
    assert!(torrent.name().is_none());
}

#[test]
fn reads_the_private_flag() {
    let input = b"d4:infod6:lengthi1e12:piece lengthi1e6:pieces0:7:privatei1eee";
    let torrent = Torrent::from_buf(input).unwrap();
    assert_eq!(*torrent.info().private(), Some(1));
}

#[test]
fn reads_text_that_is_not_valid() {
    let input = b"d7:comment3:a\xffb4:infod6:lengthi1e12:piece lengthi1e6:pieces0:ee";
    let torrent = Torrent::from_buf(input).unwrap();
    assert_eq!(torrent.comment().as_deref(), Some("a\u{fffd}b"));
}

#[test]
fn reads_an_empty_text() {
    let input = b"d7:comment0:4:infod6:lengthi1e12:piece lengthi1e6:pieces0:ee";
    let torrent = Torrent::from_buf(input).unwrap();
    assert_eq!(torrent.comment().as_deref(), Some(""));
}

#[test]
fn reports_why_bytes_are_no_document() {
    match Torrent::from_buf(b"d4:info") {
        Err(TorrentError::Decode(error)) => {
            assert_eq!(error.kind, DecodeErrorKind::UnexpectedEnd);
            assert_eq!(error.offset, 7);
        }
        other => panic!("read as {:?}", other),
    }
}

#[test]
fn hashes_the_info_dictionary() {
    let torrent = Torrent::from_buf(SINGLE).unwrap();
    let hash = torrent.info_hash().unwrap();
    assert_eq!(hash.len(), 20);
    assert_eq!(to_hex(&hash), "e08f35736343d215f45fd3b5b7af6ddaa923c954");
    assert_eq!(to_hex(&hash).len(), 40);
    let torrent = Torrent::from_buf(&multi()).unwrap();
    assert_eq!(to_hex(&torrent.info_hash().unwrap()), "e7d6505f16dcac947e28e260b09a6ee2139ddbeb");
}

#[test]
fn hashes_the_keys_it_does_not_know() {
    let input = b"d4:infod6:lengthi6000e4:name8:file.bin12:piece lengthi16384e6:pieces0:5:x-key3:abcee";
    let torrent = Torrent::from_buf(input).unwrap();
    assert_eq!(to_hex(&torrent.info_hash().unwrap()), "b46f497fa95aa7d353aece933515d6faab63482e");
}

#[test]
fn hash_does_not_depend_on_the_order_of_keys() {
    let sorted = Torrent::from_buf(SINGLE).unwrap();
    let unsorted = Torrent::from_buf(
        b"d4:infod6:pieces0:4:name8:file.bin12:piece lengthi16384e6:lengthi6000ee8:announce23:http://example.com/annce",
    )
    .unwrap();
    assert_eq!(sorted.info_hash().unwrap(), unsorted.info_hash().unwrap());
    assert_eq!(sorted.info_hash().unwrap(), sorted.info_hash().unwrap());
}

#[test]
fn hash_does_not_depend_on_what_stands_outside_info() {
    let plain = Torrent::from_buf(SINGLE).unwrap();
    let commented = Torrent::from_buf(
        b"d7:comment2:hi4:infod6:lengthi6000e4:name8:file.bin12:piece lengthi16384e6:pieces0:ee",
    )
    .unwrap();
    assert_eq!(plain.info_hash().unwrap(), commented.info_hash().unwrap());
}

#[test]
fn a_descriptor_built_by_hand_hashes_its_fields() {
    let mut torrent = Torrent::default();
    assert!(torrent.raw_info().is_none());
    // The piece length and the pieces are always there.
    assert_eq!(encode(&torrent.info().to_value()), b"d12:piece lengthi0e6:pieces0:e".to_vec());
    assert_eq!(to_hex(&torrent.info_hash().unwrap()), "d6f02c1849b7cf99404e557fa70f3b4a7f1d6805");
    torrent.info.length = Some(1);
    torrent.info.name = Some("a".to_string());
    torrent.info.piece_length = 2;
    assert_eq!(
        encode(&torrent.info().to_value()),
        b"d6:lengthi1e4:name1:a12:piece lengthi2e6:pieces0:e".to_vec()
    );
    assert_eq!(to_hex(&torrent.info_hash().unwrap()), "05f83240193c1372eb2190430b2425e061479ac6");
}

#[test]
fn the_hash_of_fields_does_not_depend_on_what_stands_outside_info() {
    let mut plain = Torrent::default();
    plain.info.length = Some(1);
    plain.info.piece_length = 2;
    let mut commented = Torrent::default();
    commented.info.length = Some(1);
    commented.info.piece_length = 2;
    commented.comment = Some("a comment".to_string());
    commented.announce = Some("url".to_string());
    commented.announce_list = Some(vec![vec!["url".to_string()]]);
    commented.created_by = Some("tool".to_string());
    commented.creation_date = Some(7);
    commented.encoding = Some("UTF-8".to_string());
    commented.httpseeds = Some(vec!["seed".to_string()]);
    assert_eq!(plain.info_hash().unwrap(), commented.info_hash().unwrap());
    assert_eq!(to_hex(&plain.info_hash().unwrap()), "cbdde9710f612d8bd61ccb347887a918d47cb903");
}

#[test]
fn a_descriptor_built_by_hand_hashes_as_the_one_read_with_its_fields() {
    let read = Torrent::from_buf(b"d4:infod6:lengthi1e12:piece lengthi2e6:pieces0:ee").unwrap();
    let mut built = Torrent::default();
    built.info.length = Some(1);
    built.info.piece_length = 2;
    built.comment = Some("a comment".to_string());
    assert_eq!(read.info_hash().unwrap(), built.info_hash().unwrap());
    let read = Torrent::from_buf(SINGLE).unwrap();
    let mut built = Torrent::default();
    built.info.length = Some(6000);
    built.info.name = Some("file.bin".to_string());
    built.info.piece_length = 16384;
    assert_eq!(read.info_hash().unwrap(), built.info_hash().unwrap());
    assert_eq!(to_hex(&built.info_hash().unwrap()), "e08f35736343d215f45fd3b5b7af6ddaa923c954");
}

#[test]
fn the_fields_of_a_descriptor_that_was_read_stand_for_its_info_dictionary() {
    let info: &[u8] = b"d5:filesld6:lengthi1000e6:md5sum3:abc4:pathl4:dir15:a.txteed6:lengthi2000e4:pathl5:b.txteee6:md5sum1:m4:name3:top4:pathl1:pe12:piece lengthi32768e6:pieces20:aaaaaaaaaaaaaaaaaaaa7:privatei1e9:root hash2:rhe";
    let mut input = b"d4:info".to_vec();
    input.extend_from_slice(info);
    input.push(b'e');
    let read = Torrent::from_buf(&input).unwrap();
    assert_eq!(encode(&read.info().to_value()), info.to_vec());
    assert_eq!(encode(read.raw_info().as_ref().unwrap()), info.to_vec());
    assert_eq!(to_hex(&read.info_hash().unwrap()), "d5919c3733d3734f75171eb581af629fb322668b");
    let mut built = Torrent::default();
    built.info.files = Some(vec![
        File {
            length: 1000,
            path: vec!["dir1".to_string(), "a.txt".to_string()],
            md5sum: Some("abc".to_string()),
        },
        File::new(2000, vec!["b.txt".to_string()]),
    ]);
    built.info.md5sum = Some("m".to_string());
    built.info.name = Some("top".to_string());
    built.info.path = Some(vec!["p".to_string()]);
    built.info.piece_length = 32768;
    built.info.pieces = vec![b'a'; 20];
    built.info.private = Some(1);
    built.info.root_hash = Some("rh".to_string());
    assert_eq!(to_hex(&built.info_hash().unwrap()), "d5919c3733d3734f75171eb581af629fb322668b");
}

#[test]
fn a_file_stands_for_an_entry_of_a_file_list() {
    let file = File::new(5, vec!["a".to_string(), "b".to_string()]);
    assert_eq!(encode(&file.to_value()), b"d6:lengthi5e4:pathl1:a1:bee".to_vec());
    let file = File { length: -1, path: Vec::new(), md5sum: Some("\u{e9}".to_string()) };
    assert_eq!(encode(&file.to_value()), b"d6:lengthi-1e6:md5sum2:\xc3\xa94:pathlee".to_vec());
}

#[test]
fn unknown_keys_tell_a_descriptor_that_was_read_from_its_fields() {
    let read = Torrent::from_buf(
        b"d4:infod6:lengthi1e12:piece lengthi2e6:pieces0:5:x-key1:xee",
    )
    .unwrap();
    let mut built = Torrent::default();
    built.info.length = Some(1);
    built.info.piece_length = 2;
    assert_ne!(read.info_hash().unwrap(), built.info_hash().unwrap());
}

#[test]
fn keeps_the_info_dictionary_as_decoded() {
    let torrent = Torrent::from_buf(SINGLE).unwrap();
    let raw = torrent.raw_info().as_ref().unwrap();
    assert_eq!(
        encode(raw),
        b"d6:lengthi6000e4:name8:file.bin12:piece lengthi16384e6:pieces0:e".to_vec()
    );
}

#[test]
fn reads_a_document_as_a_descriptor() {
    let value = decode(SINGLE).unwrap();
    let torrent = Torrent::from_value(value).unwrap();
    assert_eq!(torrent.total_size(), 6000);
    assert_eq!(Torrent::from_value(decode(b"le").unwrap()).err(), Some(SchemaError::NotADictionary));
}

#[test]
fn knows_when_the_size_does_not_fit() {
    let input = b"d4:infod5:filesld6:lengthi9223372036854775807e4:pathl1:aeed6:lengthi1e4:pathl1:beee12:piece lengthi1e6:pieces0:ee";
    let torrent = Torrent::from_buf(input).unwrap();
    assert_eq!(torrent.num_files(), 2);
    assert!(!torrent.size_fits());
}

#[test]
fn spells_the_keys() {
    assert_eq!(Field::Announce.as_str(), "announce");
    assert_eq!(Field::AnnounceList.as_bytes(), b"announce-list");
    assert_eq!(Field::CreatedBy.as_str(), "created by");
    assert_eq!(Field::CreationDate.as_str(), "creation date");
    assert_eq!(Field::PieceLength.as_bytes(), b"piece length");
    assert_eq!(Field::RootHash.as_str(), "root hash");
    assert_eq!(Field::HttpSeeds.as_str(), "httpseeds");
}

#[test]
fn tells_whether_info_holds_what_a_torrent_can_be() {
    let torrent = Torrent::from_buf(&multi()).unwrap();
    assert!(torrent.info().is_valid());
    let torrent = Torrent::from_buf(SINGLE).unwrap();
    assert!(torrent.info().is_valid());
    // A piece length of zero.
    let torrent =
        Torrent::from_buf(b"d4:infod6:lengthi1e12:piece lengthi0e6:pieces0:ee").unwrap();
    assert!(!torrent.info().is_valid());
    // Pieces that are no whole hashes.
    let torrent =
        Torrent::from_buf(b"d4:infod6:lengthi1e12:piece lengthi1e6:pieces3:abcee").unwrap();
    assert!(!torrent.info().is_valid());
    // A negative length.
    let torrent =
        Torrent::from_buf(b"d4:infod6:lengthi-1e12:piece lengthi1e6:pieces0:ee").unwrap();
    assert!(!torrent.info().is_valid());
    let torrent = Torrent::from_buf(
        b"d4:infod5:filesld6:lengthi-1e4:pathl1:aeee12:piece lengthi1e6:pieces0:ee",
    )
    .unwrap();
    assert!(!torrent.info().is_valid());
    // Neither a length nor a file list.
    assert!(!Torrent::default().info().is_valid());
}
