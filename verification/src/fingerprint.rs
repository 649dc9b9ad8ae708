//! The info hash: the SHA-1 digest of the canonical encoding of a
//! descriptor's `info` dictionary. Where the descriptor was read from a
//! document the dictionary is taken as it was decoded, so that keys the
//! schema does not know are hashed too; where it was built by hand, the
//! dictionary is the one that its fields stand for.

use crate::decode::decode_spec;
use crate::encode::{encode, encode_spec};
use crate::field::{ascii_bytes, Field};
use crate::metadata::{torrent_of_bytes, Torrent};
use crate::schema::{
    bare_info, descriptor_of, info_document, info_entries, lemma_ascii_text_document,
    theorem_single_file_descriptor, torrent_model, InfoModel, TorrentModel,
};
use crate::value::{Document, Value};
use sha1::{Digest, Sha1};
use vstd::prelude::*;
use vstd::string::StringExecFns;
use vstd::utf8::is_ascii_chars;

verus! {

/// Why a descriptor has no info hash.
#[derive(Clone, Copy, Debug, PartialEq, Eq, Structural)]
pub enum FingerprintError {
    /// The encoding is longer than SHA-1 is defined for.
    TooLong,
}

impl FingerprintError {
    /// The description of the error.
    pub open spec fn message_spec(self) -> Seq<char> {
        match self {
            FingerprintError::TooLong => "the encoded `info` dictionary is too long to hash"@,
        }
    }

    /// Describes the error.
    pub fn message(&self) -> (text: String)
        ensures
            text@ == self.message_spec(),
    {
        match self {
            FingerprintError::TooLong => String::from_str(
                "the encoded `info` dictionary is too long to hash",
            ),
        }
    }
}

/// The SHA-1 digest of a message.
pub uninterp spec fn sha1_of(message: Seq<u8>) -> Seq<u8>;

/// SHA-1 hashes messages shorter than this many bytes: their length in bits
/// fits 64 bits.
pub const SHA1_LIMIT: u64 = 0x2000_0000_0000_0000;

/// `Sha1::digest` of the `sha1` crate, its output copied into a vector.
/// The digest depends on the message alone and is 20 bytes long. The crate
/// counts the message's bits in 64 bits, which the bound keeps from
/// overflowing.
#[verifier::external_body]
fn sha1_digest(message: &[u8]) -> (digest: Vec<u8>)
    requires
        message@.len() < SHA1_LIMIT,
    ensures
        digest@ == sha1_of(message@),
        digest@.len() == 20,
{
    Sha1::digest(message).to_vec()
}

/// The digest of the canonical encoding of a document, where SHA-1 is
/// defined for it.
pub open spec fn digest_of(doc: Document) -> Result<Seq<u8>, FingerprintError> {
    if encode_spec(doc).len() < SHA1_LIMIT {
        Ok(sha1_of(encode_spec(doc)))
    } else {
        Err(FingerprintError::TooLong)
    }
}

/// The `info` dictionary that is hashed: the decoded one where the
/// descriptor holds it, else the one that its fields stand for.
pub open spec fn hashed_info(torrent: TorrentModel) -> Document {
    match torrent.raw_info {
        Some(info) => info,
        None => info_document(torrent.info),
    }
}

/// The info hash of a descriptor.
pub open spec fn fingerprint(torrent: TorrentModel) -> Result<Seq<u8>, FingerprintError> {
    digest_of(hashed_info(torrent))
}

fn hash_value(info: &Value) -> (hash: Result<Vec<u8>, FingerprintError>)
    ensures
        match digest_of(info@) {
            Ok(digest) => hash is Ok && hash->Ok_0@ == digest && digest.len() == 20,
            Err(error) => hash is Err && hash->Err_0 == error,
        },
{
    let encoded = encode(info);
    if encoded.len() as u64 >= SHA1_LIMIT {
        Err(FingerprintError::TooLong)
    } else {
        Ok(sha1_digest(encoded.as_slice()))
    }
}

impl Torrent {
    /// Calculate SHA-1 info hash.
    pub fn info_hash(&self) -> (hash: Result<Vec<u8>, FingerprintError>)
        ensures
            match fingerprint(self@) {
                Ok(digest) => hash is Ok && hash->Ok_0@ == digest && digest.len() == 20,
                Err(error) => hash is Err && hash->Err_0 == error,
            },
    {
        match &self.raw_info {
            Some(info) => hash_value(info),
            None => {
                let info = self.info.to_value();
                hash_value(&info)
            },
        }
    }
}

/// The info hash of a descriptor read from bytes is the digest of the
/// canonical encoding of the `info` document that the bytes hold. It
/// depends on nothing else: not on the other keys, and not on the order in
/// which the bytes, or the memory, hold the entries of any dictionary.
pub proof fn theorem_fingerprint_determined(bytes: Seq<u8>)
    requires
        torrent_of_bytes(bytes) is Ok,
    ensures
        decode_spec(bytes) is Ok,
        decode_spec(bytes)->Ok_0 is Dict,
        fingerprint(torrent_of_bytes(bytes)->Ok_0) == digest_of(
            decode_spec(bytes)->Ok_0->Dict_0[Field::Info.key()],
        ),
{
}

/// Descriptors whose `info` fields are the same and that hold no decoded
/// `info` dictionary have the same info hash, whatever else they hold.
pub proof fn theorem_fingerprint_of_fields(a: TorrentModel, b: TorrentModel)
    requires
        a.info == b.info,
        a.raw_info is None,
        b.raw_info is None,
    ensures
        fingerprint(a) == fingerprint(b),
        fingerprint(a) == digest_of(info_document(a.info)),
{
}

/// A descriptor read from a document whose `info` dictionary holds a
/// length, a piece length and the piece hashes, and nothing else, has the
/// info hash of a descriptor built by hand with the same fields: the
/// decoded dictionary is the one that the fields stand for.
pub proof fn theorem_fingerprint_of_read_fields(length: i64, piece_length: i64, pieces: Seq<u8>)
    ensures
        ({
            let info = bare_info(piece_length, pieces).insert(
                Field::Length.key(),
                Document::Int(length),
            );
            let read = torrent_model(descriptor_of(info));
            &&& read is Ok
            &&& read->Ok_0.raw_info == Some(Document::Dict(info))
            &&& info_document(read->Ok_0.info) == Document::Dict(info)
            &&& fingerprint(read->Ok_0) == digest_of(info_document(read->Ok_0.info))
        }),
{
    theorem_single_file_descriptor(length, piece_length, pieces);
    assert forall|a: Field, b: Field| a != b implies #[trigger] a.key() != #[trigger] b.key() by {
        a.lemma_keys_differ(b);
    }
    let info = bare_info(piece_length, pieces).insert(Field::Length.key(), Document::Int(length));
    let read = torrent_model(descriptor_of(info))->Ok_0;
    assert(info_entries(read.info) =~= info);
}

/// A descriptor built by hand with a length, a name of ASCII characters, a
/// piece length and piece hashes, and no other field of `info`, has the
/// info hash of the dictionary with just these four entries, the name as
/// the bytes of its characters.
pub proof fn theorem_fingerprint_of_named_file(
    torrent: TorrentModel,
    length: i64,
    name: Seq<char>,
    piece_length: i64,
    pieces: Seq<u8>,
)
    requires
        torrent.raw_info is None,
        torrent.info == (InfoModel {
            files: None,
            length: Some(length),
            md5sum: None,
            name: Some(name),
            path: None,
            piece_length,
            pieces,
            private: None,
            root_hash: None,
        }),
        is_ascii_chars(name),
    ensures
        fingerprint(torrent) == digest_of(
            Document::Dict(
                Map::empty().insert(Field::Length.key(), Document::Int(length)).insert(
                    Field::Name.key(),
                    Document::Bytes(ascii_bytes(name)),
                ).insert(Field::PieceLength.key(), Document::Int(piece_length)).insert(
                    Field::Pieces.key(),
                    Document::Bytes(pieces),
                ),
            ),
        ),
{
    lemma_ascii_text_document(name);
}

} // verus!
