//! The keys of a torrent descriptor.

use vstd::prelude::*;
use vstd::string::StringSliceAdditionalSpecFns;

verus! {

/// A key that the schema knows, at the top of a descriptor, in its `info`
/// dictionary or in an entry of its file list.
#[derive(Clone, Copy, Debug, PartialEq, Eq, Structural)]
pub enum Field {
    Announce,
    AnnounceList,
    Comment,
    CreatedBy,
    CreationDate,
    Encoding,
    Info,
    Nodes,
    HttpSeeds,
    Files,
    Length,
    Md5sum,
    Name,
    Path,
    PieceLength,
    Pieces,
    Private,
    RootHash,
}

/// The bytes of a text of ASCII characters.
pub open spec fn ascii_bytes(text: Seq<char>) -> Seq<u8> {
    Seq::new(text.len(), |i: int| text[i] as u8)
}

impl Field {
    /// The key as it is spelled in a descriptor.
    pub open spec fn name(self) -> Seq<char> {
        match self {
            Field::Announce => "announce"@,
            Field::AnnounceList => "announce-list"@,
            Field::Comment => "comment"@,
            Field::CreatedBy => "created by"@,
            Field::CreationDate => "creation date"@,
            Field::Encoding => "encoding"@,
            Field::Info => "info"@,
            Field::Nodes => "nodes"@,
            Field::HttpSeeds => "httpseeds"@,
            Field::Files => "files"@,
            Field::Length => "length"@,
            Field::Md5sum => "md5sum"@,
            Field::Name => "name"@,
            Field::Path => "path"@,
            Field::PieceLength => "piece length"@,
            Field::Pieces => "pieces"@,
            Field::Private => "private"@,
            Field::RootHash => "root hash"@,
        }
    }

    /// The bytes of the key.
    pub open spec fn key(self) -> Seq<u8> {
        ascii_bytes(self.name())
    }

    /// The length of the key and its first byte, which tell the keys
    /// apart.
    pub proof fn lemma_key_shape(self)
        ensures
            self.key().len() == self.name().len(),
            self.key().len() > 0,
            self.key()[0] == self.name()[0] as u8,
            self.name().len() == match self {
                Field::Info | Field::Name | Field::Path => 4nat,
                Field::Nodes | Field::Files => 5,
                Field::Length | Field::Md5sum | Field::Pieces => 6,
                Field::Comment | Field::Private => 7,
                Field::Announce | Field::Encoding => 8,
                Field::HttpSeeds | Field::RootHash => 9,
                Field::CreatedBy => 10,
                Field::PieceLength => 12,
                Field::AnnounceList | Field::CreationDate => 13,
            },
            self.name()[0] == match self {
                Field::Announce | Field::AnnounceList => 'a',
                Field::Comment | Field::CreatedBy | Field::CreationDate => 'c',
                Field::Encoding => 'e',
                Field::Files => 'f',
                Field::HttpSeeds => 'h',
                Field::Info => 'i',
                Field::Length => 'l',
                Field::Md5sum => 'm',
                Field::Name | Field::Nodes => 'n',
                Field::Path | Field::PieceLength | Field::Pieces | Field::Private => 'p',
                Field::RootHash => 'r',
            },
    {
        reveal_strlit("announce");
        reveal_strlit("announce-list");
        reveal_strlit("comment");
        reveal_strlit("created by");
        reveal_strlit("creation date");
        reveal_strlit("encoding");
        reveal_strlit("info");
        reveal_strlit("nodes");
        reveal_strlit("httpseeds");
        reveal_strlit("files");
        reveal_strlit("length");
        reveal_strlit("md5sum");
        reveal_strlit("name");
        reveal_strlit("path");
        reveal_strlit("piece length");
        reveal_strlit("pieces");
        reveal_strlit("private");
        reveal_strlit("root hash");
    }

    /// Two keys of the schema are never spelled alike.
    pub proof fn lemma_keys_differ(self, other: Field)
        requires
            self != other,
        ensures
            self.key() != other.key(),
    {
        self.lemma_key_shape();
        other.lemma_key_shape();
    }

    /// The key as text.
    pub fn as_str(self) -> (text: &'static str)
        ensures
            text@ == self.name(),
            text.is_ascii(),
    {
        proof {
            reveal_strlit("announce");
            reveal_strlit("announce-list");
            reveal_strlit("comment");
            reveal_strlit("created by");
            reveal_strlit("creation date");
            reveal_strlit("encoding");
            reveal_strlit("info");
            reveal_strlit("nodes");
            reveal_strlit("httpseeds");
            reveal_strlit("files");
            reveal_strlit("length");
            reveal_strlit("md5sum");
            reveal_strlit("name");
            reveal_strlit("path");
            reveal_strlit("piece length");
            reveal_strlit("pieces");
            reveal_strlit("private");
            reveal_strlit("root hash");
        }
        match self {
            Field::Announce => "announce",
            Field::AnnounceList => "announce-list",
            Field::Comment => "comment",
            Field::CreatedBy => "created by",
            Field::CreationDate => "creation date",
            Field::Encoding => "encoding",
            Field::Info => "info",
            Field::Nodes => "nodes",
            Field::HttpSeeds => "httpseeds",
            Field::Files => "files",
            Field::Length => "length",
            Field::Md5sum => "md5sum",
            Field::Name => "name",
            Field::Path => "path",
            Field::PieceLength => "piece length",
            Field::Pieces => "pieces",
            Field::Private => "private",
            Field::RootHash => "root hash",
        }
    }

    /// The key as bytes.
    pub fn as_bytes(self) -> (key: &'static [u8])
        ensures
            key@ == self.key(),
    {
        let text = self.as_str();
        proof {
            vstd::string::is_ascii_spec_bytes(text);
            assert(text.spec_bytes() =~= self.key());
        }
        text.as_bytes()
    }
}

} // verus!
