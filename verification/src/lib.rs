//! Reading torrent descriptors.
//!
//! A descriptor is a bencoded document. [`decode`] reads bytes as a
//! [`Value`] and [`encode`] writes a value in canonical form, its
//! dictionary keys in ascending byte order; `laws` proves that the two undo
//! each other. [`Torrent::from_buf`] reads a document as a descriptor by
//! the schema in `schema`, and [`Torrent::info_hash`] gives the SHA-1
//! digest of the canonical encoding of its `info` dictionary: the decoded
//! one, unknown keys included, or for a descriptor built by hand the one
//! that its fields stand for. [`dump`] lays out any document as lines for
//! display, and the remaining modules decide what a listing of torrents
//! shows.
//!
//! Contracts are stated over mathematical models: a value stands for a
//! `Document`, a descriptor for a `TorrentModel`. Three results of other
//! libraries are named without being defined: the lossy text of a byte
//! string, the SHA-1 digest of a message and the text of a date.

pub mod bytes;
pub mod completion;
pub mod dates;
pub mod decimal;
pub mod decode;
pub mod encode;
pub mod equality;
pub mod field;
pub mod fingerprint;
pub mod hex;
pub mod laws;
pub mod listing;
pub mod metadata;
pub mod paths;
pub mod render;
pub mod schema;
pub mod summary;
pub mod text;
pub mod value;

pub use crate::completion::{get_shell_completion_dir, Place, Shell, Step};
pub use crate::dates::format_creation_date;
pub use crate::decode::{decode, DecodeError, DecodeErrorKind};
pub use crate::encode::encode;
pub use crate::field::Field;
pub use crate::fingerprint::FingerprintError;
pub use crate::hex::to_hex;
pub use crate::listing::{digit_count, order_by_size, total_of, FileLine};
pub use crate::metadata::{File, Info, Node, Torrent, TorrentError};
pub use crate::paths::{get_relative_path_or_filename, path_to_string, strip_replacement};
pub use crate::render::{dump, render, KeySummary, Line, LineKind, Shape};
pub use crate::schema::SchemaError;
pub use crate::summary::{padding, InfoLine, InfoValue};
pub use crate::value::{Dict, Value};
