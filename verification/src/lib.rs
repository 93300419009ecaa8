//! A decoder for Bencode, the serialization format of BitTorrent metainfo
//! files, and the reading of a torrent record out of a decoded document.
//!
//! [`parse_bencode`] turns the front of a byte buffer into a value tree and
//! hands back the bytes that follow it. [`parse_torrent`] decodes a whole
//! buffer and reads the record that its root dictionary describes. What each
//! of them returns is fixed, for every input, by a spec function over the
//! bytes: [`decode::decode_value`] and [`metainfo::torrent_of`].
//!
//! Both read the numerals of integers leniently. [`parse_bencode_with`] and
//! [`parse_torrent_with`] take a [`NumeralMode`], and in strict mode accept
//! an integer only in canonical form.

pub mod bytes;
pub mod decode;
pub mod error;
pub mod metainfo;
pub mod number;
pub mod text;
pub mod value;

pub use decode::{
    parse_bencode, parse_bencode_dictionary, parse_bencode_dictionary_with, parse_bencode_integer,
    parse_bencode_integer_with, parse_bencode_list, parse_bencode_list_with,
    parse_bencode_string, parse_bencode_with,
};
pub use error::{DecodeError, Field, ProjectError, TorrentError};
pub use metainfo::{
    parse_torrent, parse_torrent_info, parse_torrent_with, project, FilesInfo, Info, Torrent,
};
pub use number::NumeralMode;
pub use value::{BDictionary, BInteger, BList, BString, BencodeValue};
