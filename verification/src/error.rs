//! What can go wrong while a document is decoded and while a torrent record
//! is read out of it.

use vstd::prelude::*;
use vstd::string::StringExecFns;

verus! {

/// The input is not one well-formed Bencode element.
#[derive(Clone, Copy, Debug, PartialEq, Eq, Structural)]
pub enum DecodeError {
    /// The input is empty: there is no byte for an element to start with.
    UnexpectedEnd,
    /// The first byte starts none of the four kinds of element.
    InvalidTag,
    /// A byte string has no `:` after its length.
    MissingSeparator,
    /// The length of a byte string is not one or more digits, without a
    /// sign, that denote a number that fits `usize`.
    InvalidLength,
    /// A byte string declares more bytes than the input still holds.
    TruncatedString,
    /// An integer is not closed by `e`, or what stands before the `e` is no
    /// signed numeral that fits 64 bits.
    InvalidInteger,
    /// The input ends inside a list, where an element or `e` has to follow.
    UnterminatedList,
    /// The input ends inside a dictionary: where a key or `e` has to follow,
    /// or between a key and its value.
    UnterminatedDictionary,
}

/// A place in the metainfo schema.
#[derive(Clone, Copy, Debug, PartialEq, Eq, Structural)]
pub enum Field {
    /// `announce` in the root dictionary.
    Announce,
    /// `info` in the root dictionary.
    Info,
    /// `name` in the info dictionary.
    Name,
    /// `piece length` in the info dictionary.
    PieceLength,
    /// `pieces` in the info dictionary.
    Pieces,
    /// `length` in the info dictionary.
    Length,
    /// `files` in the info dictionary.
    Files,
    /// An element of the `files` list.
    FileEntry,
    /// `length` in an element of the `files` list.
    FileLength,
    /// `path` in an element of the `files` list.
    FilePath,
    /// An element of a `path` list.
    PathSegment,
}

/// A decoded value does not follow the metainfo schema.
#[derive(Clone, Copy, Debug, PartialEq, Eq, Structural)]
pub enum ProjectError {
    /// The dictionary has no such key.
    Missing(Field),
    /// The value is of another kind than the schema asks for.
    WrongType(Field),
    /// The byte string is not valid UTF-8.
    InvalidUtf8(Field),
    /// The list is empty where the schema asks for at least one element.
    Empty(Field),
}

/// A byte buffer is not a torrent file.
#[derive(Clone, Copy, Debug, PartialEq, Eq, Structural)]
pub enum TorrentError {
    /// The buffer does not start with a well-formed element.
    Decode(DecodeError),
    /// The root element is no dictionary.
    RootNotDictionary,
    /// Bytes follow the root dictionary.
    TrailingData,
    /// The root dictionary does not follow the schema.
    Project(ProjectError),
}

impl DecodeError {
    /// The words that describe the failure.
    pub open spec fn text(self) -> Seq<char> {
        match self {
            DecodeError::UnexpectedEnd => "Unexpected end of input"@,
            DecodeError::InvalidTag => "Invalid bencode data format"@,
            DecodeError::MissingSeparator => "Invalid BString format"@,
            DecodeError::InvalidLength => "Failed to parse len"@,
            DecodeError::TruncatedString => "Missing some String bytes"@,
            DecodeError::InvalidInteger => "Failed to parse num"@,
            DecodeError::UnterminatedList => "Unterminated list"@,
            DecodeError::UnterminatedDictionary => "Unterminated Dictionary"@,
        }
    }

    /// Describes the failure for a reader.
    pub fn message(&self) -> (message: String)
        ensures
            message@ == self.text(),
    {
        match self {
            DecodeError::UnexpectedEnd => String::from_str("Unexpected end of input"),
            DecodeError::InvalidTag => String::from_str("Invalid bencode data format"),
            DecodeError::MissingSeparator => String::from_str("Invalid BString format"),
            DecodeError::InvalidLength => String::from_str("Failed to parse len"),
            DecodeError::TruncatedString => String::from_str("Missing some String bytes"),
            DecodeError::InvalidInteger => String::from_str("Failed to parse num"),
            DecodeError::UnterminatedList => String::from_str("Unterminated list"),
            DecodeError::UnterminatedDictionary => String::from_str("Unterminated Dictionary"),
        }
    }
}

impl Field {
    /// The name of the place, as messages give it.
    pub open spec fn text(self) -> Seq<char> {
        match self {
            Field::Announce => "announce url"@,
            Field::Info => "torrent info field"@,
            Field::Name => "info name"@,
            Field::PieceLength => "info piece length"@,
            Field::Pieces => "pieces info"@,
            Field::Length => "info length"@,
            Field::Files => "info files"@,
            Field::FileEntry => "fileinfo"@,
            Field::FileLength => "fileinfo length"@,
            Field::FilePath => "fileinfo path"@,
            Field::PathSegment => "path item"@,
        }
    }

    /// The name of the place, as messages give it.
    pub fn name(&self) -> (name: &'static str)
        ensures
            name@ == self.text(),
    {
        match self {
            Field::Announce => "announce url",
            Field::Info => "torrent info field",
            Field::Name => "info name",
            Field::PieceLength => "info piece length",
            Field::Pieces => "pieces info",
            Field::Length => "info length",
            Field::Files => "info files",
            Field::FileEntry => "fileinfo",
            Field::FileLength => "fileinfo length",
            Field::FilePath => "fileinfo path",
            Field::PathSegment => "path item",
        }
    }
}

impl ProjectError {
    /// The place in the schema at which the value failed.
    pub open spec fn spec_field(&self) -> Field {
        match *self {
            ProjectError::Missing(field) => field,
            ProjectError::WrongType(field) => field,
            ProjectError::InvalidUtf8(field) => field,
            ProjectError::Empty(field) => field,
        }
    }

    /// The place in the schema at which the value failed.
    #[verifier::when_used_as_spec(spec_field)]
    pub fn field(&self) -> (field: Field)
        ensures
            field == self.spec_field(),
    {
        match self {
            ProjectError::Missing(field) => *field,
            ProjectError::WrongType(field) => *field,
            ProjectError::InvalidUtf8(field) => *field,
            ProjectError::Empty(field) => *field,
        }
    }

    /// The words that describe the failure: what was expected, and where.
    pub open spec fn text(self) -> Seq<char> {
        match self {
            ProjectError::Missing(field) => "Missing "@ + field.text(),
            ProjectError::WrongType(field) => "Invalid "@ + field.text(),
            ProjectError::InvalidUtf8(field) => "Invalid utf-8 bytes in "@ + field.text(),
            ProjectError::Empty(field) => "Empty "@ + field.text(),
        }
    }

    /// Describes the failure for a reader.
    pub fn message(&self) -> (message: String)
        ensures
            message@ == self.text(),
    {
        match self {
            ProjectError::Missing(field) => String::from_str("Missing ").concat(field.name()),
            ProjectError::WrongType(field) => String::from_str("Invalid ").concat(field.name()),
            ProjectError::InvalidUtf8(field) => String::from_str("Invalid utf-8 bytes in ").concat(
                field.name(),
            ),
            ProjectError::Empty(field) => String::from_str("Empty ").concat(field.name()),
        }
    }
}

impl TorrentError {
    /// The words that describe the failure.
    pub open spec fn text(self) -> Seq<char> {
        match self {
            TorrentError::Decode(e) => e.text(),
            TorrentError::RootNotDictionary => "Expected root element to be a BDictionary"@,
            TorrentError::TrailingData => "Trailing bytes after root element"@,
            TorrentError::Project(e) => e.text(),
        }
    }

    /// Describes the failure for a reader.
    pub fn message(&self) -> (message: String)
        ensures
            message@ == self.text(),
    {
        match self {
            TorrentError::Decode(e) => e.message(),
            TorrentError::RootNotDictionary => String::from_str(
                "Expected root element to be a BDictionary",
            ),
            TorrentError::TrailingData => String::from_str("Trailing bytes after root element"),
            TorrentError::Project(e) => e.message(),
        }
    }
}

} // verus!
