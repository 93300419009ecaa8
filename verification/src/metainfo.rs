//! The torrent record, and how it is read out of a decoded dictionary.
//!
//! The schema is stated once, as spec functions over the mathematical value
//! of the dictionary. They fix which fields are read, in which order, and
//! which failure is reported where several apply: the first one in that
//! order.

use crate::bytes::bytes_equal;
use crate::decode::{decode_value, parse_bencode_with};
use crate::error::{Field, ProjectError, TorrentError};
use crate::number::NumeralMode;
use crate::text::{ascii_bytes, name_bytes, string_from_utf8};
use crate::value::{BDictionary, BList, BString, Bencode, BencodeValue};
use vstd::arithmetic::div_mod::{
    lemma_fundamental_div_mod, lemma_fundamental_div_mod_converse, lemma_small_mod,
};
use vstd::prelude::*;
use vstd::slice::slice_to_vec;
use vstd::utf8::{decode_utf8, is_ascii_chars, valid_utf8};

verus! {

/// One file of a multi-file torrent. Two records are equal, by `==`, exactly
/// when they hold the same length and the same path. A record that was
/// read out of a document has at least one segment in its path.
#[derive(Debug)]
pub struct FilesInfo {
    /// The length of the file, in bytes.
    pub length: usize,
    /// The names of the directories that lead to the file, and last the name
    /// of the file.
    pub path: Vec<String>,
}

/// The metadata of a torrent. It describes either a single file, by its
/// `length`, or a directory, by its `files`: never both and never neither.
/// Two records are equal, by `==`, exactly when all that they hold is equal.
#[derive(Debug)]
pub struct Info {
    name: String,
    piece_length: usize,
    pieces: Vec<u8>,
    length: Option<usize>,
    files: Option<Vec<FilesInfo>>,
}

/// A metainfo file. Two records are equal, by `==`, exactly when they have
/// the same tracker and equal metadata.
#[derive(Debug)]
pub struct Torrent {
    /// The URL of the tracker.
    pub announce: String,
    /// The metadata.
    pub info: Info,
}

/// The mathematical value of a [`FilesInfo`].
pub struct FilesInfoView {
    pub length: usize,
    pub path: Seq<Seq<char>>,
}

/// The mathematical value of an [`Info`].
pub struct InfoView {
    pub name: Seq<char>,
    pub piece_length: usize,
    pub pieces: Seq<u8>,
    pub length: Option<usize>,
    pub files: Option<Seq<FilesInfoView>>,
}

/// The mathematical value of a [`Torrent`].
pub struct TorrentView {
    pub announce: Seq<char>,
    pub info: InfoView,
}

/// The texts that a sequence of strings holds.
pub open spec fn texts(strings: Seq<String>) -> Seq<Seq<char>> {
    Seq::new(strings.len(), |i: int| strings[i]@)
}

/// The values of a sequence of file records.
pub open spec fn file_views(files: Seq<FilesInfo>) -> Seq<FilesInfoView> {
    Seq::new(files.len(), |i: int| files[i]@)
}

impl View for FilesInfo {
    type V = FilesInfoView;

    open spec fn view(&self) -> FilesInfoView {
        FilesInfoView { length: self.length, path: texts(self.path@) }
    }
}

impl View for Info {
    type V = InfoView;

    closed spec fn view(&self) -> InfoView {
        InfoView {
            name: self.name@,
            piece_length: self.piece_length,
            pieces: self.pieces@,
            length: self.length,
            files: match self.files {
                Some(files) => Some(file_views(files@)),
                None => None,
            },
        }
    }
}

impl View for Torrent {
    type V = TorrentView;

    open spec fn view(&self) -> TorrentView {
        TorrentView { announce: self.announce@, info: self.info@ }
    }
}

impl Clone for FilesInfo {
    fn clone(&self) -> (copy: Self)
        ensures
            copy@ == self@,
    {
        let mut path: Vec<String> = Vec::new();
        let mut i: usize = 0;
        while i < self.path.len()
            invariant
                i <= self.path@.len(),
                path@.len() == i,
                forall|j: int| 0 <= j < i ==> path@[j]@ == self.path@[j]@,
            decreases self.path@.len() - i,
        {
            path.push(self.path[i].clone());
            i += 1;
        }
        assert(texts(path@) =~= texts(self.path@));
        FilesInfo { length: self.length, path }
    }
}

/// Whether two lists of strings hold the same texts.
fn same_texts(a: &Vec<String>, b: &Vec<String>) -> (same: bool)
    ensures
        same == (texts(a@) == texts(b@)),
{
    if a.len() != b.len() {
        assert(texts(a@).len() != texts(b@).len());
        return false;
    }
    let mut i: usize = 0;
    while i < a.len()
        invariant
            i <= a@.len(),
            a@.len() == b@.len(),
            forall|j: int| 0 <= j < i ==> a@[j]@ == b@[j]@,
        decreases a@.len() - i,
    {
        if a[i] != b[i] {
            assert(texts(a@)[i as int] != texts(b@)[i as int]);
            return false;
        }
        i += 1;
    }
    assert(texts(a@) =~= texts(b@));
    true
}

/// Whether two lists of file records hold the same records.
fn same_files(a: &Vec<FilesInfo>, b: &Vec<FilesInfo>) -> (same: bool)
    ensures
        same == (file_views(a@) == file_views(b@)),
{
    if a.len() != b.len() {
        assert(file_views(a@).len() != file_views(b@).len());
        return false;
    }
    let mut i: usize = 0;
    while i < a.len()
        invariant
            i <= a@.len(),
            a@.len() == b@.len(),
            forall|j: int| 0 <= j < i ==> a@[j]@ == b@[j]@,
        decreases a@.len() - i,
    {
        if a[i].length != b[i].length || !same_texts(&a[i].path, &b[i].path) {
            assert(file_views(a@)[i as int] != file_views(b@)[i as int]);
            return false;
        }
        i += 1;
    }
    assert(file_views(a@) =~= file_views(b@));
    true
}

impl PartialEq for FilesInfo {
    fn eq(&self, other: &Self) -> (same: bool) {
        self.length == other.length && same_texts(&self.path, &other.path)
    }
}

impl vstd::std_specs::cmp::PartialEqSpecImpl for FilesInfo {
    open spec fn obeys_eq_spec() -> bool {
        true
    }

    open spec fn eq_spec(&self, other: &Self) -> bool {
        self@ == other@
    }
}

impl PartialEq for Info {
    fn eq(&self, other: &Self) -> (same: bool) {
        proof {
            use_type_invariant(self);
            use_type_invariant(other);
        }
        let same_layout = match (&self.length, &self.files, &other.length, &other.files) {
            (Some(a), _, Some(b), _) => *a == *b,
            (_, Some(a), _, Some(b)) => same_files(a, b),
            _ => false,
        };
        same_layout && self.name == other.name && self.piece_length == other.piece_length
            && bytes_equal(self.pieces.as_slice(), other.pieces.as_slice())
    }
}

impl vstd::std_specs::cmp::PartialEqSpecImpl for Info {
    open spec fn obeys_eq_spec() -> bool {
        true
    }

    open spec fn eq_spec(&self, other: &Self) -> bool {
        self@ == other@
    }
}

impl PartialEq for Torrent {
    fn eq(&self, other: &Self) -> (same: bool) {
        self.announce == other.announce && self.info == other.info
    }
}

impl vstd::std_specs::cmp::PartialEqSpecImpl for Torrent {
    open spec fn obeys_eq_spec() -> bool {
        true
    }

    open spec fn eq_spec(&self, other: &Self) -> bool {
        self@ == other@
    }
}

impl Info {
    #[verifier::type_invariant]
    spec fn one_layout(self) -> bool {
        self.length is Some <==> self.files is None
    }

    /// The metadata of a torrent that holds one file of `length` bytes.
    pub fn single_file(name: String, piece_length: usize, pieces: Vec<u8>, length: usize) -> (info:
        Info)
        ensures
            info@ == (InfoView {
                name: name@,
                piece_length,
                pieces: pieces@,
                length: Some(length),
                files: None,
            }),
    {
        Info { name, piece_length, pieces, length: Some(length), files: None }
    }

    /// The metadata of a torrent that holds the directory `name` with `files`
    /// in it.
    pub fn multi_file(
        name: String,
        piece_length: usize,
        pieces: Vec<u8>,
        files: Vec<FilesInfo>,
    ) -> (info: Info)
        ensures
            info@ == (InfoView {
                name: name@,
                piece_length,
                pieces: pieces@,
                length: None,
                files: Some(file_views(files@)),
            }),
    {
        Info { name, piece_length, pieces, length: None, files: Some(files) }
    }

    /// The name of the file, or of the directory that holds the files.
    pub fn name(&self) -> (name: &String)
        ensures
            name@ == self@.name,
    {
        &self.name
    }

    /// The number of bytes in each piece.
    pub fn piece_length(&self) -> (piece_length: usize)
        ensures
            piece_length == self@.piece_length,
    {
        self.piece_length
    }

    /// The hashes of the pieces, one after the other.
    pub fn pieces(&self) -> (pieces: &Vec<u8>)
        ensures
            pieces@ == self@.pieces,
    {
        &self.pieces
    }

    /// The length of the file, where the torrent holds a single file.
    pub fn length(&self) -> (length: Option<usize>)
        ensures
            length == self@.length,
            length is Some <==> self@.files is None,
    {
        proof {
            use_type_invariant(self);
        }
        self.length
    }

    /// The files, where the torrent holds a directory.
    pub fn files(&self) -> (files: Option<&Vec<FilesInfo>>)
        ensures
            match files {
                Some(list) => self@.files == Some(file_views(list@)),
                None => self@.files is None,
            },
            files is Some <==> self@.length is None,
    {
        proof {
            use_type_invariant(self);
        }
        self.files.as_ref()
    }
}

/// The count that an integer of a document is taken as: the integer modulo
/// the number of values of `usize`. That is the integer itself where it is
/// not negative and fits; a negative one wraps around, as in a cast by `as`,
/// so that -1 gives `usize::MAX`.
pub open spec fn count_of(n: i64) -> usize {
    ((n as int) % (usize::MAX as int + 1)) as usize
}

/// Takes an integer of a document as a count.
fn to_count(n: i64) -> (count: usize)
    ensures
        count == count_of(n),
        0 <= n <= usize::MAX ==> count == n,
{
    let modulus: u128 = usize::MAX as u128 + 1;
    if n >= 0 {
        proof {
            if n <= usize::MAX {
                lemma_small_mod(n as nat, modulus as nat);
            }
        }
        ((n as u128) % modulus) as usize
    } else {
        let size: u128 = (-(n as i128)) as u128;
        let over: u128 = size % modulus;
        proof {
            let m = modulus as int;
            let q = size as int / m;
            lemma_fundamental_div_mod(size as int, m);
            if over == 0 {
                assert(n as int == (-q) * m + 0) by (nonlinear_arith)
                    requires
                        n as int == -(size as int),
                        size as int == m * q,
                ;
                lemma_fundamental_div_mod_converse(n as int, m, -q, 0);
            } else {
                assert(n as int == (-q - 1) * m + (m - over)) by (nonlinear_arith)
                    requires
                        n as int == -(size as int),
                        size as int == m * q + over,
                ;
                lemma_fundamental_div_mod_converse(n as int, m, -q - 1, m - over);
            }
        }
        if over == 0 {
            0
        } else {
            (modulus - over) as usize
        }
    }
}

/// The dictionary key that an ASCII name stands for.
pub open spec fn key_of(name: &str) -> Seq<u8> {
    ascii_bytes(name@)
}

/// The text under `key`: the key has to be there, bound to a byte string
/// that is valid UTF-8.
pub open spec fn project_text(dict: Map<Seq<u8>, Bencode>, key: Seq<u8>, field: Field) -> Result<
    Seq<char>,
    ProjectError,
> {
    if !dict.dom().contains(key) {
        Err(ProjectError::Missing(field))
    } else {
        match dict[key] {
            Bencode::String(bytes) => if valid_utf8(bytes) {
                Ok(decode_utf8(bytes))
            } else {
                Err(ProjectError::InvalidUtf8(field))
            },
            _ => Err(ProjectError::WrongType(field)),
        }
    }
}

/// The integer under `key`: the key has to be there, bound to an integer.
pub open spec fn project_integer(dict: Map<Seq<u8>, Bencode>, key: Seq<u8>, field: Field) -> Result<
    i64,
    ProjectError,
> {
    if !dict.dom().contains(key) {
        Err(ProjectError::Missing(field))
    } else {
        match dict[key] {
            Bencode::Integer(n) => Ok(n),
            _ => Err(ProjectError::WrongType(field)),
        }
    }
}

/// The bytes under `key`: the key has to be there, bound to a byte string.
pub open spec fn project_bytes(dict: Map<Seq<u8>, Bencode>, key: Seq<u8>, field: Field) -> Result<
    Seq<u8>,
    ProjectError,
> {
    if !dict.dom().contains(key) {
        Err(ProjectError::Missing(field))
    } else {
        match dict[key] {
            Bencode::String(bytes) => Ok(bytes),
            _ => Err(ProjectError::WrongType(field)),
        }
    }
}

/// The list under `key`: the key has to be there, bound to a list.
pub open spec fn project_list(dict: Map<Seq<u8>, Bencode>, key: Seq<u8>, field: Field) -> Result<
    Seq<Bencode>,
    ProjectError,
> {
    if !dict.dom().contains(key) {
        Err(ProjectError::Missing(field))
    } else {
        match dict[key] {
            Bencode::List(items) => Ok(items),
            _ => Err(ProjectError::WrongType(field)),
        }
    }
}

/// One segment of a path: a byte string that is valid UTF-8.
pub open spec fn project_segment(item: Bencode) -> Result<Seq<char>, ProjectError> {
    match item {
        Bencode::String(bytes) => if valid_utf8(bytes) {
            Ok(decode_utf8(bytes))
        } else {
            Err(ProjectError::InvalidUtf8(Field::PathSegment))
        },
        _ => Err(ProjectError::WrongType(Field::PathSegment)),
    }
}

/// The segments of a path, in order; the failure of the first item that is
/// no segment.
pub open spec fn project_path(items: Seq<Bencode>) -> Result<Seq<Seq<char>>, ProjectError>
    decreases items.len(),
{
    if items.len() == 0 {
        Ok(Seq::empty())
    } else {
        match project_path(items.drop_last()) {
            Err(e) => Err(e),
            Ok(path) => match project_segment(items.last()) {
                Err(e) => Err(e),
                Ok(segment) => Ok(path.push(segment)),
            },
        }
    }
}

/// One element of `files`: a dictionary with an integer `length` and a list
/// `path` of segments, at least one, the last of which names the file. The
/// length is taken as a count by [`count_of`].
pub open spec fn project_file(entry: Bencode) -> Result<FilesInfoView, ProjectError> {
    match entry {
        Bencode::Dictionary(dict) => match project_integer(
            dict,
            key_of("length"),
            Field::FileLength,
        ) {
            Err(e) => Err(e),
            Ok(length) => match project_list(dict, key_of("path"), Field::FilePath) {
                Err(e) => Err(e),
                Ok(items) => if items.len() == 0 {
                    Err(ProjectError::Empty(Field::FilePath))
                } else {
                    match project_path(items) {
                        Err(e) => Err(e),
                        Ok(path) => Ok(FilesInfoView { length: count_of(length), path }),
                    }
                },
            },
        },
        _ => Err(ProjectError::WrongType(Field::FileEntry)),
    }
}

/// The file records of a `files` list, in order; the failure of the first
/// element that is no file record.
pub open spec fn project_files(entries: Seq<Bencode>) -> Result<Seq<FilesInfoView>, ProjectError>
    decreases entries.len(),
{
    if entries.len() == 0 {
        Ok(Seq::empty())
    } else {
        match project_files(entries.drop_last()) {
            Err(e) => Err(e),
            Ok(files) => match project_file(entries.last()) {
                Err(e) => Err(e),
                Ok(file) => Ok(files.push(file)),
            },
        }
    }
}

/// The metadata that an info dictionary holds. `name`, `piece length` and
/// `pieces` are read in this order. Then `length` decides: where the key is
/// there it has to be an integer, and `files` is not looked at; where it is
/// not, `files` has to be there. Integers are taken as counts by
/// [`count_of`].
pub open spec fn project_info(dict: Map<Seq<u8>, Bencode>) -> Result<InfoView, ProjectError> {
    match project_text(dict, key_of("name"), Field::Name) {
        Err(e) => Err(e),
        Ok(name) => match project_integer(dict, key_of("piece length"), Field::PieceLength) {
            Err(e) => Err(e),
            Ok(piece_length) => match project_bytes(dict, key_of("pieces"), Field::Pieces) {
                Err(e) => Err(e),
                Ok(pieces) => if dict.dom().contains(key_of("length")) {
                    match dict[key_of("length")] {
                        Bencode::Integer(length) => Ok(
                            InfoView {
                                name,
                                piece_length: count_of(piece_length),
                                pieces,
                                length: Some(count_of(length)),
                                files: None,
                            },
                        ),
                        _ => Err(ProjectError::WrongType(Field::Length)),
                    }
                } else {
                    match project_list(dict, key_of("files"), Field::Files) {
                        Err(e) => Err(e),
                        Ok(entries) => match project_files(entries) {
                            Err(e) => Err(e),
                            Ok(files) => Ok(
                                InfoView {
                                    name,
                                    piece_length: count_of(piece_length),
                                    pieces,
                                    length: None,
                                    files: Some(files),
                                },
                            ),
                        },
                    }
                },
            },
        },
    }
}

/// The torrent that a root dictionary holds: the text under `announce`, then
/// the metadata in the dictionary under `info`.
pub open spec fn project_torrent(dict: Map<Seq<u8>, Bencode>) -> Result<TorrentView, ProjectError> {
    match project_text(dict, key_of("announce"), Field::Announce) {
        Err(e) => Err(e),
        Ok(announce) => if !dict.dom().contains(key_of("info")) {
            Err(ProjectError::Missing(Field::Info))
        } else {
            match dict[key_of("info")] {
                Bencode::Dictionary(info) => match project_info(info) {
                    Err(e) => Err(e),
                    Ok(info) => Ok(TorrentView { announce, info }),
                },
                _ => Err(ProjectError::WrongType(Field::Info)),
            }
        },
    }
}

/// Metadata that the schema accepts describes a single file or a directory:
/// exactly one of `length` and `files` is there.
pub proof fn lemma_info_has_one_layout(dict: Map<Seq<u8>, Bencode>)
    ensures
        project_info(dict) matches Ok(info) ==> (info.length is Some <==> info.files is None),
{
}

/// A file record that the schema accepts has a path of at least one
/// segment.
pub proof fn lemma_file_has_a_path(entry: Bencode)
    ensures
        project_file(entry) matches Ok(file) ==> file.path.len() > 0,
{
    if let Bencode::Dictionary(dict) = entry {
        if let Ok(items) = project_list(dict, key_of("path"), Field::FilePath) {
            lemma_path_item_by_item(items);
        }
    }
}

/// A path is read item by item. It is accepted exactly when every item is a
/// segment, and then holds the segments in the order of the items. Else the
/// failure is that of the first item that is no segment.
pub proof fn lemma_path_item_by_item(items: Seq<Bencode>)
    ensures
        match project_path(items) {
            Ok(path) => {
                &&& path.len() == items.len()
                &&& forall|i: int|
                    0 <= i < items.len() ==> project_segment(#[trigger] items[i]) == Ok::<
                        _,
                        ProjectError,
                    >(path[i])
            },
            Err(e) => exists|i: int|
                {
                    &&& 0 <= i < items.len()
                    &&& project_segment(#[trigger] items[i]) == Err::<Seq<char>, _>(e)
                    &&& forall|j: int| 0 <= j < i ==> project_segment(#[trigger] items[j]) is Ok
                },
        },
    decreases items.len(),
{
    if items.len() > 0 {
        let front = items.drop_last();
        let last = items.len() - 1;
        lemma_path_item_by_item(front);
        assert forall|j: int| 0 <= j < last implies items[j] == front[j] by {}
        match project_path(front) {
            Ok(path) => {
                if let Err(e) = project_segment(items.last()) {
                    assert(project_segment(items[last]) == Err::<Seq<char>, _>(e));
                    assert forall|j: int| 0 <= j < last implies project_segment(
                        #[trigger] items[j],
                    ) is Ok by {
                        assert(items[j] == front[j]);
                    }
                }
            },
            Err(e) => {
                let i = choose|i: int|
                    {
                        &&& 0 <= i < front.len()
                        &&& project_segment(#[trigger] front[i]) == Err::<Seq<char>, _>(e)
                        &&& forall|j: int|
                            0 <= j < i ==> project_segment(#[trigger] front[j]) is Ok
                    };
                assert(project_segment(items[i]) == Err::<Seq<char>, _>(e));
                assert forall|j: int| 0 <= j < i implies project_segment(
                    #[trigger] items[j],
                ) is Ok by {
                    assert(items[j] == front[j]);
                }
            },
        }
    }
}

/// A `files` list is read element by element. It is accepted exactly when
/// every element is a file record, and then holds the records in the order
/// of the elements. Else the failure is that of the first element that is no
/// file record.
pub proof fn lemma_files_element_by_element(entries: Seq<Bencode>)
    ensures
        match project_files(entries) {
            Ok(files) => {
                &&& files.len() == entries.len()
                &&& forall|i: int|
                    0 <= i < entries.len() ==> project_file(#[trigger] entries[i]) == Ok::<
                        _,
                        ProjectError,
                    >(files[i])
            },
            Err(e) => exists|i: int|
                {
                    &&& 0 <= i < entries.len()
                    &&& project_file(#[trigger] entries[i]) == Err::<FilesInfoView, _>(e)
                    &&& forall|j: int| 0 <= j < i ==> project_file(#[trigger] entries[j]) is Ok
                },
        },
    decreases entries.len(),
{
    if entries.len() > 0 {
        let front = entries.drop_last();
        let last = entries.len() - 1;
        lemma_files_element_by_element(front);
        assert forall|j: int| 0 <= j < last implies entries[j] == front[j] by {}
        match project_files(front) {
            Ok(files) => {
                if let Err(e) = project_file(entries.last()) {
                    assert(project_file(entries[last]) == Err::<FilesInfoView, _>(e));
                    assert forall|j: int| 0 <= j < last implies project_file(
                        #[trigger] entries[j],
                    ) is Ok by {
                        assert(entries[j] == front[j]);
                    }
                }
            },
            Err(e) => {
                let i = choose|i: int|
                    {
                        &&& 0 <= i < front.len()
                        &&& project_file(#[trigger] front[i]) == Err::<FilesInfoView, _>(e)
                        &&& forall|j: int| 0 <= j < i ==> project_file(#[trigger] front[j]) is Ok
                    };
                assert(project_file(entries[i]) == Err::<FilesInfoView, _>(e));
                assert forall|j: int| 0 <= j < i implies project_file(
                    #[trigger] entries[j],
                ) is Ok by {
                    assert(entries[j] == front[j]);
                }
            },
        }
    }
}

/// A failure among the first items of a path is the failure of the path.
proof fn lemma_path_failure_stays(items: Seq<Bencode>, k: int)
    requires
        0 <= k <= items.len(),
        project_path(items.take(k)) is Err,
    ensures
        project_path(items) == project_path(items.take(k)),
    decreases items.len() - k,
{
    if k == items.len() {
        assert(items.take(k) =~= items);
    } else {
        assert(items.take(k + 1).drop_last() =~= items.take(k));
        lemma_path_failure_stays(items, k + 1);
    }
}

/// A failure among the first elements of `files` is the failure of the list.
proof fn lemma_files_failure_stays(entries: Seq<Bencode>, k: int)
    requires
        0 <= k <= entries.len(),
        project_files(entries.take(k)) is Err,
    ensures
        project_files(entries) == project_files(entries.take(k)),
    decreases entries.len() - k,
{
    if k == entries.len() {
        assert(entries.take(k) =~= entries);
    } else {
        assert(entries.take(k + 1).drop_last() =~= entries.take(k));
        lemma_files_failure_stays(entries, k + 1);
    }
}

/// Looks up the key that `name` stands for.
fn lookup<'d, 'a>(dict: &'d BDictionary<'a>, name: &str) -> (found: Option<&'d BencodeValue<'a>>)
    requires
        is_ascii_chars(name@),
    ensures
        match found {
            Some(value) => dict@.dom().contains(key_of(name)) && value@ == dict@[key_of(name)],
            None => !dict@.dom().contains(key_of(name)),
        },
{
    dict.get(&BString { content: name_bytes(name) })
}

/// Reads the text under the key `name`.
fn text_field(dict: &BDictionary, name: &str, field: Field) -> (text: Result<String, ProjectError>)
    requires
        is_ascii_chars(name@),
    ensures
        match text {
            Ok(s) => project_text(dict@, key_of(name), field) == Ok::<Seq<char>, ProjectError>(s@),
            Err(e) => project_text(dict@, key_of(name), field) == Err::<Seq<char>, ProjectError>(
                e,
            ),
        },
{
    match lookup(dict, name) {
        Some(BencodeValue::String(s)) => match string_from_utf8(slice_to_vec(s.content)) {
            Some(text) => Ok(text),
            None => Err(ProjectError::InvalidUtf8(field)),
        },
        Some(_) => Err(ProjectError::WrongType(field)),
        None => Err(ProjectError::Missing(field)),
    }
}

/// Reads the integer under the key `name`.
fn integer_field(dict: &BDictionary, name: &str, field: Field) -> (number: Result<
    i64,
    ProjectError,
>)
    requires
        is_ascii_chars(name@),
    ensures
        number == project_integer(dict@, key_of(name), field),
{
    match lookup(dict, name) {
        Some(BencodeValue::Integer(n)) => Ok(n.value),
        Some(_) => Err(ProjectError::WrongType(field)),
        None => Err(ProjectError::Missing(field)),
    }
}

/// Reads the list under the key `name`.
fn list_field<'d, 'a>(dict: &'d BDictionary<'a>, name: &str, field: Field) -> (list: Result<
    &'d BList<'a>,
    ProjectError,
>)
    requires
        is_ascii_chars(name@),
    ensures
        match list {
            Ok(l) => project_list(dict@, key_of(name), field) == Ok::<Seq<Bencode>, ProjectError>(
                l@,
            ),
            Err(e) => project_list(dict@, key_of(name), field) == Err::<
                Seq<Bencode>,
                ProjectError,
            >(e),
        },
{
    match lookup(dict, name) {
        Some(BencodeValue::List(l)) => Ok(l),
        Some(_) => Err(ProjectError::WrongType(field)),
        None => Err(ProjectError::Missing(field)),
    }
}

/// Reads the segments of a path.
fn parse_path(list: &BList) -> (path: Result<Vec<String>, ProjectError>)
    ensures
        match path {
            Ok(p) => project_path(list@) == Ok::<Seq<Seq<char>>, ProjectError>(texts(p@)),
            Err(e) => project_path(list@) == Err::<Seq<Seq<char>>, ProjectError>(e),
        },
{
    let mut path: Vec<String> = Vec::new();
    let mut i: usize = 0;
    assert(texts(path@) =~= Seq::<Seq<char>>::empty());
    while i < list.items.len()
        invariant
            i <= list.items@.len(),
            list@.len() == list.items@.len(),
            project_path(list@.take(i as int)) == Ok::<Seq<Seq<char>>, ProjectError>(texts(path@)),
        decreases list.items@.len() - i,
    {
        let ghost done = list@.take(i as int);
        let ghost next = list@.take(i + 1);
        assert(next.drop_last() =~= done);
        assert(next.last() == list.items@[i as int]@);
        let segment = match &list.items[i] {
            BencodeValue::String(s) => match string_from_utf8(slice_to_vec(s.content)) {
                Some(text) => Ok(text),
                None => Err(ProjectError::InvalidUtf8(Field::PathSegment)),
            },
            _ => Err(ProjectError::WrongType(Field::PathSegment)),
        };
        match segment {
            Ok(text) => {
                let ghost before = texts(path@);
                path.push(text);
                assert(texts(path@) =~= before.push(text@));
            },
            Err(e) => {
                proof {
                    lemma_path_failure_stays(list@, i + 1);
                }
                return Err(e);
            },
        }
        i += 1;
    }
    assert(list@.take(i as int) =~= list@);
    Ok(path)
}

/// Reads one element of `files`.
fn parse_file(entry: &BencodeValue) -> (file: Result<FilesInfo, ProjectError>)
    ensures
        match file {
            Ok(f) => project_file(entry@) == Ok::<FilesInfoView, ProjectError>(f@),
            Err(e) => project_file(entry@) == Err::<FilesInfoView, ProjectError>(e),
        },
{
    proof {
        reveal_strlit("length");
        reveal_strlit("path");
    }
    let dict = match entry {
        BencodeValue::Dictionary(dict) => dict,
        _ => return Err(ProjectError::WrongType(Field::FileEntry)),
    };
    let length = match integer_field(dict, "length", Field::FileLength) {
        Ok(n) => to_count(n),
        Err(e) => return Err(e),
    };
    let items = match list_field(dict, "path", Field::FilePath) {
        Ok(items) => items,
        Err(e) => return Err(e),
    };
    if items.items.len() == 0 {
        return Err(ProjectError::Empty(Field::FilePath));
    }
    match parse_path(items) {
        Ok(path) => Ok(FilesInfo { length, path }),
        Err(e) => Err(e),
    }
}

/// Reads the elements of `files`.
fn parse_files(list: &BList) -> (files: Result<Vec<FilesInfo>, ProjectError>)
    ensures
        match files {
            Ok(f) => project_files(list@) == Ok::<Seq<FilesInfoView>, ProjectError>(
                file_views(f@),
            ),
            Err(e) => project_files(list@) == Err::<Seq<FilesInfoView>, ProjectError>(e),
        },
{
    let mut files: Vec<FilesInfo> = Vec::new();
    let mut i: usize = 0;
    assert(file_views(files@) =~= Seq::<FilesInfoView>::empty());
    while i < list.items.len()
        invariant
            i <= list.items@.len(),
            list@.len() == list.items@.len(),
            project_files(list@.take(i as int)) == Ok::<Seq<FilesInfoView>, ProjectError>(
                file_views(files@),
            ),
        decreases list.items@.len() - i,
    {
        let ghost done = list@.take(i as int);
        let ghost next = list@.take(i + 1);
        assert(next.drop_last() =~= done);
        assert(next.last() == list.items@[i as int]@);
        match parse_file(&list.items[i]) {
            Ok(file) => {
                let ghost before = file_views(files@);
                let ghost value = file@;
                files.push(file);
                assert(file_views(files@) =~= before.push(value));
            },
            Err(e) => {
                proof {
                    lemma_files_failure_stays(list@, i + 1);
                }
                return Err(e);
            },
        }
        i += 1;
    }
    assert(list@.take(i as int) =~= list@);
    Ok(files)
}

/// Reads the metadata out of an info dictionary.
///
/// The result is what [`project_info`] says of the dictionary's value: the
/// record where every field that the schema asks for is there and of the
/// right kind, else the first failure.
pub fn parse_torrent_info(info: &BDictionary) -> (result: Result<Info, ProjectError>)
    ensures
        match result {
            Ok(record) => project_info(info@) == Ok::<InfoView, ProjectError>(record@),
            Err(e) => project_info(info@) == Err::<InfoView, ProjectError>(e),
        },
{
    proof {
        reveal_strlit("name");
        reveal_strlit("piece length");
        reveal_strlit("pieces");
        reveal_strlit("length");
        reveal_strlit("files");
    }
    let name = match text_field(info, "name", Field::Name) {
        Ok(name) => name,
        Err(e) => return Err(e),
    };
    let piece_length = match integer_field(info, "piece length", Field::PieceLength) {
        Ok(n) => to_count(n),
        Err(e) => return Err(e),
    };
    let pieces = match lookup(info, "pieces") {
        Some(BencodeValue::String(s)) => slice_to_vec(s.content),
        Some(_) => return Err(ProjectError::WrongType(Field::Pieces)),
        None => return Err(ProjectError::Missing(Field::Pieces)),
    };
    match lookup(info, "length") {
        Some(BencodeValue::Integer(n)) => Ok(
            Info::single_file(name, piece_length, pieces, to_count(n.value)),
        ),
        Some(_) => Err(ProjectError::WrongType(Field::Length)),
        None => {
            let entries = match list_field(info, "files", Field::Files) {
                Ok(entries) => entries,
                Err(e) => return Err(e),
            };
            match parse_files(entries) {
                Ok(files) => Ok(Info::multi_file(name, piece_length, pieces, files)),
                Err(e) => Err(e),
            }
        },
    }
}

/// Reads a torrent out of the root dictionary of a document.
///
/// The result is what [`project_torrent`] says of the dictionary's value.
pub fn project(root: &BDictionary) -> (result: Result<Torrent, ProjectError>)
    ensures
        match result {
            Ok(torrent) => project_torrent(root@) == Ok::<TorrentView, ProjectError>(torrent@),
            Err(e) => project_torrent(root@) == Err::<TorrentView, ProjectError>(e),
        },
{
    proof {
        reveal_strlit("announce");
        reveal_strlit("info");
    }
    let announce = match text_field(root, "announce", Field::Announce) {
        Ok(announce) => announce,
        Err(e) => return Err(e),
    };
    let info = match lookup(root, "info") {
        Some(BencodeValue::Dictionary(dict)) => match parse_torrent_info(dict) {
            Ok(info) => info,
            Err(e) => return Err(e),
        },
        Some(_) => return Err(ProjectError::WrongType(Field::Info)),
        None => return Err(ProjectError::Missing(Field::Info)),
    };
    Ok(Torrent { announce, info })
}

/// The torrent that a buffer holds: its bytes have to be one dictionary
/// and nothing after it, and the dictionary has to follow the schema. A root
/// of another kind is reported whatever follows it. Integer numerals are
/// read in `mode`.
pub open spec fn torrent_of(data: Seq<u8>, mode: NumeralMode) -> Result<
    TorrentView,
    TorrentError,
> {
    match decode_value(data, mode) {
        Err(e) => Err(TorrentError::Decode(e)),
        Ok(root) => match root.value {
            Bencode::Dictionary(dict) => if root.rest.len() != 0 {
                Err(TorrentError::TrailingData)
            } else {
                match project_torrent(dict) {
                    Ok(torrent) => Ok(torrent),
                    Err(e) => Err(TorrentError::Project(e)),
                }
            },
            _ => Err(TorrentError::RootNotDictionary),
        },
    }
}

/// Reads a torrent file that is held in memory, reading integer numerals
/// leniently: [`parse_torrent_with`] in [`NumeralMode::Lenient`].
pub fn parse_torrent(data: &[u8]) -> (result: Result<Torrent, TorrentError>)
    ensures
        match result {
            Ok(torrent) => torrent_of(data@, NumeralMode::Lenient) == Ok::<
                TorrentView,
                TorrentError,
            >(torrent@),
            Err(e) => torrent_of(data@, NumeralMode::Lenient) == Err::<TorrentView, TorrentError>(
                e,
            ),
        },
{
    parse_torrent_with(data, NumeralMode::Lenient)
}

/// Reads a torrent file that is held in memory, reading integer numerals in
/// `mode`.
///
/// The result is what [`torrent_of`] says of the bytes of `data`: the
/// record, or the first failure of decoding, of the check that the document
/// is one dictionary and nothing else, and of the schema.
pub fn parse_torrent_with(data: &[u8], mode: NumeralMode) -> (result: Result<
    Torrent,
    TorrentError,
>)
    ensures
        match result {
            Ok(torrent) => torrent_of(data@, mode) == Ok::<TorrentView, TorrentError>(torrent@),
            Err(e) => torrent_of(data@, mode) == Err::<TorrentView, TorrentError>(e),
        },
{
    match parse_bencode_with(data, mode) {
        Err(e) => Err(TorrentError::Decode(e)),
        Ok((rest, BencodeValue::Dictionary(root))) => {
            if rest.len() != 0 {
                return Err(TorrentError::TrailingData);
            }
            match project(&root) {
                Ok(torrent) => Ok(torrent),
                Err(e) => Err(TorrentError::Project(e)),
            }
        },
        Ok(_) => Err(TorrentError::RootNotDictionary),
    }
}

} // verus!
