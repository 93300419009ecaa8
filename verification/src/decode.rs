//! The decoder: from a byte buffer to one value and the bytes that follow it.
//!
//! The grammar is stated once, as spec functions over byte sequences. The
//! executable functions are proved to compute exactly what those say, for
//! every input: the value and the remainder where the input starts with a
//! well-formed element, and else the failure that the grammar names.
//!
//! The numeral of an integer is read leniently or strictly, as the
//! [`NumeralMode`] says. The functions whose names end in `_with` take the
//! mode; those without it read leniently.

use crate::bytes::{find_byte, first_index_of, lemma_first_index_of, lemma_first_index_of_unique};
use crate::error::DecodeError;
use crate::number::{
    canonical_numeral, i64_numeral, i64_numeral_in, is_canonical_numeral, is_digit,
    lemma_canonical_numeral, lemma_canonical_numeral_is_unique, parse_i64_in, parse_usize,
    usize_numeral, NumeralMode, DIGIT_NINE, DIGIT_ZERO, MINUS,
};
use crate::value::{BDictionary, BInteger, BList, BString, Bencode, BencodeValue};
use vstd::prelude::*;
use vstd::slice::slice_subrange;
use vstd::std_specs::cmp::PartialEqSpec;

verus! {

/// The byte `i`, which starts an integer.
pub const TAG_INTEGER: u8 = 105;

/// The byte `l`, which starts a list.
pub const TAG_LIST: u8 = 108;

/// The byte `d`, which starts a dictionary.
pub const TAG_DICTIONARY: u8 = 100;

/// The byte `e`, which ends an integer, a list and a dictionary.
pub const END: u8 = 101;

/// The byte `:`, which stands between the length of a byte string and its
/// bytes.
pub const SEPARATOR: u8 = 58;

/// What was decoded from the front of a byte sequence, and the bytes that
/// follow it.
pub struct Decoded<T> {
    pub value: T,
    pub rest: Seq<u8>,
}

/// The bytes of a byte string at the front of `s`: its length as one or
/// more digits, without a sign, then `:`, and as many bytes as the length
/// says.
pub open spec fn decode_string_bytes(s: Seq<u8>) -> Result<Decoded<Seq<u8>>, DecodeError> {
    let colon = first_index_of(s, SEPARATOR);
    if colon == s.len() {
        Err(DecodeError::MissingSeparator)
    } else {
        match usize_numeral(s.take(colon)) {
            None => Err(DecodeError::InvalidLength),
            Some(len) => if colon + 1 + len > s.len() {
                Err(DecodeError::TruncatedString)
            } else {
                Ok(
                    Decoded {
                        value: s.subrange(colon + 1, colon + 1 + len),
                        rest: s.skip(colon + 1 + len),
                    },
                )
            },
        }
    }
}

/// The byte string at the front of `s`, as a value.
pub open spec fn decode_string(s: Seq<u8>) -> Result<Decoded<Bencode>, DecodeError> {
    match decode_string_bytes(s) {
        Ok(bytes) => Ok(Decoded { value: Bencode::String(bytes.value), rest: bytes.rest }),
        Err(e) => Err(e),
    }
}

/// The integer whose numeral and closing `e` are at the front of `s`: the
/// bytes that follow the opening `i`. The numeral is read in `mode`.
pub open spec fn decode_integer(s: Seq<u8>, mode: NumeralMode) -> Result<Decoded<Bencode>, DecodeError> {
    let end = first_index_of(s, END);
    if end == s.len() {
        Err(DecodeError::InvalidInteger)
    } else {
        match i64_numeral_in(s.take(end), mode) {
            None => Err(DecodeError::InvalidInteger),
            Some(n) => Ok(Decoded { value: Bencode::Integer(n), rest: s.skip(end + 1) }),
        }
    }
}

/// The element at the front of `s`. Its first byte says which kind it is.
/// The numerals of the integers in it are read in `mode`.
pub open spec fn decode_value(s: Seq<u8>, mode: NumeralMode) -> Result<Decoded<Bencode>, DecodeError>
    decreases s.len(), 0nat,
{
    if s.len() == 0 {
        Err(DecodeError::UnexpectedEnd)
    } else if s[0] == TAG_INTEGER {
        decode_integer(s.drop_first(), mode)
    } else if s[0] == TAG_LIST {
        match decode_list_from(s.drop_first(), Seq::empty(), mode) {
            Ok(list) => Ok(Decoded { value: Bencode::List(list.value), rest: list.rest }),
            Err(e) => Err(e),
        }
    } else if s[0] == TAG_DICTIONARY {
        match decode_dictionary_from(s.drop_first(), Map::empty(), mode) {
            Ok(dict) => Ok(Decoded { value: Bencode::Dictionary(dict.value), rest: dict.rest }),
            Err(e) => Err(e),
        }
    } else if is_digit(s[0]) {
        decode_string(s)
    } else {
        Err(DecodeError::InvalidTag)
    }
}

/// The list that goes on at the front of `s` after the elements `items`:
/// elements are decoded one after the other and appended, up to the closing
/// `e`.
pub open spec fn decode_list_from(s: Seq<u8>, items: Seq<Bencode>, mode: NumeralMode) -> Result<
    Decoded<Seq<Bencode>>,
    DecodeError,
>
    decreases s.len(), 1nat,
{
    if s.len() == 0 {
        Err(DecodeError::UnterminatedList)
    } else if s[0] == END {
        Ok(Decoded { value: items, rest: s.drop_first() })
    } else {
        match decode_value(s, mode) {
            Err(e) => Err(e),
            Ok(item) => if item.rest.len() < s.len() {
                decode_list_from(item.rest, items.push(item.value), mode)
            } else {
                // Not reached: an element takes at least one byte.
                Err(DecodeError::UnterminatedList)
            },
        }
    }
}

/// The dictionary that goes on at the front of `s` after the bindings
/// `entries`: a byte string as the key and any element as its value are
/// decoded and bound, one pair after the other, up to the closing `e`. A key
/// that comes again is bound anew. Where the input ends before the closing
/// `e`, be it before a key or between a key and its value, the dictionary
/// is unterminated.
pub open spec fn decode_dictionary_from(s: Seq<u8>, entries: Map<Seq<u8>, Bencode>, mode: NumeralMode) -> Result<
    Decoded<Map<Seq<u8>, Bencode>>,
    DecodeError,
>
    decreases s.len(), 1nat,
{
    if s.len() == 0 {
        Err(DecodeError::UnterminatedDictionary)
    } else if s[0] == END {
        Ok(Decoded { value: entries, rest: s.drop_first() })
    } else {
        match decode_string_bytes(s) {
            Err(e) => Err(e),
            Ok(key) => if key.rest.len() == 0 {
                Err(DecodeError::UnterminatedDictionary)
            } else if key.rest.len() < s.len() {
                match decode_value(key.rest, mode) {
                    Err(e) => Err(e),
                    Ok(item) => if item.rest.len() <= key.rest.len() {
                        decode_dictionary_from(item.rest, entries.insert(key.value, item.value), mode)
                    } else {
                        // Not reached: the rest is never longer than the input.
                        Err(DecodeError::UnterminatedDictionary)
                    },
                }
            } else {
                // Not reached: a byte string takes at least its separator.
                Err(DecodeError::UnterminatedDictionary)
            },
        }
    }
}

/// The list whose elements and closing `e` are at the front of `s`: the
/// bytes that follow the opening `l`.
pub open spec fn decode_list(s: Seq<u8>, mode: NumeralMode) -> Result<Decoded<Bencode>, DecodeError> {
    match decode_list_from(s, Seq::empty(), mode) {
        Ok(list) => Ok(Decoded { value: Bencode::List(list.value), rest: list.rest }),
        Err(e) => Err(e),
    }
}

/// The dictionary whose pairs and closing `e` are at the front of `s`: the
/// bytes that follow the opening `d`.
pub open spec fn decode_dictionary(s: Seq<u8>, mode: NumeralMode) -> Result<Decoded<Bencode>, DecodeError> {
    match decode_dictionary_from(s, Map::empty(), mode) {
        Ok(dict) => Ok(Decoded { value: Bencode::Dictionary(dict.value), rest: dict.rest }),
        Err(e) => Err(e),
    }
}

/// Whether `rest` is what is left of `s` after at least `least` bytes.
pub open spec fn is_rest_of(rest: Seq<u8>, s: Seq<u8>, least: int) -> bool {
    least <= s.len() - rest.len() <= s.len() && rest == s.skip(s.len() - rest.len())
}

/// What is left after a byte string is the input without its first bytes,
/// at least one of them.
pub proof fn lemma_string_consumes(s: Seq<u8>)
    ensures
        decode_string_bytes(s) matches Ok(bytes) ==> is_rest_of(bytes.rest, s, 1),
{
    lemma_first_index_of(s, SEPARATOR);
}

/// What is left after an integer is the input without its first bytes, at
/// least one of them.
pub proof fn lemma_integer_consumes(s: Seq<u8>, mode: NumeralMode)
    ensures
        decode_integer(s, mode) matches Ok(number) ==> is_rest_of(number.rest, s, 1),
{
    lemma_first_index_of(s, END);
}

/// A suffix of a suffix is a suffix.
proof fn lemma_rest_of_rest(a: Seq<u8>, b: Seq<u8>, c: Seq<u8>, m: int, n: int)
    requires
        is_rest_of(a, b, m),
        is_rest_of(b, c, n),
        0 <= m,
        0 <= n,
    ensures
        is_rest_of(a, c, m + n),
{
    assert(c.skip(c.len() - b.len()).skip(b.len() - a.len()) =~= c.skip(c.len() - a.len()));
}

/// Decoding takes bytes from the front: what is left after an element is
/// the input without its first bytes, at least one of them.
pub proof fn lemma_value_consumes(s: Seq<u8>, mode: NumeralMode)
    ensures
        decode_value(s, mode) matches Ok(item) ==> is_rest_of(item.rest, s, 1),
    decreases s.len(), 0nat,
{
    if s.len() > 0 {
        let body = s.drop_first();
        assert(is_rest_of(body, s, 1));
        if s[0] == TAG_INTEGER {
            lemma_integer_consumes(body, mode);
            if let Ok(number) = decode_integer(body, mode) {
                lemma_rest_of_rest(number.rest, body, s, 1, 1);
            }
        } else if s[0] == TAG_LIST {
            lemma_list_consumes(body, Seq::empty(), mode);
            if let Ok(list) = decode_list_from(body, Seq::empty(), mode) {
                lemma_rest_of_rest(list.rest, body, s, 1, 1);
            }
        } else if s[0] == TAG_DICTIONARY {
            lemma_dictionary_consumes(body, Map::empty(), mode);
            if let Ok(dict) = decode_dictionary_from(body, Map::empty(), mode) {
                lemma_rest_of_rest(dict.rest, body, s, 1, 1);
            }
        } else if is_digit(s[0]) {
            lemma_string_consumes(s);
        }
    }
}

/// What is left after a list is the input without its first bytes, at
/// least one of them.
pub proof fn lemma_list_consumes(s: Seq<u8>, items: Seq<Bencode>, mode: NumeralMode)
    ensures
        decode_list_from(s, items, mode) matches Ok(list) ==> is_rest_of(list.rest, s, 1),
    decreases s.len(), 1nat,
{
    if s.len() > 0 && s[0] != END {
        lemma_value_consumes(s, mode);
        if let Ok(item) = decode_value(s, mode) {
            lemma_list_consumes(item.rest, items.push(item.value), mode);
            if let Ok(list) = decode_list_from(item.rest, items.push(item.value), mode) {
                lemma_rest_of_rest(list.rest, item.rest, s, 1, 1);
            }
        }
    }
}

/// What is left after a dictionary is the input without its first bytes, at
/// least one of them.
pub proof fn lemma_dictionary_consumes(s: Seq<u8>, entries: Map<Seq<u8>, Bencode>, mode: NumeralMode)
    ensures
        decode_dictionary_from(s, entries, mode) matches Ok(dict) ==> is_rest_of(dict.rest, s, 1),
    decreases s.len(), 1nat,
{
    if s.len() > 0 && s[0] != END {
        lemma_string_consumes(s);
        if let Ok(key) = decode_string_bytes(s) {
            lemma_value_consumes(key.rest, mode);
            if let Ok(item) = decode_value(key.rest, mode) {
                let bound = entries.insert(key.value, item.value);
                lemma_dictionary_consumes(item.rest, bound, mode);
                lemma_rest_of_rest(item.rest, key.rest, s, 1, 1);
                if let Ok(dict) = decode_dictionary_from(item.rest, bound, mode) {
                    lemma_rest_of_rest(dict.rest, item.rest, s, 1, 2);
                }
            }
        }
    }
}

/// A byte string starts with a digit. So where one is decoded on its own,
/// as a dictionary key is, the element at the front of the same input is
/// that byte string, in either mode.
pub proof fn lemma_string_starts_with_a_digit(s: Seq<u8>, mode: NumeralMode)
    ensures
        decode_string(s) is Ok ==> s.len() > 0 && is_digit(s[0]) && decode_value(s, mode)
            == decode_string(s),
{
    if decode_string(s) is Ok {
        let colon = first_index_of(s, SEPARATOR);
        lemma_first_index_of(s, SEPARATOR);
        assert(s.take(colon)[0] == s[0]);
    }
}

/// What is read strictly is read leniently too, and to the same element:
/// the strict mode only refuses more.
pub proof fn lemma_strict_is_lenient(s: Seq<u8>)
    ensures
        decode_value(s, NumeralMode::Strict) matches Ok(item) ==> decode_value(
            s,
            NumeralMode::Lenient,
        ) == Ok::<_, DecodeError>(item),
    decreases s.len(), 0nat,
{
    if s.len() > 0 {
        if s[0] == TAG_LIST {
            lemma_strict_list_is_lenient(s.drop_first(), Seq::empty());
        } else if s[0] == TAG_DICTIONARY {
            lemma_strict_dictionary_is_lenient(s.drop_first(), Map::empty());
        }
    }
}

/// A list that is read strictly is read leniently too, and to the same
/// elements.
pub proof fn lemma_strict_list_is_lenient(s: Seq<u8>, items: Seq<Bencode>)
    ensures
        decode_list_from(s, items, NumeralMode::Strict) matches Ok(list) ==> decode_list_from(
            s,
            items,
            NumeralMode::Lenient,
        ) == Ok::<_, DecodeError>(list),
    decreases s.len(), 1nat,
{
    if s.len() > 0 && s[0] != END {
        lemma_strict_is_lenient(s);
        if let Ok(item) = decode_value(s, NumeralMode::Strict) {
            if item.rest.len() < s.len() {
                lemma_strict_list_is_lenient(item.rest, items.push(item.value));
            }
        }
    }
}

/// A dictionary that is read strictly is read leniently too, and to the
/// same bindings.
pub proof fn lemma_strict_dictionary_is_lenient(s: Seq<u8>, entries: Map<Seq<u8>, Bencode>)
    ensures
        decode_dictionary_from(s, entries, NumeralMode::Strict) matches Ok(dict)
            ==> decode_dictionary_from(s, entries, NumeralMode::Lenient) == Ok::<_, DecodeError>(
            dict,
        ),
    decreases s.len(), 1nat,
{
    if s.len() > 0 && s[0] != END {
        if let Ok(key) = decode_string_bytes(s) {
            if 0 < key.rest.len() < s.len() {
                lemma_strict_is_lenient(key.rest);
                if let Ok(item) = decode_value(key.rest, NumeralMode::Strict) {
                    if item.rest.len() <= key.rest.len() {
                        lemma_strict_dictionary_is_lenient(
                            item.rest,
                            entries.insert(key.value, item.value),
                        );
                    }
                }
            }
        }
    }
}

/// Whether `a` and `b` hold the same first `k` bytes.
pub open spec fn same_front(a: Seq<u8>, b: Seq<u8>, k: int) -> bool {
    &&& 0 <= k <= a.len()
    &&& k <= b.len()
    &&& forall|j: int| 0 <= j < k ==> a[j] == b[j]
}

/// Inputs that hold the same bytes up to the first occurrence of `byte`,
/// that occurrence included, have it at the same place.
proof fn lemma_first_index_of_same_front(s: Seq<u8>, other: Seq<u8>, byte: u8)
    requires
        first_index_of(s, byte) < s.len(),
        same_front(s, other, first_index_of(s, byte) + 1),
    ensures
        first_index_of(other, byte) == first_index_of(s, byte),
{
    lemma_first_index_of(s, byte);
    lemma_first_index_of_unique(other, byte, first_index_of(s, byte));
}

/// A byte string is decoded from its own bytes alone: an input with the
/// same first bytes, as many as the string takes, gives the same string.
pub proof fn lemma_string_reads_its_bytes(s: Seq<u8>, other: Seq<u8>, bytes: Decoded<Seq<u8>>)
    requires
        decode_string_bytes(s) == Ok::<_, DecodeError>(bytes),
        same_front(s, other, s.len() - bytes.rest.len()),
    ensures
        decode_string_bytes(other) == Ok::<_, DecodeError>(
            Decoded { value: bytes.value, rest: other.skip(s.len() - bytes.rest.len()) },
        ),
{
    let colon = first_index_of(s, SEPARATOR);
    lemma_first_index_of(s, SEPARATOR);
    lemma_first_index_of_same_front(s, other, SEPARATOR);
    assert(other.take(colon) =~= s.take(colon));
    let len = usize_numeral(s.take(colon))->Some_0;
    assert(other.subrange(colon + 1, colon + 1 + len) =~= s.subrange(colon + 1, colon + 1 + len));
}

/// An integer is decoded from its own bytes alone.
pub proof fn lemma_integer_reads_its_bytes(s: Seq<u8>, other: Seq<u8>, number: Decoded<Bencode>, mode: NumeralMode)
    requires
        decode_integer(s, mode) == Ok::<_, DecodeError>(number),
        same_front(s, other, s.len() - number.rest.len()),
    ensures
        decode_integer(other, mode) == Ok::<_, DecodeError>(
            Decoded { value: number.value, rest: other.skip(s.len() - number.rest.len()) },
        ),
{
    let end = first_index_of(s, END);
    lemma_first_index_of(s, END);
    lemma_first_index_of_same_front(s, other, END);
    assert(other.take(end) =~= s.take(end));
}

/// An element is decoded from its own bytes alone: an input with the same
/// first bytes, as many as the element takes, gives the same value and
/// leaves what follows those bytes. So the bytes that the element takes
/// decode to it whatever stands after them, and also with nothing after
/// them.
pub proof fn lemma_value_reads_its_bytes(s: Seq<u8>, other: Seq<u8>, item: Decoded<Bencode>, mode: NumeralMode)
    requires
        decode_value(s, mode) == Ok::<_, DecodeError>(item),
        same_front(s, other, s.len() - item.rest.len()),
    ensures
        decode_value(other, mode) == Ok::<_, DecodeError>(
            Decoded { value: item.value, rest: other.skip(s.len() - item.rest.len()) },
        ),
    decreases s.len(), 0nat,
{
    lemma_value_consumes(s, mode);
    let taken = s.len() - item.rest.len();
    let body = s.drop_first();
    let other_body = other.drop_first();
    assert(other[0] == s[0]);
    assert(other_body.skip(taken - 1) =~= other.skip(taken));
    if s[0] == TAG_INTEGER {
        lemma_integer_consumes(body, mode);
        lemma_integer_reads_its_bytes(body, other_body, item, mode);
    } else if s[0] == TAG_LIST {
        let list = decode_list_from(body, Seq::empty(), mode)->Ok_0;
        lemma_list_consumes(body, Seq::empty(), mode);
        lemma_list_reads_its_bytes(body, other_body, Seq::empty(), list, mode);
    } else if s[0] == TAG_DICTIONARY {
        let dict = decode_dictionary_from(body, Map::empty(), mode)->Ok_0;
        lemma_dictionary_consumes(body, Map::empty(), mode);
        lemma_dictionary_reads_its_bytes(body, other_body, Map::empty(), dict, mode);
    } else {
        let bytes = decode_string_bytes(s)->Ok_0;
        lemma_string_reads_its_bytes(s, other, bytes);
    }
}

/// A list is decoded from its own bytes alone.
pub proof fn lemma_list_reads_its_bytes(
    s: Seq<u8>,
    other: Seq<u8>,
    items: Seq<Bencode>,
    list: Decoded<Seq<Bencode>>,
    mode: NumeralMode,
)
    requires
        decode_list_from(s, items, mode) == Ok::<_, DecodeError>(list),
        same_front(s, other, s.len() - list.rest.len()),
    ensures
        decode_list_from(other, items, mode) == Ok::<_, DecodeError>(
            Decoded { value: list.value, rest: other.skip(s.len() - list.rest.len()) },
        ),
    decreases s.len(), 1nat,
{
    lemma_list_consumes(s, items, mode);
    let taken = s.len() - list.rest.len();
    assert(other[0] == s[0]);
    if s[0] == END {
        assert(other.drop_first() =~= other.skip(taken));
    } else {
        let item = decode_value(s, mode)->Ok_0;
        let step = s.len() - item.rest.len();
        let more = items.push(item.value);
        lemma_value_consumes(s, mode);
        lemma_list_consumes(item.rest, more, mode);
        lemma_value_reads_its_bytes(s, other, item, mode);
        assert(same_front(item.rest, other.skip(step), taken - step)) by {
            assert forall|j: int| 0 <= j < taken - step implies item.rest[j] == other.skip(step)[j] by {
                assert(item.rest[j] == s[step + j]);
            }
        }
        lemma_list_reads_its_bytes(item.rest, other.skip(step), more, list, mode);
        assert(other.skip(step).skip(taken - step) =~= other.skip(taken));
    }
}

/// A dictionary is decoded from its own bytes alone.
pub proof fn lemma_dictionary_reads_its_bytes(
    s: Seq<u8>,
    other: Seq<u8>,
    entries: Map<Seq<u8>, Bencode>,
    dict: Decoded<Map<Seq<u8>, Bencode>>,
    mode: NumeralMode,
)
    requires
        decode_dictionary_from(s, entries, mode) == Ok::<_, DecodeError>(dict),
        same_front(s, other, s.len() - dict.rest.len()),
    ensures
        decode_dictionary_from(other, entries, mode) == Ok::<_, DecodeError>(
            Decoded { value: dict.value, rest: other.skip(s.len() - dict.rest.len()) },
        ),
    decreases s.len(), 1nat,
{
    lemma_dictionary_consumes(s, entries, mode);
    let taken = s.len() - dict.rest.len();
    assert(other[0] == s[0]);
    if s[0] == END {
        assert(other.drop_first() =~= other.skip(taken));
    } else {
        let key = decode_string_bytes(s)->Ok_0;
        let item = decode_value(key.rest, mode)->Ok_0;
        let key_step = s.len() - key.rest.len();
        let item_step = key.rest.len() - item.rest.len();
        let step = key_step + item_step;
        let more = entries.insert(key.value, item.value);
        lemma_string_consumes(s);
        lemma_value_consumes(key.rest, mode);
        lemma_dictionary_consumes(item.rest, more, mode);
        lemma_string_reads_its_bytes(s, other, key);
        assert(same_front(key.rest, other.skip(key_step), item_step)) by {
            assert forall|j: int| 0 <= j < item_step implies key.rest[j] == other.skip(key_step)[j] by {
                assert(key.rest[j] == s[key_step + j]);
            }
        }
        lemma_value_reads_its_bytes(key.rest, other.skip(key_step), item, mode);
        assert(other.skip(key_step).skip(item_step) =~= other.skip(step));
        assert(same_front(item.rest, other.skip(step), taken - step)) by {
            assert forall|j: int| 0 <= j < taken - step implies item.rest[j] == other.skip(step)[j] by {
                assert(item.rest[j] == key.rest[item_step + j]);
                assert(key.rest[item_step + j] == s[step + j]);
            }
        }
        lemma_dictionary_reads_its_bytes(item.rest, other.skip(step), more, dict, mode);
        assert(other.skip(step).skip(taken - step) =~= other.skip(taken));
    }
}

/// The bytes that an element takes are the one front part of the input that
/// is an element: they decode to the element's value with nothing left, and
/// no shorter front part of the input decodes at all.
pub proof fn lemma_value_takes_one_element(s: Seq<u8>, item: Decoded<Bencode>, mode: NumeralMode)
    requires
        decode_value(s, mode) == Ok::<_, DecodeError>(item),
    ensures
        decode_value(s.take(s.len() - item.rest.len()), mode) == Ok::<_, DecodeError>(
            Decoded { value: item.value, rest: Seq::empty() },
        ),
        forall|j: int|
            0 <= j < s.len() - item.rest.len() ==> (#[trigger] decode_value(s.take(j), mode)) is Err,
{
    lemma_value_consumes(s, mode);
    let taken = s.len() - item.rest.len();
    lemma_value_reads_its_bytes(s, s.take(taken), item, mode);
    assert(s.take(taken).skip(taken) =~= Seq::<u8>::empty());
    assert forall|j: int| 0 <= j < taken implies (#[trigger] decode_value(s.take(j), mode)) is Err by {
        if let Ok(shorter) = decode_value(s.take(j), mode) {
            // The whole input starts with the bytes of the shorter element,
            // so it decodes to that element, which takes fewer bytes.
            lemma_value_consumes(s.take(j), mode);
            lemma_value_reads_its_bytes(s.take(j), s, shorter, mode);
        }
    }
}

/// What a result of the decoder says in terms of the grammar: the value of
/// the tree and the bytes of the remaining slice, or the failure.
pub open spec fn outcome(result: Result<(&[u8], BencodeValue), DecodeError>) -> Result<
    Decoded<Bencode>,
    DecodeError,
> {
    match result {
        Ok((rest, value)) => Ok(Decoded { value: value@, rest: rest@ }),
        Err(e) => Err(e),
    }
}

/// Decodes the byte string at the front of `data`.
fn parse_string<'a>(data: &'a [u8]) -> (result: Result<(&'a [u8], BString<'a>), DecodeError>)
    ensures
        match result {
            Ok((rest, bytes)) => decode_string_bytes(data@) == Ok::<_, DecodeError>(
                Decoded { value: bytes@, rest: rest@ },
            ),
            Err(e) => decode_string_bytes(data@) == Err::<Decoded<Seq<u8>>, _>(e),
        },
{
    let colon: usize = find_byte(data, SEPARATOR);
    if colon == data.len() {
        return Err(DecodeError::MissingSeparator);
    }
    let len: usize = match parse_usize(slice_subrange(data, 0, colon)) {
        Some(len) => len,
        None => return Err(DecodeError::InvalidLength),
    };
    if len > data.len() - colon - 1 {
        return Err(DecodeError::TruncatedString);
    }
    let content = slice_subrange(data, colon + 1, colon + 1 + len);
    let rest = slice_subrange(data, colon + 1 + len, data.len());
    Ok((rest, BString { content }))
}

/// Decodes a byte string: its length in decimal, `:`, and that many bytes.
///
/// The result is what [`decode_string`] says of the bytes of `data`: the
/// string and the slice that follows it, or the failure.
pub fn parse_bencode_string<'a>(data: &'a [u8]) -> (result: Result<
    (&'a [u8], BencodeValue<'a>),
    DecodeError,
>)
    ensures
        outcome(result) == decode_string(data@),
        result matches Ok((rest, _)) ==> is_rest_of(rest@, data@, 1),
{
    proof {
        lemma_string_consumes(data@);
    }
    match parse_string(data) {
        Ok((rest, bytes)) => Ok((rest, BencodeValue::String(bytes))),
        Err(e) => Err(e),
    }
}

/// Decodes an integer from the bytes that follow its opening `i`: a signed
/// numeral, read in `mode`, and `e`.
///
/// The result is what [`decode_integer`] says of the bytes of `data`: the
/// integer and the slice that follows its `e`, or the failure.
pub fn parse_bencode_integer_with<'a>(data: &'a [u8], mode: NumeralMode) -> (result: Result<
    (&'a [u8], BencodeValue<'a>),
    DecodeError,
>)
    ensures
        outcome(result) == decode_integer(data@, mode),
        result matches Ok((rest, _)) ==> is_rest_of(rest@, data@, 1),
{
    proof {
        lemma_integer_consumes(data@, mode);
    }
    let end: usize = find_byte(data, END);
    if end == data.len() {
        return Err(DecodeError::InvalidInteger);
    }
    match parse_i64_in(slice_subrange(data, 0, end), mode) {
        Some(value) => Ok(
            (slice_subrange(data, end + 1, data.len()), BencodeValue::Integer(BInteger { value })),
        ),
        None => Err(DecodeError::InvalidInteger),
    }
}

/// Decodes a list from the bytes that follow its opening `l`: elements, and
/// `e`. Integer numerals are read in `mode`.
///
/// The result is what [`decode_list`] says of the bytes of `data`: the list
/// and the slice that follows its `e`, or the failure.
pub fn parse_bencode_list_with<'a>(data: &'a [u8], mode: NumeralMode) -> (result: Result<
    (&'a [u8], BencodeValue<'a>),
    DecodeError,
>)
    ensures
        outcome(result) == decode_list(data@, mode),
        result matches Ok((rest, _)) ==> is_rest_of(rest@, data@, 1),
    decreases data@.len(), 1nat,
{
    proof {
        lemma_list_consumes(data@, Seq::empty(), mode);
    }
    let mut items: Vec<BencodeValue<'a>> = Vec::new();
    let mut rest: &'a [u8] = data;
    let ghost mut done: Seq<Bencode> = Seq::empty();
    while rest.len() > 0 && rest[0] != END
        invariant
            rest@.len() <= data@.len(),
            done.len() == items@.len(),
            forall|i: int| 0 <= i < done.len() ==> done[i] == (#[trigger] items@[i])@,
            decode_list_from(data@, Seq::empty(), mode) == decode_list_from(rest@, done, mode),
        decreases rest@.len(),
    {
        proof {
            lemma_value_consumes(rest@, mode);
        }
        match parse_bencode_with(rest, mode) {
            Ok((new_rest, value)) => {
                proof {
                    done = done.push(value@);
                }
                rest = new_rest;
                items.push(value);
            },
            Err(e) => {
                return Err(e);
            },
        }
    }
    if rest.len() == 0 {
        return Err(DecodeError::UnterminatedList);
    }
    let list = BList { items };
    assert(list@ =~= done);
    assert(rest@.drop_first() =~= rest@.subrange(1, rest@.len() as int));
    Ok((slice_subrange(rest, 1, rest.len()), BencodeValue::List(list)))
}

/// Decodes a dictionary from the bytes that follow its opening `d`: pairs
/// of a byte string and an element, and `e`. Integer numerals are read in
/// `mode`.
///
/// The result is what [`decode_dictionary`] says of the bytes of `data`:
/// the dictionary and the slice that follows its `e`, or the failure.
pub fn parse_bencode_dictionary_with<'a>(data: &'a [u8], mode: NumeralMode) -> (result: Result<
    (&'a [u8], BencodeValue<'a>),
    DecodeError,
>)
    ensures
        outcome(result) == decode_dictionary(data@, mode),
        result matches Ok((rest, _)) ==> is_rest_of(rest@, data@, 1),
    decreases data@.len(), 1nat,
{
    proof {
        lemma_dictionary_consumes(data@, Map::empty(), mode);
    }
    let mut rest: &'a [u8] = data;
    let mut dict: BDictionary<'a> = BDictionary::new();
    while rest.len() > 0 && rest[0] != END
        invariant
            rest@.len() <= data@.len(),
            decode_dictionary_from(data@, Map::empty(), mode) == decode_dictionary_from(rest@, dict@, mode),
        decreases rest@.len(),
    {
        proof {
            lemma_string_consumes(rest@);
        }
        let (after_key, key) = match parse_string(rest) {
            Ok(pair) => pair,
            Err(e) => {
                return Err(e);
            },
        };
        if after_key.len() == 0 {
            return Err(DecodeError::UnterminatedDictionary);
        }
        proof {
            lemma_value_consumes(after_key@, mode);
        }
        match parse_bencode_with(after_key, mode) {
            Ok((new_rest, value)) => {
                rest = new_rest;
                dict.insert(key, value);
            },
            Err(e) => {
                return Err(e);
            },
        }
    }
    if rest.len() == 0 {
        return Err(DecodeError::UnterminatedDictionary);
    }
    assert(rest@.drop_first() =~= rest@.subrange(1, rest@.len() as int));
    Ok((slice_subrange(rest, 1, rest.len()), BencodeValue::Dictionary(dict)))
}

/// Decodes the element at the front of `data`, reading integer numerals in
/// `mode`.
///
/// The result is what [`decode_value`] says of the bytes of `data`. Where
/// they start with a well-formed element, it is that element's value
/// together with the slice that follows the element: what is left of `data`
/// after the bytes of the element. Else it is the failure that the grammar
/// names; an empty `data` is [`DecodeError::UnexpectedEnd`].
pub fn parse_bencode_with<'a>(data: &'a [u8], mode: NumeralMode) -> (result: Result<
    (&'a [u8], BencodeValue<'a>),
    DecodeError,
>)
    ensures
        outcome(result) == decode_value(data@, mode),
        result matches Ok((rest, _)) ==> is_rest_of(rest@, data@, 1),
    decreases data@.len(), 0nat,
{
    proof {
        lemma_value_consumes(data@, mode);
    }
    if data.len() == 0 {
        return Err(DecodeError::UnexpectedEnd);
    }
    let tag: u8 = data[0];
    assert(data@.drop_first() =~= data@.subrange(1, data@.len() as int));
    if tag == TAG_INTEGER {
        parse_bencode_integer_with(slice_subrange(data, 1, data.len()), mode)
    } else if tag == TAG_LIST {
        parse_bencode_list_with(slice_subrange(data, 1, data.len()), mode)
    } else if tag == TAG_DICTIONARY {
        parse_bencode_dictionary_with(slice_subrange(data, 1, data.len()), mode)
    } else if DIGIT_ZERO <= tag && tag <= DIGIT_NINE {
        parse_bencode_string(data)
    } else {
        Err(DecodeError::InvalidTag)
    }
}

/// Decodes the element at the front of `data`, reading integer numerals
/// leniently: [`parse_bencode_with`] in [`NumeralMode::Lenient`].
pub fn parse_bencode<'a>(data: &'a [u8]) -> (result: Result<
    (&'a [u8], BencodeValue<'a>),
    DecodeError,
>)
    ensures
        outcome(result) == decode_value(data@, NumeralMode::Lenient),
        result matches Ok((rest, _)) ==> is_rest_of(rest@, data@, 1),
{
    parse_bencode_with(data, NumeralMode::Lenient)
}

/// Decodes an integer from the bytes that follow its opening `i`, reading
/// its numeral leniently: [`parse_bencode_integer_with`] in
/// [`NumeralMode::Lenient`].
pub fn parse_bencode_integer<'a>(data: &'a [u8]) -> (result: Result<
    (&'a [u8], BencodeValue<'a>),
    DecodeError,
>)
    ensures
        outcome(result) == decode_integer(data@, NumeralMode::Lenient),
        result matches Ok((rest, _)) ==> is_rest_of(rest@, data@, 1),
{
    parse_bencode_integer_with(data, NumeralMode::Lenient)
}

/// Decodes a list from the bytes that follow its opening `l`, reading
/// integer numerals leniently: [`parse_bencode_list_with`] in
/// [`NumeralMode::Lenient`].
pub fn parse_bencode_list<'a>(data: &'a [u8]) -> (result: Result<
    (&'a [u8], BencodeValue<'a>),
    DecodeError,
>)
    ensures
        outcome(result) == decode_list(data@, NumeralMode::Lenient),
        result matches Ok((rest, _)) ==> is_rest_of(rest@, data@, 1),
{
    parse_bencode_list_with(data, NumeralMode::Lenient)
}

/// Decodes a dictionary from the bytes that follow its opening `d`, reading
/// integer numerals leniently: [`parse_bencode_dictionary_with`] in
/// [`NumeralMode::Lenient`].
pub fn parse_bencode_dictionary<'a>(data: &'a [u8]) -> (result: Result<
    (&'a [u8], BencodeValue<'a>),
    DecodeError,
>)
    ensures
        outcome(result) == decode_dictionary(data@, NumeralMode::Lenient),
        result matches Ok((rest, _)) ==> is_rest_of(rest@, data@, 1),
{
    parse_bencode_dictionary_with(data, NumeralMode::Lenient)
}

/// The canonical encoding of an integer: `i`, its canonical numeral, `e`.
pub open spec fn encode_integer(n: i64) -> Seq<u8> {
    seq![TAG_INTEGER] + canonical_numeral(n as int) + seq![END]
}

/// The canonical numeral of an integer, closed by `e`, is read back as that
/// integer whatever follows.
proof fn lemma_decode_canonical_numeral(n: i64, tail: Seq<u8>, mode: NumeralMode)
    ensures
        decode_integer(canonical_numeral(n as int) + seq![END] + tail, mode) == Ok::<_, DecodeError>(
            Decoded { value: Bencode::Integer(n), rest: tail },
        ),
{
    let numeral = canonical_numeral(n as int);
    let body = numeral + seq![END] + tail;
    let end = numeral.len() as int;
    lemma_canonical_numeral(n as int);
    assert forall|j: int| 0 <= j < end implies body[j] != END by {
        assert(body[j] == numeral[j]);
        assert(is_digit(numeral[j]) || numeral[j] == MINUS);
    }
    assert(body[end] == END);
    lemma_first_index_of_unique(body, END, end);
    assert(body.take(end) =~= numeral);
    assert(body.skip(end + 1) =~= tail);
}

/// The canonical encoding of an integer, with any bytes after it, decodes to
/// that integer and leaves those bytes.
pub proof fn lemma_decode_encoded_integer_before(n: i64, tail: Seq<u8>, mode: NumeralMode)
    ensures
        decode_value(encode_integer(n) + tail, mode) == Ok::<_, DecodeError>(
            Decoded { value: Bencode::Integer(n), rest: tail },
        ),
{
    let s = encode_integer(n) + tail;
    assert(s[0] == TAG_INTEGER);
    assert(s.drop_first() =~= canonical_numeral(n as int) + seq![END] + tail);
    lemma_decode_canonical_numeral(n, tail, mode);
}

/// Round trip: the canonical encoding of an integer (no leading zeros, no
/// sign before zero) decodes to that integer, and nothing is left.
pub proof fn lemma_decode_encoded_integer(n: i64, mode: NumeralMode)
    ensures
        decode_value(encode_integer(n), mode) == Ok::<_, DecodeError>(
            Decoded { value: Bencode::Integer(n), rest: Seq::empty() },
        ),
{
    lemma_decode_encoded_integer_before(n, Seq::empty(), mode);
    assert(encode_integer(n) + Seq::<u8>::empty() =~= encode_integer(n));
}

/// Round trip, from the side of the text: a numeral in canonical form that
/// denotes a 64-bit integer, between `i` and `e`, decodes to that integer,
/// and nothing is left.
pub proof fn lemma_decode_canonical_integer(numeral: Seq<u8>, n: i64, mode: NumeralMode)
    requires
        is_canonical_numeral(numeral),
        i64_numeral(numeral) == Some(n),
    ensures
        seq![TAG_INTEGER] + numeral + seq![END] == encode_integer(n),
        decode_value(seq![TAG_INTEGER] + numeral + seq![END], mode) == Ok::<_, DecodeError>(
            Decoded { value: Bencode::Integer(n), rest: Seq::empty() },
        ),
{
    lemma_canonical_numeral_is_unique(numeral);
    lemma_decode_encoded_integer(n, mode);
}

/// Decoding is a function of the bytes: two results of [`parse_bencode_with`] on
/// buffers that hold the same bytes are both a success or both the same
/// failure. Where they are a success, the trees are equal (they stand for
/// the same value, which is what `==` tells of two trees) and the remainders
/// hold the same bytes.
pub proof fn lemma_decode_twice(
    data: Seq<u8>,
    first: Result<(&[u8], BencodeValue), DecodeError>,
    second: Result<(&[u8], BencodeValue), DecodeError>,
    mode: NumeralMode,
)
    requires
        outcome(first) == decode_value(data, mode),
        outcome(second) == decode_value(data, mode),
    ensures
        match (first, second) {
            (Ok((rest1, value1)), Ok((rest2, value2))) => {
                &&& value1@ == value2@
                &&& value1.eq_spec(&value2)
                &&& rest1@ == rest2@
            },
            (Err(e1), Err(e2)) => e1 == e2,
            _ => false,
        },
{
}

} // verus!
