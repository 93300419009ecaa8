//! The value tree that a decoded document is held in, and the mathematical
//! value that each tree stands for.

use crate::bytes::{
    bytes_equal, bytes_less, lemma_lex_less_irreflexive, lemma_lex_less_total,
    lemma_lex_less_transitive, lex_less,
};
use vstd::prelude::*;

verus! {

/// The mathematical value of a Bencode element. Contracts speak of trees
/// through this type: a list is a sequence, a dictionary is a map keyed by
/// byte strings.
pub enum Bencode {
    String(Seq<u8>),
    Integer(i64),
    List(Seq<Bencode>),
    Dictionary(Map<Seq<u8>, Bencode>),
}

/// A generic decoded element. Two elements are equal, by `==`, exactly when
/// they stand for the same value.
#[derive(Debug)]
pub enum BencodeValue<'a> {
    String(BString<'a>),
    Integer(BInteger),
    List(BList<'a>),
    Dictionary(BDictionary<'a>),
}

/// A byte string. It borrows its bytes from the buffer that was decoded and
/// is not required to be valid UTF-8.
#[derive(Hash, Eq, Debug)]
pub struct BString<'a> {
    pub content: &'a [u8],
}

/// A signed 64-bit integer.
#[derive(Debug)]
pub struct BInteger {
    pub value: i64,
}

/// An ordered list of elements.
#[derive(Debug)]
pub struct BList<'a> {
    pub items: Vec<BencodeValue<'a>>,
}

/// A mapping from byte-string keys to elements. No key occurs twice: the
/// entries are kept in strictly increasing lexicographic key order, so two
/// dictionaries that hold the same mapping hold the same entries.
#[derive(Debug)]
pub struct BDictionary<'a> {
    entries: Vec<BEntry<'a>>,
}

#[derive(Debug)]
struct BEntry<'a> {
    key: BString<'a>,
    value: BencodeValue<'a>,
}

impl<'a> View for BString<'a> {
    type V = Seq<u8>;

    open spec fn view(&self) -> Seq<u8> {
        self.content@
    }
}

impl View for BInteger {
    type V = i64;

    open spec fn view(&self) -> i64 {
        self.value
    }
}

impl<'a> View for BList<'a> {
    type V = Seq<Bencode>;

    open spec fn view(&self) -> Seq<Bencode>
        decreases self,
    {
        Seq::new(
            self.items@.len(),
            |i: int|
                if 0 <= i < self.items@.len() {
                    self.items@[i].view()
                } else {
                    arbitrary()
                },
        )
    }
}

impl<'a> View for BDictionary<'a> {
    type V = Map<Seq<u8>, Bencode>;

    closed spec fn view(&self) -> Map<Seq<u8>, Bencode>
        decreases self,
    {
        entries_view(self.entries@)
    }
}

impl<'a> View for BencodeValue<'a> {
    type V = Bencode;

    open spec fn view(&self) -> Bencode
        decreases self,
    {
        match self {
            BencodeValue::String(s) => Bencode::String(s.view()),
            BencodeValue::Integer(n) => Bencode::Integer(n.view()),
            BencodeValue::List(l) => Bencode::List(l.view()),
            BencodeValue::Dictionary(d) => Bencode::Dictionary(d.view()),
        }
    }
}

/// Whether some entry of `es` has the key `k`.
spec fn has_key(es: Seq<BEntry>, k: Seq<u8>) -> bool {
    exists|i: int| 0 <= i < es.len() && (#[trigger] es[i]).key@ == k
}

/// The position of an entry of `es` with the key `k`, where there is one.
spec fn slot_of(es: Seq<BEntry>, k: Seq<u8>) -> int {
    choose|i: int| 0 <= i < es.len() && (#[trigger] es[i]).key@ == k
}

/// The map that a sequence of entries stands for.
spec fn entries_view(es: Seq<BEntry>) -> Map<Seq<u8>, Bencode>
    decreases es,
{
    Map::new(
        |k: Seq<u8>| has_key(es, k),
        |k: Seq<u8>|
            {
                let i = slot_of(es, k);
                if 0 <= i < es.len() {
                    es[i].value.view()
                } else {
                    arbitrary()
                }
            },
    )
}

/// Keys strictly increase along the sequence.
spec fn keys_increase(es: Seq<BEntry>) -> bool {
    forall|i: int, j: int|
        0 <= i < j < es.len() ==> lex_less((#[trigger] es[i]).key@, (#[trigger] es[j]).key@)
}

/// Where keys strictly increase, each entry is the one that its key leads to.
proof fn lemma_entry_is_found(es: Seq<BEntry>, i: int)
    requires
        keys_increase(es),
        0 <= i < es.len(),
    ensures
        entries_view(es).dom().contains(es[i].key@),
        entries_view(es)[es[i].key@] == es[i].value@,
{
    let k = es[i].key@;
    assert(has_key(es, k));
    let j = slot_of(es, k);
    assert(0 <= j < es.len() && es[j].key@ == k);
    // The key leads to no other place than `i`: there it would come before
    // or after itself.
    if j != i {
        lemma_lex_less_irreflexive(k);
        if j < i {
            assert(lex_less(es[j].key@, es[i].key@));
        } else {
            assert(lex_less(es[i].key@, es[j].key@));
        }
    }
}

/// Where keys strictly increase, the map has as many keys as the sequence
/// has entries.
proof fn lemma_entries_count(es: Seq<BEntry>)
    requires
        keys_increase(es),
    ensures
        entries_view(es).dom().finite(),
        entries_view(es).dom().len() == es.len(),
    decreases es.len(),
{
    if es.len() == 0 {
        assert(entries_view(es).dom() =~= Set::<Seq<u8>>::empty());
    } else {
        let front = es.drop_last();
        let last = es.last().key@;
        assert forall|i: int, j: int| 0 <= i < j < front.len() implies lex_less(
            (#[trigger] front[i]).key@,
            (#[trigger] front[j]).key@,
        ) by {
            assert(front[i] == es[i] && front[j] == es[j]);
        }
        lemma_entries_count(front);
        // The last key is greater than those before it, so it is a new one.
        lemma_lex_less_irreflexive(last);
        assert(!has_key(front, last)) by {
            if has_key(front, last) {
                let i = slot_of(front, last);
                assert(front[i] == es[i]);
                assert(lex_less(es[i].key@, es[es.len() - 1].key@));
            }
        }
        assert forall|k: Seq<u8>| has_key(es, k) <==> (has_key(front, k) || k == last) by {
            if has_key(es, k) {
                let i = slot_of(es, k);
                if i < front.len() {
                    assert(front[i].key@ == k);
                }
            }
            if has_key(front, k) {
                let i = slot_of(front, k);
                assert(es[i].key@ == k);
            }
            if k == last {
                assert(es[es.len() - 1].key@ == k);
            }
        }
        assert(entries_view(es).dom() =~= entries_view(front).dom().insert(last));
    }
}

/// Putting a new key in its place adds one binding to the map.
proof fn lemma_insert_entry(es: Seq<BEntry>, p: int, e: BEntry)
    requires
        0 <= p <= es.len(),
        keys_increase(es),
        keys_increase(es.insert(p, e)),
    ensures
        entries_view(es.insert(p, e)) == entries_view(es).insert(e.key@, e.value@),
{
    let after = es.insert(p, e);
    let expected = entries_view(es).insert(e.key@, e.value@);
    assert(after[p] == e);
    assert forall|k: Seq<u8>| has_key(after, k) <==> (k == e.key@ || has_key(es, k)) by {
        if has_key(after, k) {
            let j = slot_of(after, k);
            if j < p {
                assert(after[j] == es[j]);
            } else if j > p {
                assert(after[j] == es[j - 1]);
            }
        }
        if has_key(es, k) {
            let j = slot_of(es, k);
            if j < p {
                assert(after[j] == es[j]);
            } else {
                assert(after[j + 1] == es[j]);
            }
        }
    }
    assert forall|k: Seq<u8>| has_key(after, k) implies #[trigger] entries_view(after)[k]
        == expected[k] by {
        let j = slot_of(after, k);
        lemma_entry_is_found(after, j);
        lemma_lex_less_irreflexive(k);
        if j < p {
            assert(after[j] == es[j]);
            lemma_entry_is_found(es, j);
            assert(lex_less(after[j].key@, after[p].key@));
        } else if j > p {
            assert(after[j] == es[j - 1]);
            lemma_entry_is_found(es, j - 1);
            assert(lex_less(after[p].key@, after[j].key@));
        }
    }
    assert(entries_view(after) =~= expected);
}

/// Replacing the value stored with a key rebinds that key in the map.
proof fn lemma_replace_entry(es: Seq<BEntry>, p: int, e: BEntry)
    requires
        keys_increase(es),
        0 <= p < es.len(),
        es[p].key@ == e.key@,
    ensures
        keys_increase(es.update(p, e)),
        entries_view(es.update(p, e)) == entries_view(es).insert(e.key@, e.value@),
{
    let after = es.update(p, e);
    let expected = entries_view(es).insert(e.key@, e.value@);
    assert forall|i: int, j: int| 0 <= i < j < after.len() implies lex_less(
        (#[trigger] after[i]).key@,
        (#[trigger] after[j]).key@,
    ) by {
        assert(after[i].key@ == es[i].key@);
        assert(after[j].key@ == es[j].key@);
    }
    assert forall|k: Seq<u8>| has_key(after, k) <==> (k == e.key@ || has_key(es, k)) by {
        if has_key(after, k) {
            let j = slot_of(after, k);
            assert(after[j].key@ == es[j].key@);
        }
        if has_key(es, k) {
            let j = slot_of(es, k);
            assert(after[j].key@ == es[j].key@);
        }
        if k == e.key@ {
            assert(after[p].key@ == k);
        }
    }
    assert forall|k: Seq<u8>| has_key(after, k) implies #[trigger] entries_view(after)[k]
        == expected[k] by {
        let j = slot_of(after, k);
        lemma_entry_is_found(after, j);
        if j != p {
            assert(after[j] == es[j]);
            lemma_entry_is_found(es, j);
            lemma_lex_less_irreflexive(k);
            if j < p {
                assert(lex_less(es[j].key@, es[p].key@));
            } else {
                assert(lex_less(es[p].key@, es[j].key@));
            }
        }
    }
    assert(entries_view(after) =~= expected);
}

/// A key that lies strictly between its neighbours keeps the order.
proof fn lemma_insert_keeps_order(es: Seq<BEntry>, p: int, e: BEntry)
    requires
        keys_increase(es),
        0 <= p <= es.len(),
        p > 0 ==> lex_less(es[p - 1].key@, e.key@),
        p < es.len() ==> lex_less(e.key@, es[p].key@),
    ensures
        keys_increase(es.insert(p, e)),
{
    let after = es.insert(p, e);
    assert forall|i: int, j: int| 0 <= i < j < after.len() implies lex_less(
        (#[trigger] after[i]).key@,
        (#[trigger] after[j]).key@,
    ) by {
        if j < p {
            assert(after[i] == es[i] && after[j] == es[j]);
        } else if i > p {
            assert(after[i] == es[i - 1] && after[j] == es[j - 1]);
        } else if i < p && j > p {
            assert(after[i] == es[i] && after[j] == es[j - 1]);
            if i < j - 1 {
                assert(lex_less(es[i].key@, es[j - 1].key@));
            }
            if i == j - 1 {
                lemma_lex_less_transitive(es[i].key@, e.key@, es[p].key@);
            }
        } else if i < p {
            assert(j == p && after[i] == es[i]);
            if i < p - 1 {
                assert(lex_less(es[i].key@, es[p - 1].key@));
                lemma_lex_less_transitive(es[i].key@, es[p - 1].key@, e.key@);
            }
        } else {
            assert(i == p && after[j] == es[j - 1]);
            if j - 1 > p {
                assert(lex_less(es[p].key@, es[j - 1].key@));
                lemma_lex_less_transitive(e.key@, es[p].key@, es[j - 1].key@);
            }
        }
    }
}

/// Where keys strictly increase in both, sequences of entries that stand for
/// the same map hold the same keys at their first `n` places.
proof fn lemma_same_view_same_keys(a: Seq<BEntry>, b: Seq<BEntry>, n: int)
    requires
        keys_increase(a),
        keys_increase(b),
        entries_view(a) == entries_view(b),
        0 <= n <= a.len(),
    ensures
        n <= b.len(),
        forall|i: int| 0 <= i < n ==> (#[trigger] a[i]).key@ == b[i].key@,
    decreases n,
{
    if n > 0 {
        lemma_same_view_same_keys(a, b, n - 1);
        let i = n - 1;
        // The key at `i` in `a` is in `b`, at `k`, and not before `i`, where
        // `b` holds the smaller keys of `a`.
        let ka = a[i].key@;
        lemma_lex_less_irreflexive(ka);
        lemma_entry_is_found(a, i);
        assert(entries_view(b).dom().contains(ka));
        assert(has_key(b, ka));
        let k = slot_of(b, ka);
        if k < i {
            assert(a[k].key@ == b[k].key@);
            assert(lex_less(a[k].key@, a[i].key@));
        }
        // In the same way the key at `i` in `b` is in `a`, at `l`, and not
        // before `i`.
        let kb = b[i].key@;
        lemma_lex_less_irreflexive(kb);
        lemma_entry_is_found(b, i);
        assert(entries_view(a).dom().contains(kb));
        assert(has_key(a, kb));
        let l = slot_of(a, kb);
        if l < i {
            assert(a[l].key@ == b[l].key@);
            assert(lex_less(b[l].key@, b[i].key@));
        }
        // Were both after `i`, each of the two keys would come before the
        // other.
        if k > i && l > i {
            assert(lex_less(b[i].key@, b[k].key@));
            assert(lex_less(a[i].key@, a[l].key@));
            lemma_lex_less_transitive(ka, kb, ka);
        }
    }
}

/// Where keys strictly increase in both, sequences of entries that stand for
/// the same map are as long as each other and hold, place by place, the same
/// key and values of the same value.
proof fn lemma_same_view_same_entries(a: Seq<BEntry>, b: Seq<BEntry>)
    requires
        keys_increase(a),
        keys_increase(b),
        entries_view(a) == entries_view(b),
    ensures
        a.len() == b.len(),
        forall|i: int|
            0 <= i < a.len() ==> (#[trigger] a[i]).key@ == b[i].key@ && a[i].value@ == b[i].value@,
{
    lemma_same_view_same_keys(a, b, a.len() as int);
    lemma_same_view_same_keys(b, a, b.len() as int);
    assert forall|i: int| 0 <= i < a.len() implies (#[trigger] a[i]).key@ == b[i].key@
        && a[i].value@ == b[i].value@ by {
        lemma_entry_is_found(a, i);
        lemma_entry_is_found(b, i);
    }
}

/// Where keys strictly increase in both, sequences of entries that hold,
/// place by place, the same key and values of the same value stand for the
/// same map.
proof fn lemma_same_entries_same_view(a: Seq<BEntry>, b: Seq<BEntry>)
    requires
        keys_increase(a),
        keys_increase(b),
        a.len() == b.len(),
        forall|i: int|
            0 <= i < a.len() ==> (#[trigger] a[i]).key@ == b[i].key@ && a[i].value@ == b[i].value@,
    ensures
        entries_view(a) == entries_view(b),
{
    assert forall|k: Seq<u8>| has_key(a, k) <==> has_key(b, k) by {
        if has_key(a, k) {
            let i = slot_of(a, k);
            assert(b[i].key@ == k);
        }
        if has_key(b, k) {
            let i = slot_of(b, k);
            assert(a[i].key@ == k);
        }
    }
    assert forall|k: Seq<u8>| has_key(a, k) implies #[trigger] entries_view(a)[k] == entries_view(
        b,
    )[k] by {
        let i = slot_of(a, k);
        lemma_entry_is_found(a, i);
        lemma_entry_is_found(b, i);
    }
    assert(entries_view(a) =~= entries_view(b));
}

/// Lists stand for the same sequence exactly when they are as long as each
/// other and hold, place by place, elements of the same value.
proof fn lemma_same_list(a: BList, b: BList)
    ensures
        (a@ == b@) == (a.items@.len() == b.items@.len() && forall|i: int|
            0 <= i < a.items@.len() ==> (#[trigger] a.items@[i])@ == b.items@[i]@),
{
    if a@ == b@ {
        assert(a@.len() == b@.len());
        assert forall|i: int| 0 <= i < a.items@.len() implies (#[trigger] a.items@[i])@
            == b.items@[i]@ by {
            assert(a@[i] == b@[i]);
        }
    } else if a.items@.len() == b.items@.len() && forall|i: int|
        0 <= i < a.items@.len() ==> (#[trigger] a.items@[i])@ == b.items@[i]@ {
        assert(a@ =~= b@);
    }
}

/// Whether two elements stand for the same value.
fn same_value(a: &BencodeValue, b: &BencodeValue) -> (same: bool)
    ensures
        same == (a@ == b@),
    decreases a,
{
    match (a, b) {
        (BencodeValue::String(x), BencodeValue::String(y)) => bytes_equal(x.content, y.content),
        (BencodeValue::Integer(x), BencodeValue::Integer(y)) => x.value == y.value,
        (BencodeValue::List(x), BencodeValue::List(y)) => {
            proof {
                lemma_same_list(*x, *y);
            }
            same_items(&x.items, &y.items)
        },
        (BencodeValue::Dictionary(x), BencodeValue::Dictionary(y)) => {
            proof {
                use_type_invariant(x);
                use_type_invariant(y);
            }
            same_entries(&x.entries, &y.entries)
        },
        _ => false,
    }
}

/// Whether two lists hold, place by place, elements of the same value.
fn same_items(a: &Vec<BencodeValue>, b: &Vec<BencodeValue>) -> (same: bool)
    ensures
        same == (a@.len() == b@.len() && forall|i: int|
            0 <= i < a@.len() ==> (#[trigger] a@[i])@ == b@[i]@),
    decreases a,
{
    if a.len() != b.len() {
        return false;
    }
    let mut i: usize = 0;
    while i < a.len()
        invariant
            i <= a@.len(),
            a@.len() == b@.len(),
            forall|j: int| 0 <= j < i ==> (#[trigger] a@[j])@ == b@[j]@,
        decreases a@.len() - i,
    {
        if !same_value(&a[i], &b[i]) {
            return false;
        }
        i += 1;
    }
    true
}

/// Whether two dictionaries hold the same bindings.
fn same_entries(a: &Vec<BEntry>, b: &Vec<BEntry>) -> (same: bool)
    requires
        keys_increase(a@),
        keys_increase(b@),
    ensures
        same == (entries_view(a@) == entries_view(b@)),
    decreases a,
{
    proof {
        if entries_view(a@) == entries_view(b@) {
            lemma_same_view_same_entries(a@, b@);
        }
    }
    if a.len() != b.len() {
        return false;
    }
    let mut i: usize = 0;
    while i < a.len()
        invariant
            i <= a@.len(),
            a@.len() == b@.len(),
            entries_view(a@) == entries_view(b@) ==> forall|j: int|
                0 <= j < a@.len() ==> (#[trigger] a@[j]).key@ == b@[j].key@ && a@[j].value@
                    == b@[j].value@,
            forall|j: int|
                0 <= j < i ==> (#[trigger] a@[j]).key@ == b@[j].key@ && a@[j].value@
                    == b@[j].value@,
        decreases a@.len() - i,
    {
        if !bytes_equal(a[i].key.content, b[i].key.content) {
            return false;
        }
        if !same_value(&a[i].value, &b[i].value) {
            return false;
        }
        i += 1;
    }
    proof {
        lemma_same_entries_same_view(a@, b@);
    }
    true
}

/// Copies an element.
fn copy_value<'a>(a: &BencodeValue<'a>) -> (copy: BencodeValue<'a>)
    ensures
        copy@ == a@,
    decreases a,
{
    match a {
        BencodeValue::String(s) => BencodeValue::String(BString { content: s.content }),
        BencodeValue::Integer(n) => BencodeValue::Integer(BInteger { value: n.value }),
        BencodeValue::List(l) => {
            let list = BList { items: copy_items(&l.items) };
            proof {
                lemma_same_list(list, *l);
            }
            BencodeValue::List(list)
        },
        BencodeValue::Dictionary(d) => {
            proof {
                use_type_invariant(d);
            }
            let entries = copy_entries(&d.entries);
            proof {
                lemma_same_entries_same_view(entries@, d.entries@);
            }
            BencodeValue::Dictionary(BDictionary { entries })
        },
    }
}

/// Copies the elements of a list.
fn copy_items<'a>(a: &Vec<BencodeValue<'a>>) -> (copy: Vec<BencodeValue<'a>>)
    ensures
        copy@.len() == a@.len(),
        forall|i: int| 0 <= i < copy@.len() ==> (#[trigger] copy@[i])@ == a@[i]@,
    decreases a,
{
    let mut copy: Vec<BencodeValue<'a>> = Vec::new();
    let mut i: usize = 0;
    while i < a.len()
        invariant
            i <= a@.len(),
            copy@.len() == i,
            forall|j: int| 0 <= j < i ==> (#[trigger] copy@[j])@ == a@[j]@,
        decreases a@.len() - i,
    {
        copy.push(copy_value(&a[i]));
        i += 1;
    }
    copy
}

/// Copies the entries of a dictionary.
fn copy_entries<'a>(a: &Vec<BEntry<'a>>) -> (copy: Vec<BEntry<'a>>)
    requires
        keys_increase(a@),
    ensures
        keys_increase(copy@),
        copy@.len() == a@.len(),
        forall|i: int|
            0 <= i < copy@.len() ==> (#[trigger] copy@[i]).key@ == a@[i].key@ && copy@[i].value@
                == a@[i].value@,
    decreases a,
{
    let mut copy: Vec<BEntry<'a>> = Vec::new();
    let mut i: usize = 0;
    while i < a.len()
        invariant
            i <= a@.len(),
            copy@.len() == i,
            forall|j: int|
                0 <= j < i ==> (#[trigger] copy@[j]).key@ == a@[j].key@ && copy@[j].value@
                    == a@[j].value@,
        decreases a@.len() - i,
    {
        let entry = BEntry {
            key: BString { content: a[i].key.content },
            value: copy_value(&a[i].value),
        };
        copy.push(entry);
        i += 1;
    }
    assert forall|i: int, j: int| 0 <= i < j < copy@.len() implies lex_less(
        (#[trigger] copy@[i]).key@,
        (#[trigger] copy@[j]).key@,
    ) by {
        assert(lex_less(a@[i].key@, a@[j].key@));
    }
    copy
}

impl<'a> Clone for BString<'a> {
    fn clone(&self) -> (copy: Self)
        ensures
            copy == *self,
    {
        BString { content: self.content }
    }
}

impl Clone for BInteger {
    fn clone(&self) -> (copy: Self)
        ensures
            copy == *self,
    {
        BInteger { value: self.value }
    }
}

impl<'a> Clone for BList<'a> {
    fn clone(&self) -> (copy: Self)
        ensures
            copy@ == self@,
    {
        let copy = BList { items: copy_items(&self.items) };
        proof {
            lemma_same_list(copy, *self);
        }
        copy
    }
}

impl<'a> Clone for BDictionary<'a> {
    fn clone(&self) -> (copy: Self)
        ensures
            copy@ == self@,
    {
        proof {
            use_type_invariant(self);
        }
        let entries = copy_entries(&self.entries);
        proof {
            lemma_same_entries_same_view(entries@, self.entries@);
        }
        BDictionary { entries }
    }
}

impl<'a> Clone for BencodeValue<'a> {
    fn clone(&self) -> (copy: Self)
        ensures
            copy@ == self@,
    {
        copy_value(self)
    }
}

impl<'a> PartialEq for BString<'a> {
    fn eq(&self, other: &Self) -> (same: bool) {
        bytes_equal(self.content, other.content)
    }
}

impl<'a> vstd::std_specs::cmp::PartialEqSpecImpl for BString<'a> {
    open spec fn obeys_eq_spec() -> bool {
        true
    }

    open spec fn eq_spec(&self, other: &Self) -> bool {
        self@ == other@
    }
}

impl PartialEq for BInteger {
    fn eq(&self, other: &Self) -> (same: bool) {
        self.value == other.value
    }
}

impl vstd::std_specs::cmp::PartialEqSpecImpl for BInteger {
    open spec fn obeys_eq_spec() -> bool {
        true
    }

    open spec fn eq_spec(&self, other: &Self) -> bool {
        self@ == other@
    }
}

impl<'a> PartialEq for BList<'a> {
    fn eq(&self, other: &Self) -> (same: bool) {
        proof {
            lemma_same_list(*self, *other);
        }
        same_items(&self.items, &other.items)
    }
}

impl<'a> vstd::std_specs::cmp::PartialEqSpecImpl for BList<'a> {
    open spec fn obeys_eq_spec() -> bool {
        true
    }

    open spec fn eq_spec(&self, other: &Self) -> bool {
        self@ == other@
    }
}

impl<'a> PartialEq for BDictionary<'a> {
    fn eq(&self, other: &Self) -> (same: bool) {
        proof {
            use_type_invariant(self);
            use_type_invariant(other);
        }
        same_entries(&self.entries, &other.entries)
    }
}

impl<'a> vstd::std_specs::cmp::PartialEqSpecImpl for BDictionary<'a> {
    open spec fn obeys_eq_spec() -> bool {
        true
    }

    open spec fn eq_spec(&self, other: &Self) -> bool {
        self@ == other@
    }
}

impl<'a> PartialEq for BencodeValue<'a> {
    fn eq(&self, other: &Self) -> (same: bool) {
        same_value(self, other)
    }
}

impl<'a> vstd::std_specs::cmp::PartialEqSpecImpl for BencodeValue<'a> {
    open spec fn obeys_eq_spec() -> bool {
        true
    }

    open spec fn eq_spec(&self, other: &Self) -> bool {
        self@ == other@
    }
}

impl<'a> BDictionary<'a> {
    #[verifier::type_invariant]
    spec fn ordered(self) -> bool {
        keys_increase(self.entries@)
    }

    /// The dictionary without entries.
    pub fn new() -> (d: Self)
        ensures
            d@ == Map::<Seq<u8>, Bencode>::empty(),
    {
        let d = BDictionary { entries: Vec::new() };
        assert(d@ =~= Map::<Seq<u8>, Bencode>::empty());
        d
    }

    /// Binds `key` to `value`. A value bound to the same key before is
    /// replaced.
    pub fn insert(&mut self, key: BString<'a>, value: BencodeValue<'a>)
        ensures
            final(self)@ == old(self)@.insert(key@, value@),
    {
        proof {
            use_type_invariant(&*self);
        }
        let mut entries: Vec<BEntry<'a>> = Vec::new();
        std::mem::swap(&mut entries, &mut self.entries);
        let ghost before = entries@;
        let mut p: usize = entries.len();
        while p > 0 && !bytes_less(entries[p - 1].key.content, key.content)
            invariant
                p <= entries@.len(),
                entries@ == before,
                forall|j: int| p <= j < entries@.len() ==> !lex_less(entries@[j].key@, key@),
            decreases p,
        {
            p -= 1;
        }
        let entry = BEntry { key, value };
        if p < entries.len() && bytes_equal(entries[p].key.content, entry.key.content) {
            proof {
                lemma_replace_entry(before, p as int, entry);
            }
            entries.set(p, entry);
        } else {
            proof {
                if p < before.len() {
                    lemma_lex_less_total(entry.key@, before[p as int].key@);
                }
                lemma_insert_keeps_order(before, p as int, entry);
                lemma_insert_entry(before, p as int, entry);
            }
            entries.insert(p, entry);
        }
        self.entries = entries;
    }

    /// The number of keys.
    pub fn len(&self) -> (count: usize)
        ensures
            self@.dom().finite(),
            count == self@.dom().len(),
    {
        proof {
            use_type_invariant(self);
            lemma_entries_count(self.entries@);
        }
        self.entries.len()
    }

    /// The bindings, each key once with the value bound to it, in
    /// increasing lexicographic order of the keys.
    pub fn entries<'s>(&'s self) -> (bindings: Vec<(BString<'a>, &'s BencodeValue<'a>)>)
        ensures
            bindings@.len() == self@.dom().len(),
            forall|i: int|
                0 <= i < bindings@.len() ==> self@.dom().contains((#[trigger] bindings@[i]).0@)
                    && bindings@[i].1@ == self@[bindings@[i].0@],
            forall|k: Seq<u8>|
                self@.dom().contains(k) ==> exists|i: int|
                    0 <= i < bindings@.len() && (#[trigger] bindings@[i]).0@ == k,
            forall|i: int, j: int|
                0 <= i < j < bindings@.len() ==> lex_less(
                    (#[trigger] bindings@[i]).0@,
                    (#[trigger] bindings@[j]).0@,
                ),
    {
        proof {
            use_type_invariant(self);
            lemma_entries_count(self.entries@);
        }
        let mut bindings: Vec<(BString<'a>, &'s BencodeValue<'a>)> = Vec::new();
        let mut i: usize = 0;
        while i < self.entries.len()
            invariant
                i <= self.entries@.len(),
                bindings@.len() == i,
                forall|j: int|
                    0 <= j < i ==> (#[trigger] bindings@[j]).0@ == self.entries@[j].key@
                        && bindings@[j].1@ == self.entries@[j].value@,
            decreases self.entries@.len() - i,
        {
            let entry = &self.entries[i];
            bindings.push((BString { content: entry.key.content }, &entry.value));
            i += 1;
        }
        proof {
            assert forall|j: int| 0 <= j < bindings@.len() implies self@.dom().contains(
                (#[trigger] bindings@[j]).0@,
            ) && bindings@[j].1@ == self@[bindings@[j].0@] by {
                lemma_entry_is_found(self.entries@, j);
            }
            assert forall|k: Seq<u8>| self@.dom().contains(k) implies exists|j: int|
                0 <= j < bindings@.len() && (#[trigger] bindings@[j]).0@ == k by {
                let j = slot_of(self.entries@, k);
                assert(bindings@[j].0@ == k);
            }
            assert forall|j: int, l: int| 0 <= j < l < bindings@.len() implies lex_less(
                (#[trigger] bindings@[j]).0@,
                (#[trigger] bindings@[l]).0@,
            ) by {
                assert(lex_less(self.entries@[j].key@, self.entries@[l].key@));
            }
        }
        bindings
    }

    /// The value bound to `key`, if there is one.
    pub fn get(&self, key: &BString) -> (found: Option<&BencodeValue<'a>>)
        ensures
            match found {
                Some(value) => self@.dom().contains(key@) && value@ == self@[key@],
                None => !self@.dom().contains(key@),
            },
    {
        proof {
            use_type_invariant(self);
        }
        let mut i: usize = 0;
        while i < self.entries.len()
            invariant
                i <= self.entries@.len(),
                keys_increase(self.entries@),
                forall|j: int| 0 <= j < i ==> self.entries@[j].key@ != key@,
            decreases self.entries@.len() - i,
        {
            if bytes_equal(self.entries[i].key.content, key.content) {
                proof {
                    lemma_entry_is_found(self.entries@, i as int);
                }
                return Some(&self.entries[i].value);
            }
            i += 1;
        }
        assert(!has_key(self.entries@, key@));
        None
    }
}

} // verus!
