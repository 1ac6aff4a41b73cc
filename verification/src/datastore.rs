//! The byte-keyed datastore that an address owns, kept in key order.

use crate::bytes::{bytes_equal, bytes_lt, compare_bytes, copy_bytes, KeyOrder};
use crate::bytes::{lemma_bytes_lt_asymmetric, lemma_bytes_lt_irreflexive, lemma_bytes_lt_transitive};
use vstd::prelude::*;

verus! {

/// Keys and values of a datastore as plain byte strings, in storage order.
pub type Pairs = Seq<(Seq<u8>, Seq<u8>)>;

/// Every key comes strictly before the keys behind it.
pub open spec fn sorted_keys(pairs: Pairs) -> bool {
    forall|i: int, j: int| 0 <= i < j < pairs.len() ==> bytes_lt(#[trigger] key_of(pairs, i), #[trigger] key_of(pairs, j))
}

/// The key stored at index `i`.
pub open spec fn key_of(pairs: Pairs, i: int) -> Seq<u8> {
    pairs[i].0
}

/// Index `i` holds `key`.
pub open spec fn key_at(pairs: Pairs, key: Seq<u8>, i: int) -> bool {
    0 <= i < pairs.len() && key_of(pairs, i) == key
}

/// The value stored under `key`, if any.
pub open spec fn value_at(pairs: Pairs, key: Seq<u8>) -> Option<Seq<u8>> {
    if exists|i: int| key_at(pairs, key, i) {
        Some(pairs[choose|i: int| key_at(pairs, key, i)].1)
    } else {
        None
    }
}

/// How many keys of a sorted datastore come before `key`: the index at which
/// `key` is stored, or would have to be.
pub open spec fn keys_before(pairs: Pairs, key: Seq<u8>) -> int
    decreases pairs.len(),
{
    if pairs.len() == 0 {
        0
    } else if bytes_lt(key_of(pairs, pairs.len() - 1), key) {
        pairs.len() as int
    } else {
        keys_before(pairs.drop_last(), key)
    }
}

/// Whether a sorted datastore holds `key`.
pub open spec fn holds_key(pairs: Pairs, key: Seq<u8>) -> bool {
    keys_before(pairs, key) < pairs.len() && key_of(pairs, keys_before(pairs, key)) == key
}

/// A sorted datastore with `value` under `key`: in place of the value that the
/// key had, or as a new pair at the place of the key.
pub open spec fn with_pair(pairs: Pairs, key: Seq<u8>, value: Seq<u8>) -> Pairs {
    if holds_key(pairs, key) {
        pairs.update(keys_before(pairs, key), (key, value))
    } else {
        pairs.insert(keys_before(pairs, key), (key, value))
    }
}

/// A sorted datastore without `key`.
pub open spec fn without_key(pairs: Pairs, key: Seq<u8>) -> Pairs {
    if holds_key(pairs, key) {
        pairs.remove(keys_before(pairs, key))
    } else {
        pairs
    }
}

/// The index that parts the keys before `key` from the others is the number
/// of keys before `key`.
pub proof fn lemma_keys_before(pairs: Pairs, key: Seq<u8>, i: int)
    requires
        0 <= i <= pairs.len(),
        forall|j: int| 0 <= j < i ==> bytes_lt(#[trigger] key_of(pairs, j), key),
        forall|j: int| i <= j < pairs.len() ==> !bytes_lt(#[trigger] key_of(pairs, j), key),
    ensures
        keys_before(pairs, key) == i,
    decreases pairs.len(),
{
    if pairs.len() > 0 {
        let last = pairs.len() - 1;
        if i <= last {
            assert(!bytes_lt(key_of(pairs, last), key));
            let rest = pairs.drop_last();
            assert forall|j: int| 0 <= j < i implies bytes_lt(#[trigger] key_of(rest, j), key) by {
                assert(key_of(rest, j) == key_of(pairs, j));
            }
            assert forall|j: int| i <= j < rest.len() implies !bytes_lt(#[trigger] key_of(rest, j), key) by {
                assert(key_of(rest, j) == key_of(pairs, j));
            }
            lemma_keys_before(rest, key, i);
        } else {
            assert(bytes_lt(key_of(pairs, last), key));
        }
    }
}

/// In a sorted datastore a key sits at one index only, so that index gives its value.
pub proof fn lemma_value_at_index(pairs: Pairs, key: Seq<u8>, i: int)
    requires
        sorted_keys(pairs),
        key_at(pairs, key, i),
    ensures
        value_at(pairs, key) == Some(pairs[i].1),
{
    let p = choose|p: int| key_at(pairs, key, p);
    lemma_bytes_lt_irreflexive(key);
    if p < i {
        assert(bytes_lt(key_of(pairs, p), key_of(pairs, i)));
    } else if i < p {
        assert(bytes_lt(key_of(pairs, i), key_of(pairs, p)));
    }
}

/// Two sorted datastores that give the same value for every key are the same sequence.
pub proof fn lemma_sorted_pairs_canonical(a: Pairs, b: Pairs)
    requires
        sorted_keys(a),
        sorted_keys(b),
        forall|key: Seq<u8>| value_at(a, key) == value_at(b, key),
    ensures
        a == b,
    decreases a.len(),
{
    if a.len() == 0 {
        if b.len() > 0 {
            assert(key_at(b, key_of(b, 0), 0));
            assert(value_at(a, key_of(b, 0)) is None);
        }
        assert(a =~= b);
    } else if b.len() == 0 {
        assert(key_at(a, key_of(a, 0), 0));
        assert(value_at(b, key_of(a, 0)) is None);
    } else {
        let la = a.len() - 1;
        let lb = b.len() - 1;
        let ka = key_of(a, la);
        let kb = key_of(b, lb);
        // the largest keys agree
        assert(key_at(a, ka, la));
        assert(key_at(b, kb, lb));
        lemma_value_at_index(a, ka, la);
        lemma_value_at_index(b, kb, lb);
        let ia = choose|i: int| key_at(b, ka, i);
        let ib = choose|i: int| key_at(a, kb, i);
        assert(key_at(b, ka, ia));
        assert(key_at(a, kb, ib));
        if ka != kb {
            if ia < lb {
                assert(bytes_lt(key_of(b, ia), key_of(b, lb)));
            }
            if ib < la {
                assert(bytes_lt(key_of(a, ib), key_of(a, la)));
            }
            lemma_bytes_lt_asymmetric(ka, kb);
        }
        lemma_value_at_index(b, ka, lb);
        let a0 = a.drop_last();
        let b0 = b.drop_last();
        assert(sorted_keys(a0)) by {
            assert forall|i: int, j: int| 0 <= i < j < a0.len() implies bytes_lt(
                #[trigger] key_of(a0, i),
                #[trigger] key_of(a0, j),
            ) by {
                assert(bytes_lt(key_of(a, i), key_of(a, j)));
            }
        }
        assert(sorted_keys(b0)) by {
            assert forall|i: int, j: int| 0 <= i < j < b0.len() implies bytes_lt(
                #[trigger] key_of(b0, i),
                #[trigger] key_of(b0, j),
            ) by {
                assert(bytes_lt(key_of(b, i), key_of(b, j)));
            }
        }
        assert forall|key: Seq<u8>| value_at(a0, key) == value_at(b0, key) by {
            lemma_drop_last_lookup(a, key);
            lemma_drop_last_lookup(b, key);
        }
        lemma_sorted_pairs_canonical(a0, b0);
        assert(a =~= a0.push(a[la]));
        assert(b =~= b0.push(b[lb]));
    }
}

/// Looking a key up without the last pair: gone if it was the last key, unchanged otherwise.
proof fn lemma_drop_last_lookup(pairs: Pairs, key: Seq<u8>)
    requires
        sorted_keys(pairs),
        pairs.len() > 0,
    ensures
        value_at(pairs.drop_last(), key) == if key == key_of(pairs, pairs.len() - 1) {
            None
        } else {
            value_at(pairs, key)
        },
{
    let rest = pairs.drop_last();
    let last = pairs.len() - 1;
    assert(sorted_keys(rest)) by {
        assert forall|i: int, j: int| 0 <= i < j < rest.len() implies bytes_lt(
            #[trigger] key_of(rest, i),
            #[trigger] key_of(rest, j),
        ) by {
            assert(bytes_lt(key_of(pairs, i), key_of(pairs, j)));
        }
    }
    if exists|i: int| key_at(rest, key, i) {
        let i = choose|i: int| key_at(rest, key, i);
        assert(key_at(pairs, key, i));
        lemma_value_at_index(pairs, key, i);
        lemma_value_at_index(rest, key, i);
        assert(bytes_lt(key_of(pairs, i), key_of(pairs, last)));
        lemma_bytes_lt_irreflexive(key);
    } else if exists|i: int| key_at(pairs, key, i) {
        let i = choose|i: int| key_at(pairs, key, i);
        if i < last {
            assert(key_at(rest, key, i));
        }
    }
}

/// A datastore: byte values under byte keys, iterated in lexicographic key order.
#[derive(Debug)]
pub struct Datastore {
    entries: Vec<(Vec<u8>, Vec<u8>)>,
}

impl View for Datastore {
    type V = Pairs;

    closed spec fn view(&self) -> Pairs {
        self.entries@.map_values(|e: (Vec<u8>, Vec<u8>)| (e.0@, e.1@))
    }
}

impl Datastore {
    #[verifier::type_invariant]
    spec fn in_key_order(self) -> bool {
        sorted_keys(self@)
    }

    /// The empty datastore.
    pub fn new() -> (store: Datastore)
        ensures
            store@ == Pairs::empty(),
    {
        let store = Datastore { entries: Vec::new() };
        assert(store@ =~= Pairs::empty());
        store
    }

    /// Number of keys.
    pub fn len(&self) -> (n: usize)
        ensures
            n == self@.len(),
            sorted_keys(self@),
    {
        proof {
            use_type_invariant(self);
        }
        self.entries.len()
    }

    /// Where `key` is, or where it would have to go; found by halving.
    fn locate(&self, key: &Vec<u8>) -> (r: (bool, usize))
        ensures
            sorted_keys(self@),
            r.1 <= self@.len(),
            r.0 ==> key_at(self@, key@, r.1 as int),
            !r.0 ==> value_at(self@, key@) is None,
            r.1 == keys_before(self@, key@),
            r.0 == holds_key(self@, key@),
            forall|j: int| 0 <= j < r.1 ==> bytes_lt(#[trigger] key_of(self@, j), key@),
            forall|j: int| r.1 <= j < self@.len() && !(r.0 && j == r.1) ==> bytes_lt(key@, #[trigger] key_of(self@, j)),
    {
        proof {
            use_type_invariant(self);
        }
        let mut low: usize = 0;
        let mut high: usize = self.entries.len();
        let mut found = false;
        while low < high
            invariant_except_break
                !found,
            invariant
                low <= high <= self.entries.len(),
                sorted_keys(self@),
                self@.len() == self.entries.len(),
                forall|j: int| 0 <= j < low ==> bytes_lt(#[trigger] key_of(self@, j), key@),
                forall|j: int| high <= j < self@.len() ==> bytes_lt(key@, #[trigger] key_of(self@, j)),
            ensures
                low <= self.entries.len(),
                found ==> key_at(self@, key@, low as int),
                forall|j: int| 0 <= j < low ==> bytes_lt(#[trigger] key_of(self@, j), key@),
                forall|j: int|
                    low <= j < self@.len() && !(found && j == low) ==> bytes_lt(key@, #[trigger] key_of(self@, j)),
            decreases high - low,
        {
            let middle = low + (high - low) / 2;
            let order = compare_bytes(&self.entries[middle].0, key);
            assert(key_of(self@, middle as int) == self.entries[middle as int].0@);
            match order {
                KeyOrder::Before => {
                    assert forall|j: int| 0 <= j < middle + 1 implies bytes_lt(#[trigger] key_of(self@, j), key@) by {
                        if j < middle {
                            assert(bytes_lt(key_of(self@, j), key_of(self@, middle as int)));
                            lemma_bytes_lt_transitive(key_of(self@, j), key_of(self@, middle as int), key@);
                        }
                    }
                    low = middle + 1;
                },
                KeyOrder::Same => {
                    assert forall|j: int| 0 <= j < middle implies bytes_lt(#[trigger] key_of(self@, j), key@) by {
                        assert(bytes_lt(key_of(self@, j), key_of(self@, middle as int)));
                    }
                    assert forall|j: int| middle < j < self@.len() implies bytes_lt(
                        key@,
                        #[trigger] key_of(self@, j),
                    ) by {
                        assert(bytes_lt(key_of(self@, middle as int), key_of(self@, j)));
                    }
                    low = middle;
                    found = true;
                    break;
                },
                KeyOrder::After => {
                    assert forall|j: int| middle <= j < self@.len() implies bytes_lt(
                        key@,
                        #[trigger] key_of(self@, j),
                    ) by {
                        if middle < j {
                            assert(bytes_lt(key_of(self@, middle as int), key_of(self@, j)));
                            lemma_bytes_lt_transitive(key@, key_of(self@, middle as int), key_of(self@, j));
                        }
                    }
                    high = middle;
                },
            }
        }
        let i = low;
        proof {
            lemma_bytes_lt_irreflexive(key@);
            assert forall|j: int| i <= j < self@.len() implies !bytes_lt(#[trigger] key_of(self@, j), key@) by {
                if !(found && j == i) {
                    lemma_bytes_lt_asymmetric(key@, key_of(self@, j));
                }
            }
            lemma_keys_before(self@, key@, i as int);
            if !found {
                if exists|p: int| key_at(self@, key@, p) {
                    let p = choose|p: int| key_at(self@, key@, p);
                    if p < i {
                        assert(bytes_lt(key_of(self@, p), key@));
                    } else {
                        assert(bytes_lt(key@, key_of(self@, p)));
                    }
                }
            }
        }
        (found, i)
    }

    /// A copy of the value under `key`; `None` when the key is absent.
    pub fn get(&self, key: &Vec<u8>) -> (value: Option<Vec<u8>>)
        ensures
            value is Some <==> value_at(self@, key@) is Some,
            value is Some ==> value_at(self@, key@) == Some(value->0@),
    {
        let (found, i) = self.locate(key);
        if found {
            proof {
                lemma_value_at_index(self@, key@, i as int);
            }
            Some(copy_bytes(&self.entries[i].1))
        } else {
            None
        }
    }

    /// Whether `key` is present.
    pub fn contains_key(&self, key: &Vec<u8>) -> (present: bool)
        ensures
            present == value_at(self@, key@) is Some,
            present == holds_key(self@, key@),
    {
        let (found, i) = self.locate(key);
        proof {
            if found {
                lemma_value_at_index(self@, key@, i as int);
            }
        }
        found
    }

    /// Stores `value` under `key`, replacing what was there.
    pub fn set(&mut self, key: Vec<u8>, value: Vec<u8>)
        ensures
            final(self)@ == with_pair(old(self)@, key@, value@),
            sorted_keys(final(self)@),
            forall|k: Seq<u8>| #[trigger]
                value_at(final(self)@, k) == if k == key@ {
                    Some(value@)
                } else {
                    value_at(old(self)@, k)
                },
    {
        let (found, i) = self.locate(&key);
        let ghost before = self@;
        let ghost k0 = key@;
        let ghost v0 = value@;
        let mut entries: Vec<(Vec<u8>, Vec<u8>)> = Vec::new();
        std::mem::swap(&mut entries, &mut self.entries);
        assert(entries@.map_values(|e: (Vec<u8>, Vec<u8>)| (e.0@, e.1@)) == before);
        if found {
            entries.set(i, (key, value));
        } else {
            entries.insert(i, (key, value));
        }
        let ghost after = entries@.map_values(|e: (Vec<u8>, Vec<u8>)| (e.0@, e.1@));
        proof {
            if found {
                assert(after =~= before.update(i as int, (k0, v0)));
                lemma_update_sorted(before, i as int, k0, v0);
            } else {
                assert(after =~= before.insert(i as int, (k0, v0)));
                lemma_insert_sorted(before, i as int, k0, v0);
            }
        }
        self.entries = entries;
        assert(self@ == after);
    }

    /// Removes `key`; says whether it was present.
    pub fn remove(&mut self, key: &Vec<u8>) -> (was_present: bool)
        ensures
            final(self)@ == without_key(old(self)@, key@),
            sorted_keys(final(self)@),
            was_present == value_at(old(self)@, key@) is Some,
            forall|k: Seq<u8>| #[trigger]
                value_at(final(self)@, k) == if k == key@ {
                    None
                } else {
                    value_at(old(self)@, k)
                },
    {
        let (found, i) = self.locate(key);
        let ghost before = self@;
        if found {
            let mut entries: Vec<(Vec<u8>, Vec<u8>)> = Vec::new();
            std::mem::swap(&mut entries, &mut self.entries);
            assert(entries@.map_values(|e: (Vec<u8>, Vec<u8>)| (e.0@, e.1@)) == before);
            entries.remove(i);
            let ghost after = entries@.map_values(|e: (Vec<u8>, Vec<u8>)| (e.0@, e.1@));
            proof {
                assert(after =~= before.remove(i as int));
                lemma_remove_sorted(before, i as int, key@);
            }
            self.entries = entries;
            assert(self@ == after);
        }
        proof {
            if found {
                lemma_value_at_index(before, key@, i as int);
            }
        }
        found
    }

    /// Every key, in lexicographic order.
    pub fn keys(&self) -> (keys: Vec<Vec<u8>>)
        ensures
            keys@.len() == self@.len(),
            forall|i: int| 0 <= i < keys@.len() ==> (#[trigger] keys@[i])@ == key_of(self@, i),
            forall|i: int, j: int| 0 <= i < j < keys@.len() ==> bytes_lt(#[trigger] keys@[i]@, #[trigger] keys@[j]@),
    {
        proof {
            use_type_invariant(self);
        }
        let mut keys: Vec<Vec<u8>> = Vec::new();
        let mut i: usize = 0;
        while i < self.entries.len()
            invariant
                i <= self.entries.len(),
                self@.len() == self.entries.len(),
                keys@.len() == i,
                forall|j: int| 0 <= j < i ==> (#[trigger] keys@[j])@ == key_of(self@, j),
            decreases self.entries.len() - i,
        {
            keys.push(copy_bytes(&self.entries[i].0));
            i += 1;
        }
        assert forall|i: int, j: int| 0 <= i < j < keys@.len() implies bytes_lt(#[trigger] keys@[i]@, #[trigger] keys@[j]@) by {
            assert(bytes_lt(key_of(self@, i), key_of(self@, j)));
        }
        keys
    }

    /// Whether two datastores hold the same pairs.
    pub fn same_as(&self, other: &Datastore) -> (same: bool)
        ensures
            same == (self@ == other@),
    {
        if self.entries.len() != other.entries.len() {
            return false;
        }
        let mut i: usize = 0;
        while i < self.entries.len()
            invariant
                i <= self.entries.len(),
                self.entries.len() == other.entries.len(),
                self@.len() == self.entries.len(),
                other@.len() == other.entries.len(),
                forall|j: int| 0 <= j < i ==> self@[j] == other@[j],
            decreases self.entries.len() - i,
        {
            if !bytes_equal(&self.entries[i].0, &other.entries[i].0) || !bytes_equal(&self.entries[i].1, &other.entries[i].1) {
                assert(self@[i as int] != other@[i as int]);
                return false;
            }
            i += 1;
        }
        assert(self@ =~= other@);
        true
    }
}

impl Clone for Datastore {
    fn clone(&self) -> (copy: Datastore)
        ensures
            copy@ == self@,
    {
        proof {
            use_type_invariant(self);
        }
        let mut entries: Vec<(Vec<u8>, Vec<u8>)> = Vec::new();
        let mut i: usize = 0;
        while i < self.entries.len()
            invariant
                i <= self.entries.len(),
                self@.len() == self.entries.len(),
                entries@.len() == i,
                forall|j: int| 0 <= j < i ==> (#[trigger] entries@[j]).0@ == self@[j].0 && entries@[j].1@ == self@[j].1,
            decreases self.entries.len() - i,
        {
            entries.push((copy_bytes(&self.entries[i].0), copy_bytes(&self.entries[i].1)));
            i += 1;
        }
        assert(entries@.map_values(|e: (Vec<u8>, Vec<u8>)| (e.0@, e.1@)) =~= self@);
        Datastore { entries }
    }
}

/// Replacing the value of a key that is present keeps the order and changes that key only.
proof fn lemma_update_sorted(pairs: Pairs, i: int, key: Seq<u8>, value: Seq<u8>)
    requires
        sorted_keys(pairs),
        key_at(pairs, key, i),
    ensures
        sorted_keys(pairs.update(i, (key, value))),
        forall|k: Seq<u8>| #[trigger]
            value_at(pairs.update(i, (key, value)), k) == if k == key {
                Some(value)
            } else {
                value_at(pairs, k)
            },
{
    let after = pairs.update(i, (key, value));
    assert forall|a: int, b: int| 0 <= a < b < after.len() implies bytes_lt(#[trigger] key_of(after, a), #[trigger] key_of(after, b)) by {
        assert(bytes_lt(key_of(pairs, a), key_of(pairs, b)));
    }
    assert forall|k: Seq<u8>| #[trigger]
        value_at(after, k) == if k == key {
            Some(value)
        } else {
            value_at(pairs, k)
        } by {
        if k == key {
            assert(key_at(after, k, i));
            lemma_value_at_index(after, k, i);
        } else if exists|p: int| key_at(pairs, k, p) {
            let p = choose|p: int| key_at(pairs, k, p);
            assert(key_at(after, k, p));
            lemma_value_at_index(after, k, p);
            lemma_value_at_index(pairs, k, p);
        } else if exists|p: int| key_at(after, k, p) {
            let p = choose|p: int| key_at(after, k, p);
            assert(key_at(pairs, k, p));
        }
    }
}

/// Inserting an absent key at its place keeps the order and adds that key only.
proof fn lemma_insert_sorted(pairs: Pairs, i: int, key: Seq<u8>, value: Seq<u8>)
    requires
        sorted_keys(pairs),
        0 <= i <= pairs.len(),
        forall|j: int| 0 <= j < i ==> bytes_lt(#[trigger] key_of(pairs, j), key),
        forall|j: int| i <= j < pairs.len() ==> bytes_lt(key, #[trigger] key_of(pairs, j)),
    ensures
        sorted_keys(pairs.insert(i, (key, value))),
        forall|k: Seq<u8>| #[trigger]
            value_at(pairs.insert(i, (key, value)), k) == if k == key {
                Some(value)
            } else {
                value_at(pairs, k)
            },
{
    let after = pairs.insert(i, (key, value));
    assert forall|a: int, b: int| 0 <= a < b < after.len() implies bytes_lt(#[trigger] key_of(after, a), #[trigger] key_of(after, b)) by {
        let a0 = if a < i { a } else { a - 1 };
        let b0 = if b < i { b } else { b - 1 };
        if a == i {
            assert(key_of(after, b) == key_of(pairs, b0));
        } else if b == i {
            assert(key_of(after, a) == key_of(pairs, a0));
        } else {
            assert(key_of(after, a) == key_of(pairs, a0));
            assert(key_of(after, b) == key_of(pairs, b0));
            assert(bytes_lt(key_of(pairs, a0), key_of(pairs, b0)));
        }
    }
    assert forall|k: Seq<u8>| #[trigger]
        value_at(after, k) == if k == key {
            Some(value)
        } else {
            value_at(pairs, k)
        } by {
        if k == key {
            assert(key_at(after, k, i));
            lemma_value_at_index(after, k, i);
        } else if exists|p: int| key_at(pairs, k, p) {
            let p = choose|p: int| key_at(pairs, k, p);
            let q = if p < i { p } else { p + 1 };
            assert(key_of(after, q) == key_of(pairs, p));
            assert(key_at(after, k, q));
            lemma_value_at_index(after, k, q);
            lemma_value_at_index(pairs, k, p);
        } else if exists|q: int| key_at(after, k, q) {
            let q = choose|q: int| key_at(after, k, q);
            let p = if q < i { q } else { q - 1 };
            assert(key_of(after, q) == key_of(pairs, p));
            assert(key_at(pairs, k, p));
        }
    }
}

/// Removing the pair of a key keeps the order and drops that key only.
proof fn lemma_remove_sorted(pairs: Pairs, i: int, key: Seq<u8>)
    requires
        sorted_keys(pairs),
        key_at(pairs, key, i),
    ensures
        sorted_keys(pairs.remove(i)),
        forall|k: Seq<u8>| #[trigger]
            value_at(pairs.remove(i), k) == if k == key {
                None
            } else {
                value_at(pairs, k)
            },
{
    let after = pairs.remove(i);
    assert forall|a: int, b: int| 0 <= a < b < after.len() implies bytes_lt(#[trigger] key_of(after, a), #[trigger] key_of(after, b)) by {
        let a0 = if a < i { a } else { a + 1 };
        let b0 = if b < i { b } else { b + 1 };
        assert(key_of(after, a) == key_of(pairs, a0));
        assert(key_of(after, b) == key_of(pairs, b0));
        assert(bytes_lt(key_of(pairs, a0), key_of(pairs, b0)));
    }
    assert forall|k: Seq<u8>| #[trigger]
        value_at(after, k) == if k == key {
            None
        } else {
            value_at(pairs, k)
        } by {
        if exists|q: int| key_at(after, k, q) {
            let q = choose|q: int| key_at(after, k, q);
            let p = if q < i { q } else { q + 1 };
            assert(key_of(after, q) == key_of(pairs, p));
            assert(key_at(pairs, k, p));
            lemma_value_at_index(after, k, q);
            lemma_value_at_index(pairs, k, p);
            lemma_bytes_lt_irreflexive(key);
            if k == key {
                if p < i {
                    assert(bytes_lt(key_of(pairs, p), key_of(pairs, i)));
                } else {
                    assert(bytes_lt(key_of(pairs, i), key_of(pairs, p)));
                }
            }
        } else if k != key && exists|p: int| key_at(pairs, k, p) {
            let p = choose|p: int| key_at(pairs, k, p);
            let q = if p < i { p } else { p - 1 };
            assert(key_of(after, q) == key_of(pairs, p));
            assert(key_at(after, k, q));
        }
    }
}

} // verus!
