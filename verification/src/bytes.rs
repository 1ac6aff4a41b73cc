//! Byte strings: copying, equality, and the lexicographic order that datastore
//! keys are kept in.

use vstd::prelude::*;

verus! {

/// How one byte string stands to another in lexicographic order.
#[derive(Clone, Copy, PartialEq, Eq, Structural, Debug)]
pub enum KeyOrder {
    Before,
    Same,
    After,
}

/// `a` and `b` agree on their first `i` bytes, and there `a` ends while `b`
/// goes on, or `a` holds the smaller byte.
pub open spec fn splits_at(a: Seq<u8>, b: Seq<u8>, i: int) -> bool {
    &&& 0 <= i <= a.len()
    &&& i < b.len()
    &&& forall|j: int| 0 <= j < i ==> a[j] == b[j]
    &&& i < a.len() ==> a[i] < b[i]
}

/// Strict lexicographic order by byte value; a proper prefix comes first.
pub open spec fn bytes_lt(a: Seq<u8>, b: Seq<u8>) -> bool {
    exists|i: int| splits_at(a, b, i)
}

/// No byte string comes before itself.
pub proof fn lemma_bytes_lt_irreflexive(a: Seq<u8>)
    ensures
        !bytes_lt(a, a),
{
}

/// The order is transitive.
pub proof fn lemma_bytes_lt_transitive(a: Seq<u8>, b: Seq<u8>, c: Seq<u8>)
    requires
        bytes_lt(a, b),
        bytes_lt(b, c),
    ensures
        bytes_lt(a, c),
{
    let i = choose|i: int| splits_at(a, b, i);
    let j = choose|j: int| splits_at(b, c, j);
    if i <= j {
        assert(splits_at(a, c, i));
    } else {
        assert(splits_at(a, c, j));
    }
}

/// Two byte strings are never each before the other.
pub proof fn lemma_bytes_lt_asymmetric(a: Seq<u8>, b: Seq<u8>)
    requires
        bytes_lt(a, b),
    ensures
        !bytes_lt(b, a),
        a != b,
{
    if bytes_lt(b, a) {
        lemma_bytes_lt_transitive(a, b, a);
    }
    lemma_bytes_lt_irreflexive(a);
}

/// Any two byte strings are equal or one comes before the other.
pub proof fn lemma_bytes_lt_total(a: Seq<u8>, b: Seq<u8>)
    ensures
        a == b || bytes_lt(a, b) || bytes_lt(b, a),
{
    lemma_total_from(a, b, 0);
}

proof fn lemma_total_from(a: Seq<u8>, b: Seq<u8>, i: int)
    requires
        0 <= i <= a.len(),
        i <= b.len(),
        forall|j: int| 0 <= j < i ==> a[j] == b[j],
    ensures
        a == b || bytes_lt(a, b) || bytes_lt(b, a),
    decreases a.len() - i,
{
    if i == a.len() {
        if i == b.len() {
            assert(a =~= b);
        } else {
            assert(splits_at(a, b, i));
        }
    } else if i == b.len() {
        assert(splits_at(b, a, i));
    } else if a[i] < b[i] {
        assert(splits_at(a, b, i));
    } else if b[i] < a[i] {
        assert(splits_at(b, a, i));
    } else {
        lemma_total_from(a, b, i + 1);
    }
}

/// Compares two byte strings lexicographically.
pub fn compare_bytes(a: &Vec<u8>, b: &Vec<u8>) -> (order: KeyOrder)
    ensures
        order == KeyOrder::Before <==> bytes_lt(a@, b@),
        order == KeyOrder::Same <==> a@ == b@,
        order == KeyOrder::After <==> bytes_lt(b@, a@),
{
    let mut i: usize = 0;
    let mut order = KeyOrder::Same;
    loop
        invariant_except_break
            i <= a.len(),
            i <= b.len(),
            forall|j: int| 0 <= j < i ==> a@[j] == b@[j],
        ensures
            order == KeyOrder::Before ==> bytes_lt(a@, b@),
            order == KeyOrder::Same ==> a@ == b@,
            order == KeyOrder::After ==> bytes_lt(b@, a@),
        decreases a.len() - i,
    {
        if i == a.len() {
            if i == b.len() {
                assert(a@ =~= b@);
                order = KeyOrder::Same;
            } else {
                assert(splits_at(a@, b@, i as int));
                order = KeyOrder::Before;
            }
            break;
        }
        if i == b.len() {
            assert(splits_at(b@, a@, i as int));
            order = KeyOrder::After;
            break;
        }
        if a[i] < b[i] {
            assert(splits_at(a@, b@, i as int));
            order = KeyOrder::Before;
            break;
        }
        if b[i] < a[i] {
            assert(splits_at(b@, a@, i as int));
            order = KeyOrder::After;
            break;
        }
        i += 1;
    }
    proof {
        if bytes_lt(a@, b@) {
            lemma_bytes_lt_asymmetric(a@, b@);
        }
        if bytes_lt(b@, a@) {
            lemma_bytes_lt_asymmetric(b@, a@);
        }
    }
    order
}

/// Whether two byte strings hold the same bytes.
pub fn bytes_equal(a: &Vec<u8>, b: &Vec<u8>) -> (same: bool)
    ensures
        same == (a@ == b@),
{
    if a.len() != b.len() {
        return false;
    }
    let mut i: usize = 0;
    while i < a.len()
        invariant
            i <= a.len(),
            a.len() == b.len(),
            forall|j: int| 0 <= j < i ==> a@[j] == b@[j],
        decreases a.len() - i,
    {
        if a[i] != b[i] {
            return false;
        }
        i += 1;
    }
    assert(a@ =~= b@);
    true
}

/// A copy of a byte string.
pub fn copy_bytes(a: &Vec<u8>) -> (copy: Vec<u8>)
    ensures
        copy@ == a@,
{
    let mut copy: Vec<u8> = Vec::new();
    let mut i: usize = 0;
    while i < a.len()
        invariant
            i <= a.len(),
            copy@ == a@.take(i as int),
        decreases a.len() - i,
    {
        copy.push(a[i]);
        assert(a@.take(i + 1) =~= a@.take(i as int).push(a@[i as int]));
        i += 1;
    }
    assert(a@.take(a.len() as int) =~= a@);
    copy
}

} // verus!
