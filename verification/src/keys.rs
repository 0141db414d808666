//! The order of keys: byte strings compared lexicographically.

use vstd::prelude::*;

verus! {

/// `a` and `b` agree on their first `k` bytes.
pub open spec fn same_prefix(a: Seq<u8>, b: Seq<u8>, k: int) -> bool {
    &&& 0 <= k <= a.len()
    &&& k <= b.len()
    &&& forall|i: int| 0 <= i < k ==> a[i] == b[i]
}

/// `a` sorts strictly before `b`: at the first place where they differ `a`
/// has ended or holds the smaller byte.
pub open spec fn key_lt(a: Seq<u8>, b: Seq<u8>) -> bool {
    exists|k: int| #[trigger]
        same_prefix(a, b, k) && k < b.len() && (k == a.len() || a[k] < b[k])
}

/// `a` sorts before `b` or is the same key.
pub open spec fn key_le(a: Seq<u8>, b: Seq<u8>) -> bool {
    a =~= b || key_lt(a, b)
}

/// How two keys stand to each other.
#[derive(Clone, Copy, Debug, PartialEq, Eq, Structural)]
pub enum KeyOrder {
    Less,
    Equal,
    Greater,
}

/// What `key_order(a, b)` answers.
pub open spec fn key_order_of(a: Seq<u8>, b: Seq<u8>) -> KeyOrder {
    if key_lt(a, b) {
        KeyOrder::Less
    } else if a =~= b {
        KeyOrder::Equal
    } else {
        KeyOrder::Greater
    }
}

/// No key sorts before itself, and of two keys at most one sorts before the
/// other.
pub proof fn lemma_key_lt_asymmetric(a: Seq<u8>, b: Seq<u8>)
    requires
        key_lt(a, b),
    ensures
        !key_lt(b, a),
        !(a =~= b),
{
    let k = choose|k: int| #[trigger]
        same_prefix(a, b, k) && k < b.len() && (k == a.len() || a[k] < b[k]);
    if key_lt(b, a) {
        let j = choose|j: int| #[trigger]
            same_prefix(b, a, j) && j < a.len() && (j == b.len() || b[j] < a[j]);
        if j < k {
            assert(a[j] == b[j]);
        } else if k < j {
            assert(b[k] == a[k]);
        }
    }
}

/// The order of keys is transitive.
pub proof fn lemma_key_lt_transitive(a: Seq<u8>, b: Seq<u8>, c: Seq<u8>)
    requires
        key_lt(a, b),
        key_lt(b, c),
    ensures
        key_lt(a, c),
{
    let k = choose|k: int| #[trigger]
        same_prefix(a, b, k) && k < b.len() && (k == a.len() || a[k] < b[k]);
    let j = choose|j: int| #[trigger]
        same_prefix(b, c, j) && j < c.len() && (j == b.len() || b[j] < c[j]);
    let m = if k <= j { k } else { j };
    assert(same_prefix(a, c, m));
}

/// Any two keys are comparable: one sorts before the other or they are the
/// same key.
pub proof fn lemma_key_order_total(a: Seq<u8>, b: Seq<u8>)
    ensures
        key_lt(a, b) || a =~= b || key_lt(b, a),
{
    lemma_total_from(a, b, 0);
}

proof fn lemma_total_from(a: Seq<u8>, b: Seq<u8>, k: int)
    requires
        same_prefix(a, b, k),
    ensures
        key_lt(a, b) || a =~= b || key_lt(b, a),
    decreases a.len() - k,
{
    assert(same_prefix(b, a, k));
    if k == a.len() || k == b.len() {
    } else if a[k] != b[k] {
    } else {
        lemma_total_from(a, b, k + 1);
    }
}

/// `key_le` is transitive, and mixes with `key_lt` as expected.
pub proof fn lemma_key_le_transitive(a: Seq<u8>, b: Seq<u8>, c: Seq<u8>)
    requires
        key_le(a, b),
        key_le(b, c),
    ensures
        key_le(a, c),
        key_lt(a, b) || key_lt(b, c) ==> key_lt(a, c),
{
    if key_lt(a, b) && key_lt(b, c) {
        lemma_key_lt_transitive(a, b, c);
    }
}

/// Of two keys, one is at or before the other exactly when the other does
/// not sort strictly before it.
pub proof fn lemma_key_le_iff_not_gt(a: Seq<u8>, b: Seq<u8>)
    ensures
        key_le(a, b) <==> !key_lt(b, a),
{
    lemma_key_order_total(a, b);
    if key_lt(a, b) {
        lemma_key_lt_asymmetric(a, b);
    }
    if key_lt(b, a) {
        lemma_key_lt_asymmetric(b, a);
    }
}

/// Compares two keys byte by byte.
pub fn key_order(a: &[u8], b: &[u8]) -> (r: KeyOrder)
    ensures
        r == key_order_of(a@, b@),
        r == KeyOrder::Less <==> key_lt(a@, b@),
        r == KeyOrder::Equal <==> a@ =~= b@,
        r == KeyOrder::Greater <==> key_lt(b@, a@),
{
    let mut i: usize = 0;
    while i < a.len() && i < b.len()
        invariant
            same_prefix(a@, b@, i as int),
        decreases a.len() - i,
    {
        if a[i] < b[i] {
            proof {
                lemma_key_lt_asymmetric(a@, b@);
            }
            return KeyOrder::Less;
        }
        if a[i] > b[i] {
            proof {
                assert(same_prefix(b@, a@, i as int));
                lemma_key_lt_asymmetric(b@, a@);
            }
            return KeyOrder::Greater;
        }
        i += 1;
    }
    if a.len() < b.len() {
        proof {
            lemma_key_lt_asymmetric(a@, b@);
        }
        KeyOrder::Less
    } else if b.len() < a.len() {
        proof {
            assert(same_prefix(b@, a@, i as int));
            lemma_key_lt_asymmetric(b@, a@);
        }
        KeyOrder::Greater
    } else {
        proof {
            assert(a@ =~= b@);
            if key_lt(a@, b@) {
                lemma_key_lt_asymmetric(a@, b@);
            }
            if key_lt(b@, a@) {
                lemma_key_lt_asymmetric(b@, a@);
            }
        }
        KeyOrder::Equal
    }
}

} // verus!
