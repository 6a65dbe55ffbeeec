//! A B+ tree node: a fixed-order ordered container of keys, parallel
//! values, and child subtrees. Keys are kept ascending; `values[i]` is
//! the value associated with `keys[i]`. Whether a node acts as a leaf or
//! an internal node is decided by the caller's traversal, not by a tag.

use vstd::prelude::*;

verus! {

/// A key sequence is ascending (non-decreasing): every pair of positions
/// is ordered.
pub open spec fn sorted(s: Seq<u64>) -> bool {
    forall|i: int, j: int| 0 <= i <= j < s.len() ==> s[i] <= s[j]
}

/// A key sequence is strictly ascending: no duplicates.
pub open spec fn strictly_sorted(s: Seq<u64>) -> bool {
    forall|i: int, j: int| 0 <= i < j < s.len() ==> s[i] < s[j]
}

/// The index of the first element of `s` that is `>= key`, or `s.len()`
/// if every element is below `key`. On an ascending sequence this is the
/// position a binary search yields for inserting `key`: a duplicate of an
/// existing key lands immediately before the run of equal keys.
pub open spec fn lower_bound(s: Seq<u64>, key: u64) -> int
    decreases s.len(),
{
    if s.len() == 0 {
        0
    } else if s[0] >= key {
        0
    } else {
        1 + lower_bound(s.drop_first(), key)
    }
}

/// On an ascending sequence, `lower_bound` splits the indices exactly:
/// everything before it is below `key`, everything from it on is at or
/// above `key`.
pub proof fn lemma_lower_bound_properties(s: Seq<u64>, key: u64)
    requires
        sorted(s),
    ensures
        0 <= lower_bound(s, key) <= s.len(),
        forall|j: int| 0 <= j < lower_bound(s, key) ==> s[j] < key,
        forall|j: int| lower_bound(s, key) <= j < s.len() ==> s[j] >= key,
    decreases s.len(),
{
    if s.len() == 0 {
    } else if s[0] >= key {
        assert forall|j: int| 0 <= j < s.len() implies s[j] >= key by {
            assert(s[0] <= s[j]);
        }
    } else {
        let t = s.drop_first();
        assert forall|i: int, j: int| 0 <= i <= j < t.len() implies t[i] <= t[j] by {
            assert(s[i + 1] <= s[j + 1]);
        }
        lemma_lower_bound_properties(t, key);
        assert forall|j: int| 0 <= j < lower_bound(s, key) implies s[j] < key by {
            if j > 0 {
                assert(t[j - 1] < key);
            }
        }
        assert forall|j: int| lower_bound(s, key) <= j < s.len() implies s[j] >= key by {
            assert(t[j - 1] >= key);
        }
    }
}

/// Only one index can split an ascending sequence that way, so any index
/// with the two properties is the lower bound.
pub proof fn lemma_lower_bound_unique(s: Seq<u64>, key: u64, i: int)
    requires
        sorted(s),
        0 <= i <= s.len(),
        forall|j: int| 0 <= j < i ==> s[j] < key,
        forall|j: int| i <= j < s.len() ==> s[j] >= key,
    ensures
        i == lower_bound(s, key),
{
    lemma_lower_bound_properties(s, key);
    let l = lower_bound(s, key);
    if i < l {
        assert(s[i] < key);
        assert(s[i] >= key);
    } else if l < i {
        assert(s[l] >= key);
        assert(s[l] < key);
    }
}

/// When every element of `s` is below `key`, the lower bound is the end
/// of the sequence.
pub proof fn lemma_lower_bound_all_below(s: Seq<u64>, key: u64)
    requires
        forall|j: int| 0 <= j < s.len() ==> s[j] < key,
    ensures
        lower_bound(s, key) == s.len(),
    decreases s.len(),
{
    if s.len() > 0 {
        let t = s.drop_first();
        assert forall|j: int| 0 <= j < t.len() implies t[j] < key by {
            assert(s[j + 1] < key);
        }
        lemma_lower_bound_all_below(t, key);
    }
}

/// Inserting `key` at its lower bound keeps the sequence ascending.
pub proof fn lemma_insert_at_lower_bound_sorted(s: Seq<u64>, key: u64)
    requires
        sorted(s),
    ensures
        sorted(s.insert(lower_bound(s, key), key)),
{
    lemma_lower_bound_properties(s, key);
    let l = lower_bound(s, key);
    let t = s.insert(l, key);
    assert forall|i: int, j: int| 0 <= i <= j < t.len() implies t[i] <= t[j] by {
        if i < l {
            assert(t[i] == s[i]);
        }
        if j > l {
            assert(t[j] == s[j - 1]);
        }
    }
}

/// B+ tree node.
pub struct Node {
    /// Keys, kept in ascending order.
    pub keys: Vec<u64>,
    /// Values, index-aligned with `keys`.
    pub values: Vec<u64>,
    /// Child subtrees, each wholly owned by this node.
    pub children: Vec<Node>,
    /// Order of the tree: the fan-out bound used to pre-size storage.
    pub order: usize,
}

impl Node {
    /// Well-formed: the keys are ascending and the values line up with
    /// them one for one.
    pub open spec fn wf(self) -> bool {
        &&& self.keys@.len() == self.values@.len()
        &&& sorted(self.keys@)
    }

    /// The position where a child whose first key is `key` is placed:
    /// the binary-search position of `key` among this node's own keys,
    /// clamped to the current child count so that attaching never fails.
    pub open spec fn child_slot(self, key: u64) -> int {
        let i = lower_bound(self.keys@, key);
        if i <= self.children@.len() {
            i
        } else {
            self.children@.len() as int
        }
    }

    /// Create an empty node, with key/value storage pre-sized for
    /// `order - 1` entries and child storage for `order` children.
    pub fn new(order: usize) -> (node: Node)
        requires
            order >= 1,
        ensures
            node.keys@ == Seq::<u64>::empty(),
            node.values@ == Seq::<u64>::empty(),
            node.children@ == Seq::<Node>::empty(),
            node.order == order,
            node.wf(),
    {
        Node {
            keys: Vec::with_capacity(order - 1),
            values: Vec::with_capacity(order - 1),
            children: Vec::with_capacity(order),
            order,
        }
    }

    /// Insert a key/value pair, keeping the keys ascending and the
    /// values aligned. A duplicate key is not rejected or merged: the
    /// new pair lands immediately before the existing run of equal keys,
    /// and the length always grows by one.
    pub fn insert(&mut self, key: u64, value: u64)
        requires
            old(self).wf(),
        ensures
            final(self).wf(),
            final(self).keys@ == old(self).keys@.insert(
                lower_bound(old(self).keys@, key),
                key,
            ),
            final(self).values@ == old(self).values@.insert(
                lower_bound(old(self).keys@, key),
                value,
            ),
            final(self).keys@.len() == old(self).keys@.len() + 1,
            final(self).children@ == old(self).children@,
            final(self).order == old(self).order,
    {
        proof {
            lemma_insert_at_lower_bound_sorted(self.keys@, key);
        }
        let index = lower_bound_index(&self.keys, key);
        self.keys.insert(index, key);
        self.values.insert(index, value);
    }

    /// Attach a child subtree. The slot is found by binary search over
    /// this node's own keys with the child's first key as the probe (not
    /// by comparison with sibling children), clamped to the current
    /// child count; attaching a non-empty child therefore always
    /// succeeds.
    pub fn insert_child(&mut self, child: Node)
        requires
            old(self).wf(),
            child.keys@.len() > 0,
        ensures
            final(self).wf(),
            final(self).children@ == old(self).children@.insert(
                old(self).child_slot(child.keys@[0]),
                child,
            ),
            final(self).keys@ == old(self).keys@,
            final(self).values@ == old(self).values@,
            final(self).order == old(self).order,
    {
        let probe = child.keys[0];
        let index = lower_bound_index(&self.keys, probe);
        let slot = if index <= self.children.len() {
            index
        } else {
            self.children.len()
        };
        self.children.insert(slot, child);
    }
}

/// Binary search for the first key at or above `key`.
fn lower_bound_index(keys: &Vec<u64>, key: u64) -> (index: usize)
    requires
        sorted(keys@),
    ensures
        index == lower_bound(keys@, key),
        index <= keys@.len(),
{
    let mut lo: usize = 0;
    let mut hi: usize = keys.len();
    while lo < hi
        invariant
            lo <= hi <= keys@.len(),
            sorted(keys@),
            forall|j: int| 0 <= j < lo ==> keys@[j] < key,
            forall|j: int| hi <= j < keys@.len() ==> keys@[j] >= key,
        decreases hi - lo,
    {
        let mid = lo + (hi - lo) / 2;
        if keys[mid] < key {
            assert forall|j: int| 0 <= j < mid + 1 implies keys@[j] < key by {
                assert(keys@[j] <= keys@[mid as int]);
            }
            lo = mid + 1;
        } else {
            hi = mid;
        }
    }
    proof {
        lemma_lower_bound_unique(keys@, key, lo as int);
    }
    lo
}

} // verus!
