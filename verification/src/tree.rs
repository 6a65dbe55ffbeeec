//! The write-once B+ tree. It owns a single root node and three
//! configuration scalars: the order (fan-out bound, which also drives
//! the chunk size `order - 1` used when partitioning keys), the depth
//! recomputed on every bulk build, and the target leaf size used only in
//! the depth formula.

use vstd::prelude::*;
use vstd::arithmetic::power::pow;
use vstd::arithmetic::div_mod::{
    lemma_div_is_strictly_smaller,
    lemma_div_nonincreasing,
    lemma_fundamental_div_mod,
    lemma_mod_bound,
};
use vstd::arithmetic::mul::lemma_mul_inequality;
use crate::node::{
    Node,
    lemma_lower_bound_all_below,
    lemma_lower_bound_properties,
    lemma_lower_bound_unique,
    lower_bound,
    sorted,
    strictly_sorted,
};

verus! {

/// Why a bulk build was refused.
#[derive(Clone, Copy, Debug, PartialEq, Eq)]
pub enum BPlusTreeError {
    /// The configuration is degenerate: with an order below two the
    /// chunking and depth computations are meaningless (a chunk would be
    /// empty), and a leaf size of zero can never hold anything.
    InvalidConfiguration,
}

/// The smallest positive depth `d` with
/// `order^d * leaf_node_size > n`: the number of levels below the root
/// needed so that `n` entries fit with leaves at or under the target
/// size. Meaningful for `order >= 2` and `leaf_node_size >= 1`; for
/// `n == 0` it is 1.
pub open spec fn spec_depth(order: nat, leaf_node_size: nat, n: nat) -> nat
    decreases n,
    via spec_depth_decreases
{
    if order < 2 || leaf_node_size < 1 || order * leaf_node_size > n {
        1
    } else {
        1 + spec_depth(order, leaf_node_size, n / order)
    }
}

#[via_fn]
proof fn spec_depth_decreases(order: nat, leaf_node_size: nat, n: nat) {
    if !(order < 2 || leaf_node_size < 1 || order * leaf_node_size > n) {
        assert(n >= 2) by (nonlinear_arith)
            requires
                order >= 2,
                leaf_node_size >= 1,
                order * leaf_node_size <= n,
        ;
        lemma_div_is_strictly_smaller(n as int, order as int);
    }
}

/// How many chunks of size `chunk` cover `len` items: the ceiling of
/// `len / chunk`, with the last chunk allowed to be shorter.
pub open spec fn split_count(len: int, chunk: int) -> int {
    if len <= 0 {
        0
    } else {
        (len - 1) / chunk + 1
    }
}

/// A freshly built one-entry child node: it holds exactly the pair `p`,
/// no children, and the given order.
pub open spec fn one_entry_node(node: Node, p: (u64, u64), order: usize) -> bool {
    &&& node.keys@ == seq![p.0]
    &&& node.values@ == seq![p.1]
    &&& node.children@.len() == 0
    &&& node.order == order
}

/// The state a bulk build reaches after the first `n` input pairs: the
/// root's keys, the root's values, and one `(key, value)` pair per
/// attached one-entry child, in child order. Pair `i` is inserted into
/// the root at its binary-search position; while `i` is below the split
/// count, a child holding `(keys[i * chunk], values[i])` is then
/// attached at the binary-search position of its key among the root's
/// keys, clamped to the child count.
pub open spec fn build_state(keys: Seq<u64>, values: Seq<u64>, chunk: int, n: int) -> (
    Seq<u64>,
    Seq<u64>,
    Seq<(u64, u64)>,
)
    decreases n,
{
    if n <= 0 {
        (Seq::<u64>::empty(), Seq::<u64>::empty(), Seq::<(u64, u64)>::empty())
    } else {
        let prev = build_state(keys, values, chunk, n - 1);
        let i = n - 1;
        let at = lower_bound(prev.0, keys[i]);
        let root_keys = prev.0.insert(at, keys[i]);
        let root_values = prev.1.insert(at, values[i]);
        if i < split_count(keys.len() as int, chunk) {
            let p = (keys[i * chunk], values[i]);
            let slot = if lower_bound(root_keys, p.0) <= prev.2.len() {
                lower_bound(root_keys, p.0)
            } else {
                prev.2.len() as int
            };
            (root_keys, root_values, prev.2.insert(slot, p))
        } else {
            (root_keys, root_values, prev.2)
        }
    }
}

/// A write-once B+ tree index.
pub struct BPlusTree {
    /// Root node. Never absent: an empty tree has an empty root.
    pub root: Node,
    /// Order of the tree: the number of children each node can have.
    pub order: usize,
    /// Depth of the tree, recomputed on every bulk build.
    pub depth: usize,
    /// Target number of entries per leaf node, used by the depth
    /// formula.
    pub leaf_node_size: usize,
}

impl BPlusTree {
    /// Create an empty tree of the given order, with depth 0 and the
    /// default leaf size of 1024.
    pub fn new(order: usize) -> (tree: BPlusTree)
        requires
            order >= 1,
        ensures
            tree.order == order,
            tree.depth == 0,
            tree.leaf_node_size == 1024,
            tree.root.keys@ == Seq::<u64>::empty(),
            tree.root.values@ == Seq::<u64>::empty(),
            tree.root.children@ == Seq::<Node>::empty(),
            tree.root.order == order,
            tree.root.wf(),
    {
        let root = Node::new(order);
        BPlusTree { root, order, depth: 0, leaf_node_size: 1024 }
    }

    /// Set the target leaf size; takes effect on the next bulk build.
    pub fn with_leaf_node_size(self, size: usize) -> (tree: BPlusTree)
        ensures
            tree.leaf_node_size == size,
            tree.order == self.order,
            tree.depth == self.depth,
            tree.root == self.root,
    {
        let mut tree = self;
        tree.leaf_node_size = size;
        tree
    }

    /// Set the order; takes effect on the next bulk build (the existing
    /// root keeps the order it was created with).
    pub fn with_order(self, order: usize) -> (tree: BPlusTree)
        ensures
            tree.order == order,
            tree.leaf_node_size == self.leaf_node_size,
            tree.depth == self.depth,
            tree.root == self.root,
    {
        let mut tree = self;
        tree.order = order;
        tree
    }

    /// Compute the depth needed for `n` entries: the smallest positive
    /// `d` with `order^d * leaf_node_size > n`.
    pub fn depth(&self, n: usize) -> (d: usize)
        requires
            self.order >= 2,
            self.leaf_node_size >= 1,
        ensures
            d == spec_depth(self.order as nat, self.leaf_node_size as nat, n as nat),
    {
        let order = self.order;
        let size = self.leaf_node_size;
        let mut d: usize = 1;
        let mut p: usize = order;
        proof {
            vstd::arithmetic::power::lemma_pow1(order as int);
        }
        loop
            invariant
                order == self.order,
                size == self.leaf_node_size,
                order >= 2,
                size >= 1,
                1 <= d < p,
                p as int == pow(order as int, d as nat),
                d > 1 ==> pow(order as int, (d - 1) as nat) * size <= n,
            decreases n - p,
        {
            proof {
                lemma_le_div_iff_mul_le(p as int, size as int, n as int);
            }
            if p > n / size {
                // order^d * leaf_node_size > n: d levels are enough, and
                // the invariant says d - 1 levels were not.
                proof {
                    lemma_depth_from_bounds(
                        order as nat,
                        size as nat,
                        n as nat,
                        d as nat,
                    );
                }
                return d;
            }
            // order^d * leaf_node_size <= n: one more level is needed.
            d = d + 1;
            proof {
                lemma_le_div_iff_mul_le(p as int, order as int, n as int);
                assert(p * size >= p) by (nonlinear_arith)
                    requires
                        p >= 0,
                        size >= 1,
                ;
            }
            if p > n / order {
                // order^d alone already exceeds n, so d is the answer.
                proof {
                    assert(pow(order as int, d as nat) == p * order) by {
                        vstd::arithmetic::power::lemma_pow1(order as int);
                        vstd::arithmetic::power::lemma_pow_adds(
                            order as int,
                            (d - 1) as nat,
                            1,
                        );
                    }
                    assert(p * order * size > n) by (nonlinear_arith)
                        requires
                            p * order > n,
                            size >= 1,
                            p * order > 0,
                    ;
                    lemma_depth_from_bounds(
                        order as nat,
                        size as nat,
                        n as nat,
                        d as nat,
                    );
                }
                return d;
            }
            proof {
                assert((d as int) < p * order) by (nonlinear_arith)
                    requires
                        d <= p,
                        order >= 2,
                        p >= 2,
                ;
                vstd::arithmetic::mul::lemma_mul_strictly_increases(
                    order as int,
                    p as int,
                );
                assert(pow(order as int, (d - 1) as nat) * order
                    == pow(order as int, d as nat)) by {
                    vstd::arithmetic::power::lemma_pow1(order as int);
                    vstd::arithmetic::power::lemma_pow_adds(
                        order as int,
                        (d - 1) as nat,
                        1,
                    );
                }
            }
            p = p * order;
        }
    }

    /// Partition the key sequence into consecutive chunks of size
    /// `order - 1` (the last chunk may be shorter) and return the first
    /// key of every chunk, in order: one split value per chunk,
    /// `ceil(len / (order - 1))` in all.
    pub fn split_keys(&self, keys: &Vec<u64>) -> (splits: Vec<u64>)
        requires
            self.order >= 2,
        ensures
            splits@.len() == split_count(keys@.len() as int, (self.order - 1) as int),
            forall|j: int|
                0 <= j < splits@.len() ==> splits@[j] == keys@[j * ((self.order - 1) as int)],
    {
        let chunk = self.order - 1;
        let total = keys.len();
        let num: usize = if total == 0 {
            0
        } else {
            proof {
                lemma_div_nonincreasing((total - 1) as int, chunk as int);
            }
            (total - 1) / chunk + 1
        };
        let mut splits: Vec<u64> = Vec::new();
        let mut k: usize = 0;
        while k < num
            invariant
                chunk as int == self.order - 1,
                chunk >= 1,
                keys@.len() == total as int,
                num as int == split_count(total as int, chunk as int),
                k <= num,
                splits@.len() == k as int,
                forall|j: int| 0 <= j < k ==> splits@[j] == keys@[j * (chunk as int)],
            decreases num - k,
        {
            proof {
                lemma_le_div_iff_mul_le(k as int, chunk as int, total as int - 1);
            }
            let index = k * chunk;
            splits.push(keys[index]);
            k = k + 1;
        }
        splits
    }

    /// Bulk-construct the tree from a fully sorted key sequence and its
    /// aligned values, replacing any existing root. The depth is
    /// recomputed from the input size, the split values are the first
    /// key of each chunk of `order - 1` keys, and a single pass inserts
    /// every pair into a fresh root while attaching, for each index `i`
    /// below the split count, a new one-entry child holding
    /// `(split_values[i], values[i])`. A degenerate configuration (an
    /// order below two, or a zero leaf size) is rejected up front rather
    /// than looping forever.
    pub fn from_items(&mut self, order: usize, keys: Vec<u64>, values: Vec<u64>) -> (r: Result<
        (),
        BPlusTreeError,
    >)
        requires
            sorted(keys@),
            keys@.len() == values@.len(),
        ensures
            final(self).order == old(self).order,
            final(self).leaf_node_size == old(self).leaf_node_size,
            r is Err <==> (order <= 1 || old(self).order <= 1 || old(self).leaf_node_size == 0),
            r is Err ==> r == Err::<(), BPlusTreeError>(BPlusTreeError::InvalidConfiguration)
                && *final(self) == *old(self),
            r is Ok ==> ({
                let st = build_state(
                    keys@,
                    values@,
                    old(self).order - 1,
                    keys@.len() as int,
                );
                &&& final(self).depth == spec_depth(
                    old(self).order as nat,
                    old(self).leaf_node_size as nat,
                    keys@.len() as nat,
                )
                &&& final(self).root.wf()
                &&& final(self).root.order == order
                &&& final(self).root.keys@ == st.0
                &&& final(self).root.values@ == st.1
                &&& final(self).root.children@.len() == st.2.len()
                &&& forall|j: int|
                    0 <= j < st.2.len() ==> one_entry_node(
                        #[trigger] final(self).root.children@[j],
                        st.2[j],
                        order,
                    )
            }),
    {
        if order <= 1 || self.order <= 1 || self.leaf_node_size == 0 {
            return Err(BPlusTreeError::InvalidConfiguration);
        }

        // Calculate the depth needed for this input size.
        let d = self.depth(keys.len());
        self.depth = d;

        // The values that split the keys into the child nodes.
        let split_values = self.split_keys(&keys);

        // Discard the old root and build afresh.
        self.root = Node::new(order);

        let ghost chunk: int = self.order - 1;
        let mut i: usize = 0;
        while i < keys.len()
            invariant
                i <= keys@.len(),
                keys@.len() == values@.len(),
                sorted(keys@),
                order >= 2,
                self.order == old(self).order,
                self.leaf_node_size == old(self).leaf_node_size,
                self.order >= 2,
                self.depth == spec_depth(
                    old(self).order as nat,
                    old(self).leaf_node_size as nat,
                    keys@.len() as nat,
                ),
                chunk == self.order - 1,
                chunk >= 1,
                split_values@.len() == split_count(keys@.len() as int, chunk),
                forall|j: int|
                    0 <= j < split_values@.len() ==> split_values@[j] == keys@[j * chunk],
                self.root.wf(),
                self.root.order == order,
                ({
                    let st = build_state(keys@, values@, chunk, i as int);
                    &&& self.root.keys@ == st.0
                    &&& self.root.values@ == st.1
                    &&& self.root.children@.len() == st.2.len()
                    &&& forall|j: int|
                        0 <= j < st.2.len() ==> one_entry_node(
                            #[trigger] self.root.children@[j],
                            st.2[j],
                            order,
                        )
                }),
            decreases keys@.len() - i,
        {
            let ghost prev = build_state(keys@, values@, chunk, i as int);

            // Insert the pair into the root node.
            self.root.insert(keys[i], values[i]);

            // Attach a one-entry child while there are split values left.
            if i < split_values.len() {
                let mut child = Node::new(order);
                child.insert(split_values[i], values[i]);
                proof {
                    assert(child.keys@ =~= seq![split_values@[i as int]]);
                    assert(child.values@ =~= seq![values@[i as int]]);
                }
                let ghost kids = self.root.children@;
                self.root.insert_child(child);
                proof {
                    let st = build_state(keys@, values@, chunk, i + 1);
                    let p = (keys@[(i as int) * chunk], values@[i as int]);
                    let rk = self.root.keys@;
                    lemma_lower_bound_properties(rk, p.0);
                    let slot = if lower_bound(rk, p.0) <= prev.2.len() {
                        lower_bound(rk, p.0)
                    } else {
                        prev.2.len() as int
                    };
                    assert(st.0 == rk);
                    assert(st.2 == prev.2.insert(slot, p));
                    assert(self.root.children@ == kids.insert(slot, child));
                    prev.2.insert_ensures(slot, p);
                    kids.insert_ensures(slot, child);
                    assert forall|j: int| 0 <= j < st.2.len() implies one_entry_node(
                        #[trigger] self.root.children@[j],
                        st.2[j],
                        order,
                    ) by {
                        if j > slot {
                            assert(self.root.children@[j] == kids[j - 1]);
                            assert(st.2[j] == prev.2[j - 1]);
                        }
                    }
                }
            }
            i = i + 1;
        }
        Ok(())
    }
}

/// For `b >= 1`, comparing against the integer quotient is the same as
/// comparing the product: `a <= c / b` exactly when `a * b <= c`.
proof fn lemma_le_div_iff_mul_le(a: int, b: int, c: int)
    requires
        b >= 1,
        0 <= a,
        0 <= c,
    ensures
        a <= c / b <==> a * b <= c,
{
    lemma_fundamental_div_mod(c, b);
    lemma_mod_bound(c, b);
    let q = c / b;
    let r = c % b;
    assert(a <= q <==> a * b <= c) by (nonlinear_arith)
        requires
            c == b * q + r,
            0 <= r < b,
            b >= 1,
            0 <= a,
    ;
}

/// A positive depth whose power exceeds `n`, while the next smaller
/// power does not, is exactly `spec_depth`.
pub proof fn lemma_depth_from_bounds(order: nat, leaf_node_size: nat, n: nat, d: nat)
    requires
        order >= 2,
        leaf_node_size >= 1,
        d >= 1,
        pow(order as int, d) * leaf_node_size > n,
        d > 1 ==> pow(order as int, (d - 1) as nat) * leaf_node_size <= n,
    ensures
        d == spec_depth(order, leaf_node_size, n),
{
    lemma_spec_depth_bounds(order, leaf_node_size, n);
    let sd = spec_depth(order, leaf_node_size, n);
    if d < sd {
        vstd::arithmetic::power::lemma_pow_increases(order, d, (sd - 1) as nat);
        lemma_mul_inequality(
            pow(order as int, d),
            pow(order as int, (sd - 1) as nat),
            leaf_node_size as int,
        );
    } else if sd < d {
        vstd::arithmetic::power::lemma_pow_increases(order, sd, (d - 1) as nat);
        lemma_mul_inequality(
            pow(order as int, sd),
            pow(order as int, (d - 1) as nat),
            leaf_node_size as int,
        );
    }
}

/// `spec_depth` does what it promises: its power of the order exceeds
/// `n`, and it is the smallest positive depth that does (so `n` sits
/// between the two adjacent powers whenever the depth is above one).
pub proof fn lemma_spec_depth_bounds(order: nat, leaf_node_size: nat, n: nat)
    requires
        order >= 2,
        leaf_node_size >= 1,
    ensures
        spec_depth(order, leaf_node_size, n) >= 1,
        pow(order as int, spec_depth(order, leaf_node_size, n)) * leaf_node_size > n,
        spec_depth(order, leaf_node_size, n) > 1 ==> pow(
            order as int,
            (spec_depth(order, leaf_node_size, n) - 1) as nat,
        ) * leaf_node_size <= n,
    decreases n,
{
    let d = spec_depth(order, leaf_node_size, n);
    if order * leaf_node_size > n {
        assert(d == 1);
        vstd::arithmetic::power::lemma_pow1(order as int);
    } else {
        let m = n / order;
        assert(n >= 2) by (nonlinear_arith)
            requires
                order >= 2,
                leaf_node_size >= 1,
                order * leaf_node_size <= n,
        ;
        lemma_div_is_strictly_smaller(n as int, order as int);
        lemma_spec_depth_bounds(order, leaf_node_size, m);
        let d2 = spec_depth(order, leaf_node_size, m);
        assert(d == 1 + d2);
        lemma_fundamental_div_mod(n as int, order as int);
        lemma_mod_bound(n as int, order as int);
        vstd::arithmetic::power::lemma_pow1(order as int);
        vstd::arithmetic::power::lemma_pow_adds(order as int, d2, 1);
        // Above n / order means above n once multiplied by the order.
        assert(pow(order as int, d2 + 1) * leaf_node_size > n) by (nonlinear_arith)
            requires
                pow(order as int, d2) * leaf_node_size > (n as int) / (order as int),
                n as int == order * ((n as int) / (order as int)) + (n as int) % (order as int),
                0 <= (n as int) % (order as int) < (order as int),
                order >= 2,
                pow(order as int, d2 + 1) == pow(order as int, d2) * order,
        ;
        if d2 > 1 {
            vstd::arithmetic::power::lemma_pow_adds(order as int, (d2 - 1) as nat, 1);
            // At or under n / order means at or under n once multiplied.
            assert(pow(order as int, d2) * leaf_node_size <= n) by (nonlinear_arith)
                requires
                    pow(order as int, (d2 - 1) as nat) * leaf_node_size
                        <= (n as int) / (order as int),
                    n as int == order * ((n as int) / (order as int)) + (n as int) % (order as int),
                    0 <= (n as int) % (order as int),
                    order >= 2,
                    pow(order as int, d2) == pow(order as int, (d2 - 1) as nat) * order,
            ;
        }
    }
}

/// Helper for the exactness law, by induction over the build: after the
/// first `n` pairs of a strictly ascending input, the root holds exactly
/// those pairs in input order, and the children built so far hang in
/// order, one per split value.
pub proof fn lemma_build_state_take(keys: Seq<u64>, values: Seq<u64>, chunk: int, n: int)
    requires
        strictly_sorted(keys),
        keys.len() == values.len(),
        chunk >= 1,
        0 <= n <= keys.len(),
    ensures
        ({
            let st = build_state(keys, values, chunk, n);
            let num = split_count(keys.len() as int, chunk);
            &&& st.0 == keys.take(n)
            &&& st.1 == values.take(n)
            &&& st.2.len() == (if n <= num { n } else { num })
            &&& forall|j: int| 0 <= j < st.2.len() ==> #[trigger] st.2[j] == (keys[j * chunk], values[j])
        }),
    decreases n,
{
    let st = build_state(keys, values, chunk, n);
    let num = split_count(keys.len() as int, chunk);
    if n == 0 {
        assert(keys.take(0) =~= Seq::<u64>::empty());
        assert(values.take(0) =~= Seq::<u64>::empty());
    } else {
        lemma_build_state_take(keys, values, chunk, n - 1);
        let prev = build_state(keys, values, chunk, n - 1);
        let i = n - 1;
        // Every key of the prefix is below the next key, so the next
        // pair is appended at the end.
        assert forall|j: int| 0 <= j < prev.0.len() implies prev.0[j] < keys[i] by {
            assert(prev.0[j] == keys[j]);
        }
        lemma_lower_bound_all_below(prev.0, keys[i]);
        let at = lower_bound(prev.0, keys[i]);
        assert(at == i);
        prev.0.insert_ensures(at, keys[i]);
        prev.1.insert_ensures(at, values[i]);
        assert(prev.0.insert(at, keys[i]) =~= keys.take(n));
        assert(prev.1.insert(at, values[i]) =~= values.take(n));
        if i < num {
            // The split key index lies within the input.
            lemma_le_div_iff_mul_le(i, chunk, keys.len() - 1);
            assert(i * chunk <= keys.len() - 1);
            let rk = keys.take(n);
            let p0 = keys[i * chunk];
            assert(sorted(rk)) by {
                assert forall|x: int, y: int| 0 <= x <= y < rk.len() implies rk[x] <= rk[y] by {
                    if x < y {
                        assert(keys[x] < keys[y]);
                    }
                }
            }
            assert(i <= i * chunk) by (nonlinear_arith)
                requires
                    i >= 0,
                    chunk >= 1,
            ;
            if i * chunk == i {
                // The probe is the key just inserted: the search stops
                // right at the end of the earlier keys.
                lemma_lower_bound_unique(rk, p0, i);
            } else {
                // The probe lies beyond every key in the root so far, so
                // the search overshoots and the slot is clamped.
                assert forall|j: int| 0 <= j < rk.len() implies rk[j] < p0 by {
                    assert(keys[j] < keys[i * chunk]);
                }
                lemma_lower_bound_all_below(rk, p0);
            }
            let p = (keys[i * chunk], values[i]);
            assert(st.2 == prev.2.insert(i, p));
            prev.2.insert_ensures(i, p);
        }
    }
}

/// Law: bulk construction from an ascending, duplicate-free key sequence
/// and aligned values of equal length reproduces the input exactly. The
/// root's key sequence equals `keys` in the same order, its value at each
/// position is the value aligned with that key, and the children hang in
/// order of attachment: child `j` holds exactly the one pair
/// `(keys[j * chunk], values[j])`, where `chunk` is the order less one.
pub proof fn lemma_bulk_build_exact(keys: Seq<u64>, values: Seq<u64>, chunk: int)
    requires
        strictly_sorted(keys),
        keys.len() == values.len(),
        chunk >= 1,
    ensures
        build_state(keys, values, chunk, keys.len() as int).0 == keys,
        build_state(keys, values, chunk, keys.len() as int).1 == values,
        build_state(keys, values, chunk, keys.len() as int).2.len() == split_count(
            keys.len() as int,
            chunk,
        ),
        forall|j: int|
            0 <= j < split_count(keys.len() as int, chunk)
                ==> #[trigger] build_state(keys, values, chunk, keys.len() as int).2[j] == (
                keys[j * chunk],
                values[j],
            ),
{
    lemma_build_state_take(keys, values, chunk, keys.len() as int);
    assert(keys.take(keys.len() as int) =~= keys);
    assert(values.take(values.len() as int) =~= values);
    if keys.len() > 0 {
        // There are never more chunks than keys.
        lemma_div_nonincreasing(keys.len() - 1, chunk);
    }
}

/// The depth formula is monotonically non-decreasing in the input size,
/// for a fixed order and leaf size.
pub proof fn lemma_spec_depth_monotonic(order: nat, leaf_node_size: nat, n1: nat, n2: nat)
    requires
        order >= 2,
        leaf_node_size >= 1,
        n1 <= n2,
    ensures
        spec_depth(order, leaf_node_size, n1) <= spec_depth(order, leaf_node_size, n2),
{
    lemma_spec_depth_bounds(order, leaf_node_size, n1);
    lemma_spec_depth_bounds(order, leaf_node_size, n2);
    let d1 = spec_depth(order, leaf_node_size, n1);
    let d2 = spec_depth(order, leaf_node_size, n2);
    if d2 < d1 {
        // Then d1 > 1, so the power below d1 is at most n1; but d2 is at
        // most that power's exponent, contradicting that d2 levels are
        // enough for n2 >= n1.
        vstd::arithmetic::power::lemma_pow_increases(order, d2, (d1 - 1) as nat);
        lemma_mul_inequality(
            pow(order as int, d2),
            pow(order as int, (d1 - 1) as nat),
            leaf_node_size as int,
        );
    }
}

} // verus!
