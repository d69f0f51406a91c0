use vstd::prelude::*;
use super::bitutils::{nth_bit_u8, set_bit_to, test_bit};
use vstd::arithmetic::power2::{pow2, lemma_pow2_unfold, lemma2_to64};

verus! {

/// The number of levels of a complete binary tree with `n` nodes in breadth-first order.
pub open spec fn tree_height(n: nat) -> nat
    decreases n,
{
    if n == 0 {
        0
    } else {
        1 + tree_height(n / 2)
    }
}

pub proof fn lemma_tree_height_bound(n: nat)
    ensures
        tree_height(n) <= n,
    decreases n,
{
    if n > 0 {
        lemma_tree_height_bound(n / 2);
    }
}

/// The height is the number of binary digits of the node count: a tree of `n >= 1` nodes
/// has height `h` with `2^(h-1) <= n < 2^h`, and an empty one has height 0.
pub proof fn lemma_tree_height_is_bit_length(n: nat)
    ensures
        n == 0 ==> tree_height(n) == 0,
        n >= 1 ==> tree_height(n) >= 1 && pow2((tree_height(n) - 1) as nat) <= n < pow2(tree_height(n)),
    decreases n,
{
    if n == 1 {
        assert(tree_height(0) == 0);
        assert(tree_height(1) == 1);
        lemma_pow2_unfold(1);
        lemma2_to64();
    } else if n >= 2 {
        let h = tree_height(n / 2);
        lemma_tree_height_is_bit_length(n / 2);
        assert(tree_height(n) == 1 + h);
        lemma_pow2_unfold(h + 1);
        lemma_pow2_unfold(h);
        assert(pow2(h) == 2 * pow2((h - 1) as nat));
        assert(pow2(h + 1) == 2 * pow2(h));
    }
}

/// `r` is the error for an index outside the tree.
pub open spec fn is_boundary_error<T>(r: Result<T, &'static str>) -> bool {
    r matches Err(e) && e@ == "requested index outside tree boundary"@
}

/// A statically sized bitmap encoded binary tree. Each node is represented by a single bit
/// stored contiguously in breadth-first order
pub struct BitmapBinaryTree {
    /// The bytes holding the nodes, eight nodes per byte, lowest bit first
    nodes: Vec<u8>,
    /// The number of leaf nodes contained in the tree
    size: usize,
}

impl BitmapBinaryTree {
    /// The number of leaves.
    pub closed spec fn leaf_count(&self) -> nat {
        self.size as nat
    }

    /// The number of nodes: a full tree with `leaf_count` leaves.
    pub open spec fn node_count(&self) -> int {
        2 * self.leaf_count() - 1
    }

    /// The value of node `i`.
    pub closed spec fn node(&self, i: int) -> bool {
        nth_bit_u8(self.nodes@[i / 8], (i % 8) as u8)
    }

    /// The bytes hold a bit for every node.
    pub closed spec fn wf(&self) -> bool {
        self.node_count() <= self.nodes@.len() * 8
    }

    pub fn new(nodes: Vec<u8>, size: usize) -> (r: Self)
        requires
            2 * size - 1 <= nodes@.len() * 8,
        ensures
            r.wf(),
            r.leaf_count() == size,
            forall|i: int| 0 <= i < r.node_count() ==> r.node(i) == nth_bit_u8(nodes@[i / 8], (i % 8) as u8),
    {
        Self { nodes, size }
    }

    /// Gets the value of the node at the given index
    pub fn get_node(&self, index: usize) -> (r: Result<bool, &'static str>)
        requires
            self.wf(),
            1 <= self.leaf_count(),
            2 * self.leaf_count() <= usize::MAX,
        ensures
            index < self.node_count() ==> r == Ok::<bool, &'static str>(self.node(index as int)),
            index >= self.node_count() ==> is_boundary_error(r),
    {
        match self.bound_check(index) {
            Ok(()) => {},
            Err(e) => {
                return Err(e);
            },
        }
        let byte_index = index / 8;
        let bit_index = index % 8;
        let containing_byte = self.nodes[byte_index];
        Ok(test_bit(containing_byte, bit_index as u8))
    }

    /// Set the value of the node at the given index
    pub fn set_node(&mut self, index: usize, value: bool) -> (r: Result<(), &'static str>)
        requires
            old(self).wf(),
            1 <= old(self).leaf_count(),
            2 * old(self).leaf_count() <= usize::MAX,
        ensures
            final(self).wf(),
            final(self).leaf_count() == old(self).leaf_count(),
            index < old(self).node_count() ==> {
                &&& r is Ok
                &&& final(self).node(index as int) == value
                &&& forall|i: int|
                    0 <= i < old(self).node_count() && i != index ==> #[trigger] final(self).node(i)
                        == old(self).node(i)
            },
            index >= old(self).node_count() ==> {
                &&& is_boundary_error(r)
                &&& forall|i: int| 0 <= i < old(self).node_count() ==> #[trigger] final(self).node(i) == old(self).node(i)
            },
    {
        match self.bound_check(index) {
            Ok(()) => {},
            Err(e) => {
                return Err(e);
            },
        }
        let byte_index = index / 8;
        let bit_index = index % 8;
        let containing_byte = self.nodes[byte_index];
        let updated = set_bit_to(containing_byte, bit_index as u8, value);
        self.nodes.set(byte_index, updated);
        proof {
            assert forall|i: int| 0 <= i < old(self).node_count() && i != index implies #[trigger] self.node(i)
                == old(self).node(i) by {
                if i / 8 == byte_index as int {
                    assert((i % 8) as u8 != bit_index as u8);
                }
            }
        }
        Ok(())
    }

    /// Get the indices of the two children nodes of the node at the given index
    pub fn get_children_indices(&self, index: usize) -> (r: Result<Option<(usize, usize)>, &'static str>)
        requires
            1 <= self.leaf_count(),
            2 * self.leaf_count() <= usize::MAX,
            4 * self.leaf_count() <= usize::MAX,
        ensures
            index < self.node_count() ==> r == Ok::<Option<(usize, usize)>, &'static str>(
                if 2 * index + 2 < self.node_count() {
                    Some(((2 * index + 1) as usize, (2 * index + 2) as usize))
                } else {
                    None
                },
            ),
            index >= self.node_count() ==> is_boundary_error(r),
    {
        match self.bound_check(index) {
            Ok(()) => {},
            Err(e) => {
                return Err(e);
            },
        }
        let left_child_index = (2 * index) + 1;
        let right_child_index = (2 * index) + 2;
        if left_child_index >= self.len() || right_child_index >= self.len() {
            return Ok(None);
        }
        Ok(Some((left_child_index, right_child_index)))
    }

    /// Returns the height of the tree: the number of levels of its nodes
    pub fn get_height(&self) -> (r: usize)
        requires
            1 <= self.leaf_count(),
            2 * self.leaf_count() <= usize::MAX,
        ensures
            r == tree_height(self.node_count() as nat),
            r >= 1,
            pow2((r - 1) as nat) <= self.node_count() < pow2(r as nat),
    {
        proof {
            lemma_tree_height_bound(self.node_count() as nat);
            lemma_tree_height_is_bit_length(self.node_count() as nat);
        }
        let mut remaining = self.len();
        let mut height: usize = 0;
        while remaining > 0
            invariant
                height + tree_height(remaining as nat) == tree_height(self.node_count() as nat),
                tree_height(self.node_count() as nat) <= self.node_count(),
                self.node_count() <= usize::MAX,
            decreases remaining,
        {
            assert(tree_height(remaining as nat) == 1 + tree_height((remaining / 2) as nat));
            remaining = remaining / 2;
            height = height + 1;
        }
        height
    }

    /// Returns the number of bytes that the tree's nodes take, one bit per node
    pub fn get_full_size(&self) -> (r: usize)
        requires
            1 <= self.leaf_count(),
            2 * self.leaf_count() <= usize::MAX,
        ensures
            r == (self.node_count() + 7) / 8,
    {
        let n = self.len();
        let q = n / 8;
        if n % 8 == 0 {
            q
        } else {
            q + 1
        }
    }

    /// Returns the number of elements in the tree
    pub fn len(&self) -> (r: usize)
        requires
            1 <= self.leaf_count(),
            2 * self.leaf_count() <= usize::MAX,
        ensures
            r == self.node_count(),
    {
        self.size * 2 - 1
    }

    fn bound_check(&self, index: usize) -> (r: Result<(), &'static str>)
        requires
            1 <= self.leaf_count(),
            2 * self.leaf_count() <= usize::MAX,
        ensures
            index < self.node_count() ==> r is Ok,
            index >= self.node_count() ==> is_boundary_error(r),
    {
        proof {
            reveal_strlit("requested index outside tree boundary");
        }
        if index >= self.len() {
            return Err("requested index outside tree boundary");
        }
        Ok(())
    }
}

} // verus!
