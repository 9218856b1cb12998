//! Disjoint sets of nodes, kept by a unification table.
use ena::unify::{InPlace, UnificationTable, UnifyKey};
use vstd::prelude::*;

use crate::components::relabel;

verus! {

/// The key of a node in the unification table: its index.
#[derive(Copy, Clone, Debug, PartialEq)]
pub struct NodeKey(u32);

impl NodeKey {
    /// The index that the key holds.
    pub closed spec fn node(&self) -> u32 {
        self.0
    }

    /// A key is its index: keys that hold the same index are the same key.
    pub proof fn lemma_same_node(a: NodeKey, b: NodeKey)
        requires
            a.node() == b.node(),
        ensures
            a == b,
    {
    }
}

impl UnifyKey for NodeKey {
    type Value = ();

    /// The index of the node.
    fn index(&self) -> (i: u32)
        ensures
            i == self.node(),
    {
        self.0
    }

    /// The key of the node with index `u`.
    fn from_index(u: u32) -> (key: NodeKey)
        ensures
            key.node() == u,
    {
        NodeKey(u)
    }

    /// The name of the key type.
    fn tag() -> (name: &'static str)
        ensures
            name@ == "NodeKey"@,
    {
        "NodeKey"
    }
}

/// A partition of the nodes `0..n` into classes, held in a unification
/// table with one key per node.
#[verifier::external_body]
pub struct UnionFind {
    table: UnificationTable<InPlace<NodeKey>>,
}

/// For every key of the table, in the order in which the keys were made,
/// the key that stands for its class: the root that `find` returns.
pub uninterp spec fn class_roots(uf: UnionFind) -> Seq<int>;

impl UnionFind {
    /// Calls `UnificationTable::new`: a table without keys.
    #[verifier::external_body]
    fn empty() -> (uf: UnionFind)
        ensures
            class_roots(uf) == Seq::<int>::empty(),
    {
        UnionFind { table: UnificationTable::new() }
    }

    /// Calls `UnificationTable::new_key`: the new key is numbered by the
    /// count of keys before it, which must fit its 32 bits, and is the root
    /// of a class of its own.
    #[verifier::external_body]
    fn new_key(&mut self) -> (key: u32)
        requires
            class_roots(*old(self)).len() <= u32::MAX,
        ensures
            key == class_roots(*old(self)).len(),
            class_roots(*final(self)) == class_roots(*old(self)).push(key as int),
    {
        self.table.new_key(()).0
    }

    /// Calls `UnificationTable::unioned` on the keys of two nodes: whether
    /// both have the same root. The table may shorten its paths, which
    /// changes no root.
    #[verifier::external_body]
    pub(crate) fn unioned(&mut self, a: usize, b: usize) -> (same: bool)
        requires
            a < class_roots(*old(self)).len(),
            b < class_roots(*old(self)).len(),
        ensures
            class_roots(*final(self)) == class_roots(*old(self)),
            same == (class_roots(*old(self))[a as int] == class_roots(*old(self))[b as int]),
    {
        self.table.unioned(NodeKey(a as u32), NodeKey(b as u32))
    }

    /// Calls `UnificationTable::union` on the keys of two nodes: the root of
    /// one of the two classes becomes the root of both. Which of the two it
    /// is depends on the ranks that the table keeps.
    #[verifier::external_body]
    pub(crate) fn union(&mut self, a: usize, b: usize)
        requires
            a < class_roots(*old(self)).len(),
            b < class_roots(*old(self)).len(),
        ensures
            ({
                let roots = class_roots(*old(self));
                ||| class_roots(*final(self)) == relabel(roots, roots[a as int], roots[b as int])
                ||| class_roots(*final(self)) == relabel(roots, roots[b as int], roots[a as int])
            }),
    {
        self.table.union(NodeKey(a as u32), NodeKey(b as u32))
    }

    /// Creates the partition of the nodes `0..n` in which every node is a
    /// class of its own.
    pub fn singletons(n: usize) -> (uf: UnionFind)
        requires
            n <= u32::MAX,
        ensures
            class_roots(uf) == Seq::new(n as nat, |i: int| i),
    {
        let mut uf = UnionFind::empty();
        let mut i: usize = 0;
        while i < n
            invariant
                i <= n,
                n <= u32::MAX,
                class_roots(uf) == Seq::new(i as nat, |i: int| i),
            decreases n - i,
        {
            uf.new_key();
            i += 1;
        }
        uf
    }
}

} // verus!
