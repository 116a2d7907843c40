//! Checks that decide the tree's invariants by walking it: each returns
//! whether the invariant of the same name holds, on any tree whose store is
//! well linked.

use crate::entries::{ascending_within, lemma_ascending_within, lemma_count_before_at};
use crate::mirror::{lemma_count_entries, lemma_sized_count, Tree};
use crate::node::{lemma_open, lemma_stored_ids, stored};
use crate::order::{Comparison, TotalOrder};
use crate::ranking::{descent_rank, lemma_descent_rank};
use crate::rbtree::RBTree;
use crate::walk::{lemma_all_slots, lemma_at};
use vstd::prelude::*;

verus! {

/// The view of an optional key.
pub(crate) open spec fn bound<K: TotalOrder>(key: Option<&K>) -> Option<K::V> {
    match key {
        Some(k) => Some(k@),
        None => None,
    }
}

impl<K: TotalOrder, V> RBTree<K, V> {
    /// Whether every path from the root to an empty subtree passes the same
    /// number of black nodes.
    pub fn is_balanced(&self) -> (b: bool)
        requires
            self.structured(),
        ensures
            b == self.black_balanced(),
    {
        let mut black: usize = 0;
        let mut node = self.root;
        let ghost mut cur = self.mirror@;
        let ghost mut par: Option<usize> = None;
        proof {
            lemma_stored_ids(self.nodes@, cur, par);
            assert(self.nodes.len() == self.nodes@.len());
        }
        while node.is_some()
            invariant
                stored(self.nodes@, cur, par),
                cur.link() == node,
                black + cur.black_height() == self.mirror@.black_height(),
                black + cur.count() <= self.nodes@.len(),
                self.nodes@.len() <= usize::MAX,
            decreases cur.count(),
        {
            proof {
                lemma_open(self.nodes@, cur, par);
            }
            if !Self::is_red(node, &self.nodes) {
                black += 1;
            }
            let id = node.unwrap();
            node = self.nodes[id].left;
            proof {
                par = Some(id);
                cur = cur.l();
            }
        }
        self.node_balanced(self.root, black, Ghost(self.mirror@), Ghost(None))
    }

    /// Whether every path from `maybe_id` to an empty subtree passes
    /// `black` black nodes.
    pub(crate) fn node_balanced(
        &self,
        maybe_id: Option<usize>,
        black: usize,
        Ghost(t): Ghost<Tree<K::V, V>>,
        Ghost(p): Ghost<Option<usize>>,
    ) -> (b: bool)
        requires
            stored(self.nodes@, t, p),
            t.link() == maybe_id,
        ensures
            b == (t.balanced() && t.black_height() == black),
        decreases t,
    {
        if let Some(id) = maybe_id {
            proof {
                lemma_open(self.nodes@, t, p);
            }
            let red = self.nodes[id].color.is_red();
            if !red && black == 0 {
                return false;
            }
            let below = if red {
                black
            } else {
                black - 1
            };
            self.node_balanced(self.nodes[id].left, below, Ghost(t.l()), Ghost(Some(id)))
                && self.node_balanced(self.nodes[id].right, below, Ghost(t.r()), Ghost(Some(id)))
        } else {
            black == 0
        }
    }

    /// Whether every node records the number of nodes in its subtree.
    pub fn is_size_consistent(&self) -> (b: bool)
        requires
            self.structured(),
        ensures
            b == self.sizes_exact(),
    {
        self.is_node_size_consistent(self.root, Ghost(self.mirror@), Ghost(None))
    }

    /// Whether every node of the tree at `maybe_id` records the number of
    /// nodes in its subtree.
    pub(crate) fn is_node_size_consistent(
        &self,
        maybe_id: Option<usize>,
        Ghost(t): Ghost<Tree<K::V, V>>,
        Ghost(p): Ghost<Option<usize>>,
    ) -> (b: bool)
        requires
            stored(self.nodes@, t, p),
            t.link() == maybe_id,
        ensures
            b == t.sized(),
        decreases t,
    {
        if let Some(id) = maybe_id {
            proof {
                lemma_open(self.nodes@, t, p);
                if t.l().is_fork() {
                    lemma_open(self.nodes@, t.l(), Some(id));
                }
                if t.r().is_fork() {
                    lemma_open(self.nodes@, t.r(), Some(id));
                }
                if t.l().sized() {
                    crate::mirror::lemma_sized_count(t.l());
                }
                if t.r().sized() {
                    crate::mirror::lemma_sized_count(t.r());
                }
            }
            let node = &self.nodes[id];
            let left = Self::size(node.left, &self.nodes);
            let right = Self::size(node.right, &self.nodes);
            let consistent = node.size >= 1 && node.size - 1 >= left && node.size - 1 - left
                == right;
            let below = self.is_node_size_consistent(node.left, Ghost(t.l()), Ghost(Some(id)))
                && self.is_node_size_consistent(node.right, Ghost(t.r()), Ghost(Some(id)));
            consistent && below
        } else {
            true
        }
    }

    /// Whether the tree reads as a 2-3 tree: no red link leans right and
    /// below the root no red node has a red left child.
    pub fn is_23(&self) -> (b: bool)
        requires
            self.structured(),
        ensures
            b == self.two_three(),
    {
        proof {
            if self.mirror@.is_fork() {
                lemma_open(self.nodes@, self.mirror@, None);
            }
        }
        self.is_node_23(self.root, Ghost(self.mirror@), Ghost(None))
    }

    /// Whether no red link leans right in the tree at `maybe_id`, and no red
    /// node but the root of the whole tree has a red left child.
    pub(crate) fn is_node_23(
        &self,
        maybe_id: Option<usize>,
        Ghost(t): Ghost<Tree<K::V, V>>,
        Ghost(p): Ghost<Option<usize>>,
    ) -> (b: bool)
        requires
            stored(self.nodes@, t, p),
            t.link() == maybe_id,
            maybe_id is Some ==> self.root is Some,
            self.root is Some && t.ids().contains(self.root.unwrap()) ==> maybe_id == self.root,
        ensures
            b == (t.leaning() && (maybe_id == self.root || !(t.red() && t.l().red()))),
        decreases t,
    {
        if let Some(id) = maybe_id {
            proof {
                lemma_open(self.nodes@, t, p);
                if t.l().is_fork() {
                    lemma_open(self.nodes@, t.l(), Some(id));
                }
                if t.r().is_fork() {
                    lemma_open(self.nodes@, t.r(), Some(id));
                }
            }
            if Self::is_red(self.nodes[id].right, &self.nodes) {
                return false;
            }
            if id != self.root.unwrap() && self.nodes[id].color.is_red() && Self::is_red(
                self.nodes[id].left,
                &self.nodes,
            ) {
                return false;
            }
            self.is_node_23(self.nodes[id].left, Ghost(t.l()), Ghost(Some(id))) && self.is_node_23(
                self.nodes[id].right,
                Ghost(t.r()),
                Ghost(Some(id)),
            )
        } else {
            true
        }
    }

    /// Whether keys ascend strictly from left to right.
    pub fn is_bst(&self) -> (b: bool)
        requires
            self.structured(),
        ensures
            b == self.ordered(),
    {
        self.is_node_bst(self.root, None, None, Ghost(self.mirror@), Ghost(None))
    }

    /// Whether the keys of the tree at `maybe_id` ascend and lie strictly
    /// between `maybe_min` and `maybe_max`, where these are given.
    pub(crate) fn is_node_bst(
        &self,
        maybe_id: Option<usize>,
        maybe_min: Option<&K>,
        maybe_max: Option<&K>,
        Ghost(t): Ghost<Tree<K::V, V>>,
        Ghost(p): Ghost<Option<usize>>,
    ) -> (b: bool)
        requires
            stored(self.nodes@, t, p),
            t.link() == maybe_id,
        ensures
            b == ascending_within::<K, V>(t.entries(), bound(maybe_min), bound(maybe_max)),
        decreases t,
    {
        if let Some(id) = maybe_id {
            proof {
                lemma_open(self.nodes@, t, p);
                lemma_ascending_within::<K, V>(
                    t.l().entries(),
                    (t.key(), t.value()),
                    t.r().entries(),
                    bound(maybe_min),
                    bound(maybe_max),
                );
            }
            let key = &self.nodes[id].key;
            if let Some(min) = maybe_min {
                match min.compare(key) {
                    Comparison::Less => {},
                    _ => {
                        return false;
                    },
                }
            }
            if let Some(max) = maybe_max {
                match key.compare(max) {
                    Comparison::Less => {},
                    _ => {
                        return false;
                    },
                }
            }
            self.is_node_bst(self.nodes[id].left, maybe_min, Some(key), Ghost(t.l()), Ghost(Some(id)))
                && self.is_node_bst(
                self.nodes[id].right,
                Some(key),
                maybe_max,
                Ghost(t.r()),
                Ghost(Some(id)),
            )
        } else {
            true
        }
    }
}

impl<K: TotalOrder, V> RBTree<K, V> {
    /// A descent for each key of the tree ends at the key's own place in
    /// the order.
    pub open(crate) spec fn rank_consistent(&self) -> bool {
        forall|i: int|
            0 <= i < self.entries().len() ==> descent_rank::<K, V>(
                self.mirror@,
                (#[trigger] self.entries()[i]).0,
            ) == i
    }

    /// Whether rank and select agree: the key at each place has that place
    /// as its rank, and each key stands at the place of its rank.
    pub fn is_rank_consistent(&self) -> (b: bool)
        requires
            self.structured(),
            self.sizes_exact(),
        ensures
            b == self.rank_consistent(),
    {
        let ghost t = self.mirror@;
        let ghost e = self.entries();
        proof {
            lemma_count_entries(t);
            lemma_sized_count(t);
            if t.is_fork() {
                lemma_open(self.nodes@, t, None);
            }
        }
        let len = Self::size(self.root, &self.nodes);
        let mut i: usize = 0;
        while i < len
            invariant
                self.structured(),
                self.sizes_exact(),
                t == self.mirror@,
                e == self.entries(),
                len == e.len(),
                len == t.count(),
                0 <= i <= len,
                forall|j: int| 0 <= j < i ==> descent_rank::<K, V>(t, (#[trigger] e[j]).0) == j,
            decreases len - i,
        {
            let at = self.select_from_node(i, self.root.unwrap(), Ghost(t), Ghost(None));
            let rank = self.rank_in_subtree(&self.nodes[at].key, self.root, Ghost(t), Ghost(None));
            if i != rank {
                return false;
            }
            i += 1;
        }
        let mut s: usize = 0;
        proof {
            lemma_stored_ids(self.nodes@, t, None);
        }
        while s < self.nodes.len()
            invariant
                self.structured(),
                self.sizes_exact(),
                t == self.mirror@,
                e == self.entries(),
                len == e.len(),
                len == t.count(),
                self.rank_consistent(),
                0 <= s <= self.nodes@.len(),
            decreases self.nodes@.len() - s,
        {
            proof {
                lemma_all_slots(self.nodes@, t, None, s);
                lemma_at(self.nodes@, t, None, s);
                assert(e[t.place_of(s)].0 == self.nodes@[s as int].key@);
            }
            let key = &self.nodes[s].key;
            let rank = self.rank_in_subtree(key, self.root, Ghost(t), Ghost(None));
            if rank >= len {
                return false;
            }
            let at = self.select_from_node(rank, self.root.unwrap(), Ghost(t), Ghost(None));
            match key.compare(&self.nodes[at].key) {
                Comparison::Equal => {},
                _ => {
                    return false;
                },
            }
            s += 1;
        }
        true
    }

    /// Whether the tree passes every check: the order of its keys, its
    /// sizes, the agreement of rank and select, its 2-3 shape and its
    /// balance.
    pub fn check(&self) -> (good: bool)
        requires
            self.structured(),
        ensures
            good == (self.ordered() && self.sizes_exact() && self.rank_consistent()
                && self.two_three() && self.black_balanced()),
    {
        let mut good = self.is_bst();
        if !self.is_size_consistent() {
            good = false;
        } else if !self.is_rank_consistent() {
            good = false;
        }
        if !self.is_23() {
            good = false;
        }
        if !self.is_balanced() {
            good = false;
        }
        good
    }
}

/// In a well-formed tree rank and select agree.
pub proof fn lemma_rank_consistent<K: TotalOrder, V>(tree: &RBTree<K, V>)
    requires
        tree.wf(),
    ensures
        tree.rank_consistent(),
{
    assert forall|i: int| 0 <= i < tree.entries().len() implies descent_rank::<K, V>(
        tree.mirror@,
        (#[trigger] tree.entries()[i]).0,
    ) == i by {
        lemma_descent_rank::<K, V>(tree.mirror@, tree.entries()[i].0);
        lemma_count_before_at::<K, V>(tree.entries(), i);
    }
}

} // verus!
