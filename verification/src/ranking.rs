//! Order statistics: the number of keys below a key, and the entry at a
//! given place in the order.

use crate::entries::{count_before, lemma_ascending_sides, lemma_count_before_sides};
use crate::mirror::{lemma_count_entries, lemma_sized_count, Tree};
use crate::node::{lemma_open, stored};
use crate::order::{Comparison, TotalOrder};
use crate::rbtree::RBTree;
use rand::Rng;
use vstd::prelude::*;

verus! {

/// A place in the order that the tree does not have.
#[derive(Clone, Copy, Debug, PartialEq, Eq)]
pub struct OutOfRange {
    /// The place that was asked for.
    pub rank: usize,
    /// The number of entries.
    pub len: usize,
}

/// `random_below(n)` draws `rand::thread_rng().gen_range(0..n)`: a value of
/// the half-open range, which must not be empty. Which value comes back is
/// not stated.
#[verifier::external_body]
fn random_below(n: usize) -> (r: usize)
    requires
        n > 0,
    ensures
        r < n,
{
    rand::thread_rng().gen_range(0..n)
}

/// The rank that a descent from the root of `t` gives `k`: at each node it
/// turns left or right by the node's key and adds the sizes recorded on its
/// way.
pub(crate) open spec fn descent_rank<K: TotalOrder, V>(t: Tree<K::V, V>, k: K::V) -> nat
    decreases t,
{
    match t {
        Tree::Leaf => 0,
        Tree::Fork { left, key, right, .. } => if K::precedes(k, key) {
            descent_rank::<K, V>(*left, k)
        } else if K::precedes(key, k) {
            1 + left.size() as nat + descent_rank::<K, V>(*right, k)
        } else {
            left.size() as nat
        },
    }
}

/// In a tree with exact sizes the descent stays within the tree, and where
/// the keys ascend it counts the keys that precede `k`.
pub(crate) proof fn lemma_descent_rank<K: TotalOrder, V>(t: Tree<K::V, V>, k: K::V)
    requires
        t.sized(),
    ensures
        descent_rank::<K, V>(t, k) <= t.count(),
        crate::entries::ascending::<K, V>(t.entries()) ==> descent_rank::<K, V>(t, k)
            == count_before::<K, V>(t.entries(), k),
    decreases t,
{
    match t {
        Tree::Leaf => {},
        Tree::Fork { left, key, value, right, .. } => {
            lemma_descent_rank::<K, V>(*left, k);
            lemma_descent_rank::<K, V>(*right, k);
            lemma_sized_count(*left);
            lemma_count_entries(*left);
            if crate::entries::ascending::<K, V>(t.entries()) {
                lemma_ascending_sides::<K, V>(left.entries(), (key, value), right.entries());
                lemma_count_before_sides::<K, V>(left.entries(), (key, value), right.entries(), k);
                K::precedes_connected(k, key);
                if K::precedes(k, key) && K::precedes(key, k) {
                    K::precedes_transitive(k, key, k);
                    K::precedes_irreflexive(k);
                }
            }
        },
    }
}

impl<K: TotalOrder, V> RBTree<K, V> {
    /// The number of keys of the tree that precede `key`.
    pub open spec fn rank_of(&self, key: K::V) -> nat {
        count_before::<K, V>(self.entries(), key)
    }

    /// The number of keys that precede `key`.
    pub fn rank(&self, key: &K) -> (r: usize)
        requires
            self.wf(),
        ensures
            r == self.rank_of(key@),
            r <= self.entries().len(),
    {
        proof {
            crate::entries::lemma_count_before_all::<K, V>(self.entries(), key@);
            lemma_descent_rank::<K, V>(self.mirror@, key@);
        }
        self.rank_in_subtree(key, self.root, Ghost(self.mirror@), Ghost(None))
    }

    /// The rank that a descent from `maybe_id` gives `key`.
    pub(crate) fn rank_in_subtree(
        &self,
        key: &K,
        maybe_id: Option<usize>,
        Ghost(t): Ghost<Tree<K::V, V>>,
        Ghost(p): Ghost<Option<usize>>,
    ) -> (r: usize)
        requires
            stored(self.nodes@, t, p),
            t.link() == maybe_id,
            t.sized(),
        ensures
            r == descent_rank::<K, V>(t, key@),
        decreases t,
    {
        if let Some(id) = maybe_id {
            proof {
                lemma_open(self.nodes@, t, p);
                if t.l().is_fork() {
                    lemma_open(self.nodes@, t.l(), Some(id));
                }
                lemma_sized_count(t);
                lemma_sized_count(t.l());
                lemma_descent_rank::<K, V>(t.r(), key@);
                crate::node::lemma_stored_ids(self.nodes@, t, p);
                K::precedes_irreflexive(key@);
                if K::precedes(key@, t.key()) {
                    crate::order::precedes_asymmetric::<K>(key@, t.key());
                }
                assert(self.nodes.len() == self.nodes@.len());
            }
            match key.compare(&self.nodes[id].key) {
                Comparison::Less => self.rank_in_subtree(
                    key,
                    self.nodes[id].left,
                    Ghost(t.l()),
                    Ghost(Some(id)),
                ),
                Comparison::Greater => {
                    1 + Self::size(self.nodes[id].left, &self.nodes) + self.rank_in_subtree(
                        key,
                        self.nodes[id].right,
                        Ghost(t.r()),
                        Ghost(Some(id)),
                    )
                },
                Comparison::Equal => Self::size(self.nodes[id].left, &self.nodes),
            }
        } else {
            0
        }
    }

    /// The key at place `rank` of the order, counted from 0.
    pub fn select(&self, rank: usize) -> (r: Result<&K, OutOfRange>)
        requires
            self.wf(),
        ensures
            rank < self.entries().len() ==> r is Ok && r.unwrap()@ == self.entries()[rank as int].0,
            rank >= self.entries().len() ==> r == Err::<&K, OutOfRange>(
                OutOfRange { rank, len: self.entries().len() as usize },
            ),
    {
        match self.select_entry(rank) {
            Ok((key, _)) => Ok(key),
            Err(e) => Err(e),
        }
    }

    /// The entry at place `rank` of the order, counted from 0.
    pub fn select_entry(&self, rank: usize) -> (r: Result<(&K, &V), OutOfRange>)
        requires
            self.wf(),
        ensures
            rank < self.entries().len() ==> r is Ok && r.unwrap().0@ == self.entries()[rank as int].0
                && *r.unwrap().1 == self.entries()[rank as int].1,
            rank >= self.entries().len() ==> r == Err::<(&K, &V), OutOfRange>(
                OutOfRange { rank, len: self.entries().len() as usize },
            ),
    {
        let len = self.len();
        if rank >= len {
            return Err(OutOfRange { rank, len });
        }
        proof {
            lemma_count_entries(self.mirror@);
        }
        let id = self.select_from_node(rank, self.root.unwrap(), Ghost(self.mirror@), Ghost(None));
        let node = &self.nodes[id];
        Ok((&node.key, &node.value))
    }

    /// The slot of the node at place `rank` of the tree at `id`.
    pub(crate) fn select_from_node(
        &self,
        rank: usize,
        id: usize,
        Ghost(t): Ghost<Tree<K::V, V>>,
        Ghost(p): Ghost<Option<usize>>,
    ) -> (r: usize)
        requires
            stored(self.nodes@, t, p),
            t.link() == Some(id),
            t.sized(),
            rank < t.count(),
        ensures
            r < self.nodes@.len(),
            t.ids().contains(r),
            r == t.order()[rank as int],
            self.nodes@[r as int].key@ == t.entries()[rank as int].0,
            self.nodes@[r as int].value == t.entries()[rank as int].1,
        decreases t,
    {
        proof {
            lemma_open(self.nodes@, t, p);
            if t.l().is_fork() {
                lemma_open(self.nodes@, t.l(), Some(id));
            }
            lemma_sized_count(t);
            lemma_sized_count(t.l());
            lemma_count_entries(t.l());
            lemma_count_entries(t.r());
        }
        let below = Self::size(self.nodes[id].left, &self.nodes);
        if below > rank {
            self.select_from_node(rank, self.nodes[id].left.unwrap(), Ghost(t.l()), Ghost(Some(id)))
        } else if below < rank {
            self.select_from_node(
                rank - below - 1,
                self.nodes[id].right.unwrap(),
                Ghost(t.r()),
                Ghost(Some(id)),
            )
        } else {
            id
        }
    }

    /// An entry drawn at random, or `None` from an empty tree.
    pub fn random(&self) -> (r: Option<(&K, &V)>)
        requires
            self.wf(),
        ensures
            self.entries().len() == 0 ==> r is None,
            self.entries().len() > 0 ==> r is Some && exists|i: int|
                0 <= i < self.entries().len() && r.unwrap().0@ == (#[trigger] self.entries()[i]).0
                    && *r.unwrap().1 == self.entries()[i].1,
    {
        if self.is_empty() {
            None
        } else {
            let rank = random_below(self.len());
            match self.select_entry(rank) {
                Ok(entry) => Some(entry),
                Err(_) => None,
            }
        }
    }
}

/// The key at place `i` has `i` keys before it.
pub proof fn lemma_rank_of_select<K: TotalOrder, V>(tree: &RBTree<K, V>, i: int)
    requires
        tree.wf(),
        0 <= i < tree.entries().len(),
    ensures
        tree.rank_of(tree.entries()[i].0) == i,
{
    crate::entries::lemma_count_before_at::<K, V>(tree.entries(), i);
}

/// A key of the tree stands at the place that its rank gives.
pub proof fn lemma_select_of_rank<K: TotalOrder, V>(tree: &RBTree<K, V>, key: K::V)
    requires
        tree.wf(),
        tree@.contains_key(key),
    ensures
        tree.rank_of(key) < tree.entries().len(),
        tree.entries()[tree.rank_of(key) as int].0 == key,
{
    let i = crate::entries::position(tree.entries(), key);
    crate::entries::lemma_count_before_at::<K, V>(tree.entries(), i);
}

/// After the entry under `key` has left the tree, the rank of any other
/// key is one less if `key` preceded it, and as it was otherwise: the keys
/// that are left keep their order.
pub proof fn lemma_rank_after_delete<K: TotalOrder, V>(
    before: &RBTree<K, V>,
    after: &RBTree<K, V>,
    key: K::V,
    other: K::V,
)
    requires
        before.wf(),
        before@.contains_key(key),
        after.entries() == before.entries().remove(before.rank_of(key) as int),
    ensures
        after.rank_of(other) + (if K::precedes(key, other) {
            1nat
        } else {
            0nat
        }) == before.rank_of(other),
{
    lemma_select_of_rank(before, key);
    crate::entries::lemma_count_before_removed::<K, V>(
        before.entries(),
        before.rank_of(key) as int,
        other,
    );
}

} // verus!
