//! Where a slot stands in the order of a stored tree: the subtree below
//! it, the stretch of the order that this subtree covers, and how that
//! stretch lies within its parent's.

use crate::mirror::{lemma_count_entries, lemma_slots_bounded, Tree};
use crate::node::{lemma_open, lemma_stored_ids, stored, Node};
use crate::order::TotalOrder;
use vstd::prelude::*;

verus! {

impl<A, V> Tree<A, V> {
    /// The subtree whose root is stored at `s`.
    pub open spec fn at(self, s: usize) -> Tree<A, V>
        decreases self,
    {
        match self {
            Tree::Leaf => Tree::Leaf,
            Tree::Fork { left, slot, right, .. } => if slot == s {
                self
            } else if left.ids().contains(s) {
                left.at(s)
            } else {
                right.at(s)
            },
        }
    }

    /// The place in the order where the subtree stored at `s` begins.
    pub open spec fn start_of(self, s: usize) -> int
        decreases self,
    {
        match self {
            Tree::Leaf => 0,
            Tree::Fork { left, slot, right, .. } => if slot == s {
                0
            } else if left.ids().contains(s) {
                left.start_of(s)
            } else {
                left.count() + 1 + right.start_of(s)
            },
        }
    }

    /// The place of the slot `s` in the order.
    pub open spec fn place_of(self, s: usize) -> int {
        self.start_of(s) + self.at(s).l().count()
    }
}

/// The subtree below a slot of a stored tree is stored, and covers one
/// stretch of the order, in which the slot has its place.
pub(crate) proof fn lemma_at<K: TotalOrder, V>(
    a: Seq<Node<K, V>>,
    t: Tree<K::V, V>,
    p: Option<usize>,
    s: usize,
)
    requires
        stored(a, t, p),
        t.ids().contains(s),
    ensures
        s < a.len(),
        t.at(s).is_fork(),
        t.at(s).slot() == s,
        stored(a, t.at(s), a[s as int].parent),
        t.at(s).ids().subset_of(t.ids()),
        1 <= t.at(s).count() <= t.count(),
        0 <= t.start_of(s),
        t.start_of(s) + t.at(s).count() <= t.count(),
        0 <= t.place_of(s) < t.count(),
        t.order().subrange(t.start_of(s), t.start_of(s) + t.at(s).count()) == t.at(s).order(),
        t.entries().subrange(t.start_of(s), t.start_of(s) + t.at(s).count()) == t.at(
            s,
        ).entries(),
        t.order()[t.place_of(s)] == s,
        t.entries()[t.place_of(s)] == (a[s as int].key@, a[s as int].value),
        s == t.slot() ==> t.at(s) == t && t.start_of(s) == 0 && a[s as int].parent == p,
    decreases t,
{
    lemma_open(a, t, p);
    lemma_count_entries(t);
    lemma_count_entries(t.l());
    lemma_count_entries(t.r());
    let slot = t.slot();
    if s == slot {
    } else if t.l().ids().contains(s) {
        lemma_at(a, t.l(), Some(slot), s);
    } else {
        lemma_at(a, t.r(), Some(slot), s);
    }
}

/// Below the root a node's parent lies in the tree, and the node's stretch
/// of the order begins the parent's or follows the parent's place.
pub(crate) proof fn lemma_above<K: TotalOrder, V>(
    a: Seq<Node<K, V>>,
    t: Tree<K::V, V>,
    p: Option<usize>,
    s: usize,
)
    requires
        stored(a, t, p),
        t.ids().contains(s),
        s != t.slot(),
    ensures
        a[s as int].parent is Some,
        t.ids().contains(a[s as int].parent.unwrap()),
        ({
            let q = a[s as int].parent.unwrap();
            ||| (t.at(q).l() == t.at(s) && t.start_of(q) == t.start_of(s))
            ||| (t.at(q).r() == t.at(s) && t.start_of(s) == t.place_of(q) + 1)
        }),
    decreases t,
{
    lemma_open(a, t, p);
    let slot = t.slot();
    if t.l().ids().contains(s) {
        lemma_at(a, t.l(), Some(slot), s);
        if s != t.l().slot() {
            lemma_above(a, t.l(), Some(slot), s);
        }
    } else {
        lemma_at(a, t.r(), Some(slot), s);
        if s != t.r().slot() {
            lemma_above(a, t.r(), Some(slot), s);
        }
    }
}

/// The slot at a place of the order lies in the tree and has that place.
pub(crate) proof fn lemma_place<K: TotalOrder, V>(
    a: Seq<Node<K, V>>,
    t: Tree<K::V, V>,
    p: Option<usize>,
    j: int,
)
    requires
        stored(a, t, p),
        0 <= j < t.count(),
    ensures
        t.order().len() == t.count(),
        t.ids().contains(t.order()[j]),
        t.place_of(t.order()[j]) == j,
    decreases t,
{
    lemma_open(a, t, p);
    lemma_count_entries(t);
    lemma_count_entries(t.l());
    lemma_count_entries(t.r());
    let n = t.l().count() as int;
    if j < n {
        lemma_place(a, t.l(), Some(t.slot()), j);
    } else if j > n {
        lemma_place(a, t.r(), Some(t.slot()), j - n - 1);
    }
}

/// A tree with as many nodes as the store has slots fills every slot.
pub(crate) proof fn lemma_all_slots<K: TotalOrder, V>(
    a: Seq<Node<K, V>>,
    t: Tree<K::V, V>,
    p: Option<usize>,
    s: usize,
)
    requires
        stored(a, t, p),
        t.count() == a.len(),
        s < a.len(),
    ensures
        t.ids().contains(s),
{
    lemma_stored_ids(a, t, p);
    if !t.ids().contains(s) {
        lemma_slots_bounded(t.ids().insert(s), a.len());
    }
}

} // verus!
