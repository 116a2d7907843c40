//! Walking the tree in ascending key order, from each node to its
//! successor by way of child and parent handles.

use crate::entries::lemma_ascending_position;
use crate::mirror::{lemma_count_entries, Tree};
use crate::node::{lemma_open, stored, Node};
use crate::order::{precedes_asymmetric, Comparison, TotalOrder};
use crate::rbtree::RBTree;
use crate::walk::{lemma_above, lemma_all_slots, lemma_at, lemma_place};
use vstd::prelude::*;

verus! {

/// Whether `a` does not precede `b`.
pub(crate) fn at_least<K: TotalOrder>(a: &K, b: &K) -> (r: bool)
    ensures
        r == !K::precedes(a@, b@),
{
    match a.compare(b) {
        Comparison::Less => false,
        _ => true,
    }
}

/// A place in the walk over a tree: the node to visit next, if any.
pub struct TreeIterator<'a, K: TotalOrder, V> {
    pub(crate) next_node: Option<usize>,
    pub(crate) tree: &'a RBTree<K, V>,
}

impl<K: TotalOrder, V> RBTree<K, V> {
    /// The slot of the leftmost node of the tree at `id`.
    pub(crate) fn min(
        id: usize,
        nodes: &Vec<Node<K, V>>,
        Ghost(t): Ghost<Tree<K::V, V>>,
        Ghost(p): Ghost<Option<usize>>,
    ) -> (r: usize)
        requires
            stored(nodes@, t, p),
            t.link() == Some(id),
        ensures
            t.order().len() > 0,
            r == t.order()[0],
            t.ids().contains(r),
    {
        let mut id = id;
        let ghost mut cur = t;
        let ghost mut par = p;
        proof {
            lemma_count_entries(t);
        }
        loop
            invariant
                stored(nodes@, cur, par),
                cur.link() == Some(id),
                cur.order().len() > 0,
                t.order().len() > 0,
                cur.order()[0] == t.order()[0],
                cur.ids().subset_of(t.ids()),
            ensures
                id == t.order()[0],
                t.ids().contains(id),
            decreases cur.count(),
        {
            proof {
                lemma_open(nodes@, cur, par);
                lemma_count_entries(cur.l());
            }
            if let Some(left) = nodes[id].left {
                proof {
                    par = Some(id);
                    cur = cur.l();
                }
                id = left;
            } else {
                break ;
            }
        }
        id
    }

    /// The slot of the node that follows `from` in key order, if any.
    pub(crate) fn find_next(&self, from: usize) -> (r: Option<usize>)
        requires
            self.wf(),
            from < self.nodes@.len(),
        ensures
            self.mirror@.place_of(from) + 1 < self.mirror@.count() ==> r == Some(
                self.mirror@.order()[self.mirror@.place_of(from) + 1],
            ),
            self.mirror@.place_of(from) + 1 >= self.mirror@.count() ==> r is None,
            r is Some ==> r.unwrap() < self.nodes@.len(),
    {
        let ghost t = self.mirror@;
        let ghost e = t.entries();
        let ghost j = t.place_of(from);
        let start = from;
        let mut node = from;
        proof {
            lemma_all_slots(self.nodes@, t, None, start);
            lemma_at(self.nodes@, t, None, start);
            lemma_open(self.nodes@, t.at(start), self.nodes@[start as int].parent);
            lemma_count_entries(t);
            lemma_count_entries(t.at(start));
            lemma_count_entries(t.at(start).l());
        }
        let the_key = &self.nodes[start].key;
        if let Some(right) = self.nodes[node].right {
            node = Self::min(right, &self.nodes, Ghost(t.at(start).r()), Ghost(Some(start)));
            proof {
                let sub = t.at(start);
                let lo = t.start_of(start);
                let n = sub.l().count() as int;
                lemma_count_entries(sub.r());
                assert(sub.order()[n + 1] == sub.r().order()[0]);
                assert(t.order().subrange(lo, lo + sub.count())[n + 1] == t.order()[j + 1]);
                lemma_place(self.nodes@, t, None, j + 1);
                lemma_at(self.nodes@, t, None, node);
            }
        } else {
            while at_least(the_key, &self.nodes[node].key)
                invariant
                    self.wf(),
                    t == self.mirror@,
                    e == t.entries(),
                    the_key@ == e[j].0,
                    start == from,
                    j == t.place_of(start),
                    0 <= j < t.count(),
                    e.len() == t.count(),
                    node < self.nodes@.len(),
                    t.ids().contains(node),
                    t.start_of(node) + t.at(node).count() == j + 1 || t.place_of(node) == j + 1,
                decreases t.count() - t.at(node).count(),
            {
                proof {
                    lemma_at(self.nodes@, t, None, node);
                    if t.place_of(node) == j + 1 {
                        assert(K::precedes(e[j].0, e[j + 1].0));
                    }
                    if node != t.slot() {
                        lemma_above(self.nodes@, t, None, node);
                        lemma_at(self.nodes@, t, None, self.nodes@[node as int].parent.unwrap());
                    }
                }
                if let Some(parent) = self.nodes[node].parent {
                    node = parent;
                } else {
                    return None;
                }
            }
            proof {
                lemma_at(self.nodes@, t, None, node);
                let i = t.place_of(node);
                K::precedes_irreflexive(e[j].0);
                if i < j {
                    assert(K::precedes(e[i].0, e[j].0));
                    precedes_asymmetric::<K>(e[i].0, e[j].0);
                }
                assert(i == j + 1);
                lemma_open(self.nodes@, t.at(node), self.nodes@[node as int].parent);
                if t.at(node).r().is_fork() {
                    let right = t.at(node).r().slot();
                    assert(t.at(node).ids().contains(right));
                    lemma_open(self.nodes@, t.at(node).r(), Some(node));
                    lemma_at(self.nodes@, t, None, right);
                    lemma_above(self.nodes@, t, None, right);
                    if t.at(node).l().is_fork() {
                        lemma_open(self.nodes@, t.at(node).l(), Some(node));
                    }
                    let k = t.place_of(right);
                    assert(k > j);
                    assert(K::precedes(e[j].0, e[k].0));
                    precedes_asymmetric::<K>(e[j].0, e[k].0);
                }
            }
            if let Some(right) = self.nodes[node].right {
                if !at_least(&self.nodes[right].key, the_key) {
                    node = Self::min(
                        right,
                        &self.nodes,
                        Ghost(t.at(node).r()),
                        Ghost(Some(node)),
                    );
                }
            }
        }
        Some(node)
    }

    /// The keys, each once, in the order of the store.
    pub fn keys(&self) -> (r: Vec<&K>)
        requires
            self.wf(),
        ensures
            r@.len() == self.entries().len(),
            forall|i: int| 0 <= i < r@.len() ==> self@.contains_key(#[trigger] r@[i]@),
            forall|i: int, j: int|
                0 <= i < j < r@.len() ==> (#[trigger] r@[i])@ != (#[trigger] r@[j])@,
    {
        let ghost t = self.mirror@;
        let ghost e = t.entries();
        let mut out: Vec<&K> = Vec::new();
        let mut i: usize = 0;
        proof {
            lemma_count_entries(t);
        }
        while i < self.nodes.len()
            invariant
                self.wf(),
                t == self.mirror@,
                e == t.entries(),
                e.len() == t.count(),
                0 <= i <= self.nodes@.len(),
                out@.len() == i,
                forall|s: int| 0 <= s < i ==> (#[trigger] out@[s])@ == self.nodes@[s].key@,
            decreases self.nodes@.len() - i,
        {
            out.push(&self.nodes[i].key);
            i += 1;
        }
        proof {
            assert forall|s: int| 0 <= s < out@.len() implies self@.contains_key(
                #[trigger] out@[s]@,
            ) by {
                lemma_all_slots(self.nodes@, t, None, s as usize);
                lemma_at(self.nodes@, t, None, s as usize);
                lemma_ascending_position::<K, V>(e, t.place_of(s as usize));
            }
            assert forall|a: int, b: int| 0 <= a < b < out@.len() implies (#[trigger] out@[a])@
                != (#[trigger] out@[b])@ by {
                lemma_all_slots(self.nodes@, t, None, a as usize);
                lemma_all_slots(self.nodes@, t, None, b as usize);
                lemma_at(self.nodes@, t, None, a as usize);
                lemma_at(self.nodes@, t, None, b as usize);
                lemma_ascending_position::<K, V>(e, t.place_of(a as usize));
                lemma_ascending_position::<K, V>(e, t.place_of(b as usize));
            }
        }
        out
    }

    /// The entries in ascending key order.
    pub fn to_vec(&self) -> (r: Vec<(&K, &V)>)
        requires
            self.wf(),
        ensures
            r@.len() == self.entries().len(),
            forall|i: int|
                0 <= i < r@.len() ==> (#[trigger] r@[i]).0@ == self.entries()[i].0 && *r@[i].1
                    == self.entries()[i].1,
    {
        let mut out: Vec<(&K, &V)> = Vec::new();
        let mut walk = self.into_iter();
        loop
            invariant
                self.wf(),
                walk.wf(),
                walk.tree() == self,
                out@.len() == walk.position(),
                0 <= walk.position() <= self.entries().len(),
                forall|i: int|
                    0 <= i < out@.len() ==> (#[trigger] out@[i]).0@ == self.entries()[i].0
                        && *out@[i].1 == self.entries()[i].1,
            ensures
                out@.len() == self.entries().len(),
                forall|i: int|
                    0 <= i < out@.len() ==> (#[trigger] out@[i]).0@ == self.entries()[i].0
                        && *out@[i].1 == self.entries()[i].1,
            decreases self.entries().len() - walk.position(),
        {
            match walk.next() {
                Some(entry) => {
                    out.push(entry);
                },
                None => {
                    break ;
                },
            }
        }
        out
    }

    /// A walk over the entries in ascending key order, at its beginning.
    pub fn into_iter(&self) -> (it: TreeIterator<'_, K, V>)
        requires
            self.wf(),
        ensures
            it.wf(),
            it.tree() == self,
            it.position() == 0,
    {
        let next_node = if self.is_empty() {
            None
        } else {
            proof {
                lemma_count_entries(self.mirror@);
                lemma_place(self.nodes@, self.mirror@, None, 0);
            }
            let first = Self::min(self.root.unwrap(), &self.nodes, Ghost(self.mirror@), Ghost(None));
            proof {
                crate::node::lemma_stored_ids(self.nodes@, self.mirror@, None);
            }
            Some(first)
        };
        proof {
            lemma_count_entries(self.mirror@);
        }
        TreeIterator { next_node, tree: self }
    }
}

impl<'a, K: TotalOrder, V> TreeIterator<'a, K, V> {
    /// The tree that is walked.
    pub closed spec fn tree(&self) -> &'a RBTree<K, V> {
        self.tree
    }

    /// The tree is well formed and the node to visit next is one of its
    /// nodes.
    pub open(crate) spec fn wf(&self) -> bool {
        &&& self.tree.wf()
        &&& self.next_node is Some ==> self.next_node.unwrap() < self.tree.nodes@.len()
    }

    /// The number of entries already visited.
    pub open(crate) spec fn position(&self) -> int {
        match self.next_node {
            Some(s) => self.tree.mirror@.place_of(s),
            None => self.tree.mirror@.count() as int,
        }
    }

    /// The next entry in ascending key order, or `None` after the last.
    pub fn next(&mut self) -> (r: Option<(&'a K, &'a V)>)
        requires
            old(self).wf(),
        ensures
            final(self).wf(),
            final(self).tree() == old(self).tree(),
            0 <= old(self).position() <= old(self).tree().entries().len(),
            old(self).position() < old(self).tree().entries().len() ==> {
                &&& r is Some
                &&& r.unwrap().0@ == old(self).tree().entries()[old(self).position()].0
                &&& *r.unwrap().1 == old(self).tree().entries()[old(self).position()].1
                &&& final(self).position() == old(self).position() + 1
            },
            old(self).position() >= old(self).tree().entries().len() ==> {
                &&& r is None
                &&& final(self).position() == old(self).position()
            },
    {
        let tree = self.tree;
        proof {
            lemma_count_entries(tree.mirror@);
        }
        if let Some(current_id) = self.next_node {
            proof {
                lemma_all_slots(tree.nodes@, tree.mirror@, None, current_id);
                lemma_at(tree.nodes@, tree.mirror@, None, current_id);
                let j = tree.mirror@.place_of(current_id);
                if j + 1 < tree.mirror@.count() {
                    lemma_place(tree.nodes@, tree.mirror@, None, j + 1);
                }
            }
            self.next_node = tree.find_next(current_id);
            let node = &tree.nodes[current_id];
            Some((&node.key, &node.value))
        } else {
            None
        }
    }
}

} // verus!
