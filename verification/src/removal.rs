//! Removal from the ordered map: red is pushed down on the way to the node
//! that leaves, the colours are repaired on the way back, and the slot that
//! falls free is filled from the end of the store.

use crate::compact::{lemma_renamed, DeleteResult};
use crate::entries::{
    ascending, has_key, lemma_ascending_sides, lemma_count_before_at, lemma_has_key_prefix,
    lemma_has_key_side, lemma_remove_sides, lemma_removed,
};
use crate::mirror::{
    lemma_count_entries, lemma_flipped, lemma_rotated_left, lemma_rotated_right,
    lemma_sized_count, lemma_with_red, Tree,
};
use crate::node::{
    agree_outside, lemma_agree_at, lemma_agree_outside_chain, lemma_close, lemma_open,
    lemma_relink_left, lemma_relink_right, lemma_stored_apart, lemma_stored_ids,
    lemma_stored_leaf, stored, Color, Node,
};
use crate::order::{Comparison, TotalOrder};
use crate::rbtree::RBTree;
use crate::shrink::{
    lemma_left_mend, lemma_left_ready, lemma_lone, lemma_moved_red_left, lemma_moved_red_right,
    lemma_rebalanced_same, lemma_right_mend, lemma_right_ready, lemma_root_ready,
    lemma_shrunk_black, lemma_turned_entries, lemma_with_size,
};
use vstd::prelude::*;

verus! {

/// `<[T]>::swap`, which exchanges the elements at two positions of a slice
/// and leaves the others in place; both positions must be in bounds.
pub assume_specification<T>[ <[T]>::swap ](s: &mut [T], a: usize, b: usize)
    requires
        a < old(s)@.len(),
        b < old(s)@.len(),
    ensures
        final(s)@ == old(s)@.update(a as int, old(s)@[b as int]).update(b as int, old(s)@[a as int]),
;

impl<K: TotalOrder, V> RBTree<K, V> {
    /// Whether neither the left child of `id` nor that child's left child
    /// is red.
    pub(crate) fn two_left_black(
        id: usize,
        nodes: &Vec<Node<K, V>>,
        Ghost(t): Ghost<Tree<K::V, V>>,
        Ghost(p): Ghost<Option<usize>>,
    ) -> (b: bool)
        requires
            stored(nodes@, t, p),
            t.link() == Some(id),
            t.l().is_fork(),
        ensures
            b == (!t.l().red() && !t.l().l().red()),
    {
        proof {
            lemma_open(nodes@, t, p);
            lemma_open(nodes@, t.l(), Some(id));
            if t.l().l().is_fork() {
                lemma_open(nodes@, t.l().l(), Some(t.l().slot()));
            }
        }
        let left = nodes[id].left;
        !Self::is_red(left, nodes) && !Self::is_red(nodes[left.unwrap()].left, nodes)
    }

    /// Flips the colours at `id` if both children are red.
    pub(crate) fn maybe_flip(
        id: usize,
        nodes: &mut Vec<Node<K, V>>,
        Ghost(t): Ghost<Tree<K::V, V>>,
        Ghost(p): Ghost<Option<usize>>,
    ) -> (res: Ghost<Tree<K::V, V>>)
        requires
            stored(old(nodes)@, t, p),
            t.link() == Some(id),
        ensures
            res@ == (if t.l().red() && t.r().red() {
                t.flipped()
            } else {
                t
            }),
            stored(final(nodes)@, res@, p),
            final(nodes)@.len() == old(nodes)@.len(),
            agree_outside(old(nodes)@, final(nodes)@, t.ids()),
    {
        proof {
            lemma_open(nodes@, t, p);
            if t.l().is_fork() {
                lemma_open(nodes@, t.l(), Some(id));
            }
            if t.r().is_fork() {
                lemma_open(nodes@, t.r(), Some(id));
            }
        }
        if let Some(left) = nodes[id].left {
            if let Some(right) = nodes[id].right {
                if nodes[left].color.is_red() && nodes[right].color.is_red() {
                    Self::flip_colors(id, left, right, nodes, Ghost(t), Ghost(p));
                    return Ghost(t.flipped());
                }
            }
        }
        Ghost(t)
    }

    /// Repairs the colours at `id` after a removal below it and records
    /// its size.
    pub(crate) fn balance(
        id: usize,
        nodes: &mut Vec<Node<K, V>>,
        Ghost(t): Ghost<Tree<K::V, V>>,
        Ghost(p): Ghost<Option<usize>>,
    ) -> (res: (usize, Ghost<Tree<K::V, V>>))
        requires
            stored(old(nodes)@, t, p),
            t.link() == Some(id),
            t.l().sized(),
            t.r().sized(),
        ensures
            res.1@ == t.rebalanced(),
            res.1@.link() == Some(res.0),
            stored(final(nodes)@, res.1@, p),
            final(nodes)@.len() == old(nodes)@.len(),
            agree_outside(old(nodes)@, final(nodes)@, t.ids()),
    {
        let ghost before = nodes@;
        let mut id = id;
        let ghost mut cur = t;
        proof {
            reveal(Tree::rebalanced);
            lemma_open(nodes@, t, p);
            assert(nodes.len() == nodes@.len());
            if t.r().is_fork() {
                lemma_open(nodes@, t.r(), Some(id));
            }
            lemma_sized_count(t.r());
        }
        if Self::is_red(nodes[id].right, nodes) {
            let (top, Ghost(turned)) = Self::rotate_left(id, nodes, Ghost(cur), Ghost(p));
            id = top;
            proof {
                lemma_rotated_left(cur);
                cur = turned;
            }
        }
        let ghost first = nodes@;
        let ghost leaned = cur;
        proof {
            lemma_open(nodes@, cur, p);
            if cur.l().is_fork() {
                lemma_open(nodes@, cur.l(), Some(id));
                if cur.l().l().is_fork() {
                    lemma_open(nodes@, cur.l().l(), Some(cur.l().slot()));
                }
            }
            lemma_sized_count(cur.l());
        }
        let left = nodes[id].left;
        if Self::is_red(left, nodes) && Self::is_red(nodes[left.unwrap()].left, nodes) {
            let (top, Ghost(turned)) = Self::rotate_right(id, nodes, Ghost(cur), Ghost(p));
            id = top;
            proof {
                lemma_rotated_right(cur);
                cur = turned;
            }
        }
        let ghost second = nodes@;
        proof {
            lemma_agree_outside_chain(before, first, second, t.ids(), leaned.ids());
        }
        let (top, Ghost(mended)) = Self::finish(id, nodes, Ghost(cur), Ghost(p));
        proof {
            lemma_agree_outside_chain(before, second, nodes@, t.ids(), cur.ids());
        }
        (top, Ghost(mended))
    }

    /// Records the size of the tree at `id` from its children and flips the
    /// colours there if both children are red.
    pub(crate) fn finish(
        id: usize,
        nodes: &mut Vec<Node<K, V>>,
        Ghost(t): Ghost<Tree<K::V, V>>,
        Ghost(p): Ghost<Option<usize>>,
    ) -> (res: (usize, Ghost<Tree<K::V, V>>))
        requires
            stored(old(nodes)@, t, p),
            t.link() == Some(id),
            t.l().sized(),
            t.r().sized(),
        ensures
            res.0 == id,
            res.1@ == ({
                let c = t.with_size((1 + t.l().size() + t.r().size()) as usize);
                if c.l().red() && c.r().red() {
                    c.flipped()
                } else {
                    c
                }
            }),
            res.1@.link() == Some(res.0),
            stored(final(nodes)@, res.1@, p),
            final(nodes)@.len() == old(nodes)@.len(),
            agree_outside(old(nodes)@, final(nodes)@, t.ids()),
    {
        let ghost before = nodes@;
        proof {
            lemma_open(nodes@, t, p);
            assert(nodes.len() == nodes@.len());
            if t.l().is_fork() {
                lemma_open(nodes@, t.l(), Some(id));
            }
            if t.r().is_fork() {
                lemma_open(nodes@, t.r(), Some(id));
            }
            lemma_sized_count(t.l());
            lemma_sized_count(t.r());
        }
        nodes[id].size = 1 + Self::size(nodes[id].left, nodes) + Self::size(nodes[id].right, nodes);
        let ghost sized = t.with_size(nodes@[id as int].size);
        let ghost measured = nodes@;
        proof {
            lemma_with_size(t, nodes@[id as int].size);
            lemma_stored_apart(before, nodes@, t.l(), Some(id), set![id]);
            lemma_stored_apart(before, nodes@, t.r(), Some(id), set![id]);
            lemma_close(nodes@, sized, p);
        }
        let Ghost(mended) = Self::maybe_flip(id, nodes, Ghost(sized), Ghost(p));
        proof {
            assert(agree_outside(before, measured, t.ids()));
            lemma_agree_outside_chain(before, measured, nodes@, t.ids(), sized.ids());
        }
        (id, Ghost(mended))
    }

    /// Makes the left child of `id`, or that child's left child, red.
    #[verifier::rlimit(60)]
    pub(crate) fn move_red_left(
        id: usize,
        nodes: &mut Vec<Node<K, V>>,
        Ghost(t): Ghost<Tree<K::V, V>>,
        Ghost(p): Ghost<Option<usize>>,
    ) -> (res: (usize, Ghost<Tree<K::V, V>>))
        requires
            stored(old(nodes)@, t, p),
            t.link() == Some(id),
            t.l().is_fork(),
            t.r().is_fork(),
            t.sized(),
        ensures
            res.1@ == t.moved_red_left(),
            res.1@.link() == Some(res.0),
            stored(final(nodes)@, res.1@, p),
            final(nodes)@.len() == old(nodes)@.len(),
            agree_outside(old(nodes)@, final(nodes)@, t.ids()),
    {
        let ghost before = nodes@;
        let mut id = id;
        proof {
            reveal(Tree::moved_red_left);
            lemma_open(nodes@, t, p);
        }
        Self::flip_colors(id, nodes[id].left.unwrap(), nodes[id].right.unwrap(), nodes, Ghost(t), Ghost(p));
        let ghost f = t.flipped();
        let ghost mut cur = f;
        proof {
            lemma_flipped(t);
            lemma_open(nodes@, f, p);
            lemma_open(nodes@, f.r(), Some(id));
            if f.r().l().is_fork() {
                lemma_open(nodes@, f.r().l(), Some(f.r().slot()));
            }
            lemma_sized_count(f);
            lemma_sized_count(f.r());
            lemma_sized_count(f.r().l());
        }
        if Self::is_red(nodes[nodes[id].right.unwrap()].left, nodes) {
            let ghost flipped = nodes@;
            let (right, Ghost(turned)) = Self::rotate_right(
                nodes[id].right.unwrap(),
                nodes,
                Ghost(f.r()),
                Ghost(Some(id)),
            );
            let ghost lowered = nodes@;
            nodes[id].right = Some(right);
            let ghost g = f.with_right(turned);
            proof {
                lemma_rotated_right(f.r());
                lemma_stored_apart(flipped, lowered, f.l(), Some(id), f.r().ids());
                lemma_stored_apart(lowered, nodes@, f.l(), Some(id), set![id]);
                lemma_stored_apart(lowered, nodes@, turned, Some(id), set![id]);
                lemma_close(nodes@, g, p);
                assert(g.ids() =~= t.ids());
                assert(g.sized());
                lemma_sized_count(g.l());
                lemma_sized_count(g.r());
                lemma_sized_count(g.r().l());
                assert(agree_outside(before, nodes@, t.ids()));
            }
            let (top, Ghost(lifted)) = Self::rotate_left(id, nodes, Ghost(g), Ghost(p));
            id = top;
            proof {
                lemma_rotated_left(g);
                assert(lifted.ids() =~= t.ids());
                assert(agree_outside(before, nodes@, t.ids()));
                lemma_open(nodes@, lifted, p);
            }
            Self::flip_colors(
                id,
                nodes[id].left.unwrap(),
                nodes[id].right.unwrap(),
                nodes,
                Ghost(lifted),
                Ghost(p),
            );
            proof {
                cur = lifted.flipped();
                assert(agree_outside(before, nodes@, t.ids()));
            }
        }
        (id, Ghost(cur))
    }

    /// Makes the right child of `id`, or that child's right child, red.
    #[verifier::rlimit(60)]
    pub(crate) fn move_red_right(
        id: usize,
        nodes: &mut Vec<Node<K, V>>,
        Ghost(t): Ghost<Tree<K::V, V>>,
        Ghost(p): Ghost<Option<usize>>,
    ) -> (res: (usize, Ghost<Tree<K::V, V>>))
        requires
            stored(old(nodes)@, t, p),
            t.link() == Some(id),
            t.l().is_fork(),
            t.r().is_fork(),
            t.sized(),
        ensures
            res.1@ == t.moved_red_right(),
            res.1@.link() == Some(res.0),
            stored(final(nodes)@, res.1@, p),
            final(nodes)@.len() == old(nodes)@.len(),
            agree_outside(old(nodes)@, final(nodes)@, t.ids()),
    {
        let ghost before = nodes@;
        let mut id = id;
        proof {
            reveal(Tree::moved_red_right);
            lemma_open(nodes@, t, p);
        }
        let left = nodes[id].left.unwrap();
        Self::flip_colors(id, left, nodes[id].right.unwrap(), nodes, Ghost(t), Ghost(p));
        let ghost f = t.flipped();
        let ghost mut cur = f;
        proof {
            lemma_flipped(t);
            lemma_open(nodes@, f, p);
            lemma_open(nodes@, f.l(), Some(id));
            if f.l().l().is_fork() {
                lemma_open(nodes@, f.l().l(), Some(left));
            }
            lemma_sized_count(f);
            lemma_sized_count(f.l());
        }
        if Self::is_red(nodes[left].left, nodes) {
            let (top, Ghost(lifted)) = Self::rotate_right(id, nodes, Ghost(f), Ghost(p));
            id = top;
            proof {
                lemma_rotated_right(f);
                assert(lifted.ids() =~= t.ids());
                assert(agree_outside(before, nodes@, t.ids()));
                lemma_open(nodes@, lifted, p);
            }
            Self::flip_colors(
                id,
                nodes[id].left.unwrap(),
                nodes[id].right.unwrap(),
                nodes,
                Ghost(lifted),
                Ghost(p),
            );
            proof {
                cur = lifted.flipped();
                assert(agree_outside(before, nodes@, t.ids()));
            }
        }
        (id, Ghost(cur))
    }
}

impl<K: TotalOrder, V> RBTree<K, V> {
    /// Takes the least entry out of the tree at `child` and puts it into
    /// the slot `parent`, in place of the entry there. Returns the slot of
    /// the tree that is left and the slot that fell free.
    #[verifier::rlimit(100)]
    #[verifier::spinoff_prover]
    pub(crate) fn swap_delete_min(
        child: usize,
        parent: usize,
        nodes: &mut Vec<Node<K, V>>,
        Ghost(c): Ghost<Tree<K::V, V>>,
        Ghost(p): Ghost<Option<usize>>,
    ) -> (res: (Option<usize>, usize, Ghost<Tree<K::V, V>>))
        requires
            stored(old(nodes)@, c, p),
            c.link() == Some(child),
            c.sized(),
            c.ready(),
            !c.black_over_right(),
            parent < old(nodes)@.len(),
            !c.ids().contains(parent),
        ensures
            stored(final(nodes)@, res.2@, p),
            res.2@.link() == res.0,
            res.2@.sized(),
            c.shrunk_to(res.2@),
            c.entries().len() > 0,
            res.2@.entries() == c.entries().drop_first(),
            final(nodes)@.len() == old(nodes)@.len(),
            agree_outside(old(nodes)@, final(nodes)@, c.ids().insert(parent)),
            c.ids().contains(res.1),
            res.2@.ids() == c.ids().remove(res.1),
            final(nodes)@[parent as int].key@ == c.entries()[0].0,
            final(nodes)@[parent as int].value == c.entries()[0].1,
            final(nodes)@[parent as int].left == old(nodes)@[parent as int].left,
            final(nodes)@[parent as int].right == old(nodes)@[parent as int].right,
            final(nodes)@[parent as int].size == old(nodes)@[parent as int].size,
            final(nodes)@[parent as int].color == old(nodes)@[parent as int].color,
            final(nodes)@[parent as int].parent == old(nodes)@[parent as int].parent,
        decreases c.count(),
    {
        let ghost before = nodes@;
        let mut child = child;
        proof {
            lemma_open(nodes@, c, p);
            lemma_count_entries(c);
            lemma_count_entries(c.l());
        }
        if nodes[child].left.is_some() {
            let ghost mut cur = c;
            proof {
                lemma_left_ready(c);
            }
            if Self::two_left_black(child, nodes, Ghost(c), Ghost(p)) {
                proof {
                    lemma_moved_red_left(c);
                }
                let (top, Ghost(moved)) = Self::move_red_left(child, nodes, Ghost(c), Ghost(p));
                child = top;
                proof {
                    cur = moved;
                }
            }
            let ghost prepared = nodes@;
            proof {
                lemma_open(nodes@, cur, p);
                lemma_sized_count(cur);
                lemma_count_entries(cur.l());
                lemma_agree_at(before, prepared, c.ids(), parent);
            }
            let (link, freed, Ghost(shrunk)) = Self::swap_delete_min(
                nodes[child].left.unwrap(),
                parent,
                nodes,
                Ghost(cur.l()),
                Ghost(Some(child)),
            );
            let ghost emptied = nodes@;
            nodes[child].left = link;
            let ghost joined = cur.with_left(shrunk);
            proof {
                lemma_relink_left(prepared, emptied, nodes@, cur, shrunk, p, set![parent]);
                lemma_agree_outside_chain(
                    before,
                    prepared,
                    nodes@,
                    c.ids().insert(parent),
                    cur.ids().union(set![parent]),
                );
                assert(joined.entries() =~= cur.entries().drop_first());
                assert(cur.l().entries()[0] == cur.entries()[0]);
                assert(joined.ids() =~= c.ids().remove(freed));
                lemma_stored_ids(nodes@, joined, p);
                assert(nodes.len() == nodes@.len());
                lemma_rebalanced_same(joined);
                lemma_left_mend(c, cur, shrunk);
            }
            let ghost relinked = nodes@;
            let (top, Ghost(mended)) = Self::balance(child, nodes, Ghost(joined), Ghost(p));
            proof {
                lemma_agree_outside_chain(
                    before,
                    relinked,
                    nodes@,
                    c.ids().insert(parent),
                    joined.ids(),
                );
                lemma_agree_at(relinked, nodes@, joined.ids(), parent);
            }
            (Some(top), freed, Ghost(mended))
        } else {
            proof {
                lemma_lone(c);
            }
            nodes[child].parent = nodes[parent].parent;
            nodes[child].color = nodes[parent].color;
            nodes[child].left = nodes[parent].left;
            nodes[child].right = nodes[parent].right;
            nodes[child].size = nodes[parent].size;
            nodes.swap(child, parent);
            proof {
                lemma_stored_leaf::<K, V>(nodes@, p);
                assert(c.entries() =~= seq![(c.key(), c.value())]);
                assert(c.entries().drop_first() =~= Seq::empty());
                assert(Tree::<K::V, V>::Leaf.ids() =~= c.ids().remove(child));
            }
            (None, child, Ghost(Tree::Leaf))
        }
    }

    /// Takes the entry with key `key` out of the tree at `id`. Returns the
    /// slot of the tree that is left, the slot that fell free, and the
    /// position the entry had.
    pub(crate) fn delete_node(
        id: usize,
        key: &K,
        nodes: &mut Vec<Node<K, V>>,
        Ghost(t): Ghost<Tree<K::V, V>>,
        Ghost(p): Ghost<Option<usize>>,
    ) -> (res: (Option<usize>, usize, Ghost<Tree<K::V, V>>, Ghost<int>))
        requires
            stored(old(nodes)@, t, p),
            t.link() == Some(id),
            t.sized(),
            t.ready(),
            t.black_over_right() ==> !K::precedes(key@, t.key()),
            ascending::<K, V>(t.entries()),
            has_key(t.entries(), key@),
        ensures
            stored(final(nodes)@, res.2@, p),
            res.2@.link() == res.0,
            res.2@.sized(),
            t.shrunk_to(res.2@),
            0 <= res.3@ < t.entries().len(),
            t.entries()[res.3@].0 == key@,
            res.2@.entries() == t.entries().remove(res.3@),
            final(nodes)@.len() == old(nodes)@.len(),
            agree_outside(old(nodes)@, final(nodes)@, t.ids()),
            t.ids().contains(res.1),
            res.2@.ids() == t.ids().remove(res.1),
        decreases t.count(), 3nat,
    {
        proof {
            lemma_open(nodes@, t, p);
        }
        match key.compare(&nodes[id].key) {
            Comparison::Less => Self::delete_left(id, key, nodes, Ghost(t), Ghost(p)),
            _ => Self::delete_right(id, key, nodes, Ghost(t), Ghost(p)),
        }
    }

    /// The removal of a key that precedes the key at `id`.
    #[verifier::rlimit(60)]
    #[verifier::spinoff_prover]
    pub(crate) fn delete_left(
        id: usize,
        key: &K,
        nodes: &mut Vec<Node<K, V>>,
        Ghost(t): Ghost<Tree<K::V, V>>,
        Ghost(p): Ghost<Option<usize>>,
    ) -> (res: (Option<usize>, usize, Ghost<Tree<K::V, V>>, Ghost<int>))
        requires
            stored(old(nodes)@, t, p),
            t.link() == Some(id),
            t.sized(),
            t.ready(),
            K::precedes(key@, t.key()),
            !t.black_over_right(),
            ascending::<K, V>(t.entries()),
            has_key(t.entries(), key@),
        ensures
            stored(final(nodes)@, res.2@, p),
            res.2@.link() == res.0,
            res.2@.sized(),
            t.shrunk_to(res.2@),
            0 <= res.3@ < t.entries().len(),
            t.entries()[res.3@].0 == key@,
            res.2@.entries() == t.entries().remove(res.3@),
            final(nodes)@.len() == old(nodes)@.len(),
            agree_outside(old(nodes)@, final(nodes)@, t.ids()),
            t.ids().contains(res.1),
            res.2@.ids() == t.ids().remove(res.1),
        decreases t.count(), 2nat,
    {
        let ghost before = nodes@;
        let ghost k = key@;
        let ghost el = t.l().entries();
        let ghost er = t.r().entries();
        let ghost e = (t.key(), t.value());
        let mut id = id;
        let ghost mut cur = t;
        proof {
            lemma_open(nodes@, t, p);
            lemma_ascending_sides::<K, V>(el, e, er);
            lemma_has_key_side::<K, V>(el, e, er, k);
            lemma_count_entries(t.l());
            lemma_sized_count(t);
            lemma_left_ready(t);
        }
        if Self::two_left_black(id, nodes, Ghost(t), Ghost(p)) {
            proof {
                lemma_moved_red_left(t);
            }
            let (top, Ghost(moved)) = Self::move_red_left(id, nodes, Ghost(t), Ghost(p));
            id = top;
            proof {
                cur = moved;
            }
        }
        let ghost prepared = nodes@;
        proof {
            lemma_open(nodes@, cur, p);
            lemma_sized_count(cur);
            lemma_has_key_prefix(el, cur.l().entries(), k);
            lemma_ascending_sides::<K, V>(
                cur.l().entries(),
                (cur.key(), cur.value()),
                cur.r().entries(),
            );
            lemma_count_entries(cur.l());
        }
        let (link, freed, Ghost(shrunk), Ghost(at)) = Self::delete_node(
            nodes[id].left.unwrap(),
            key,
            nodes,
            Ghost(cur.l()),
            Ghost(Some(id)),
        );
        let ghost emptied = nodes@;
        nodes[id].left = link;
        let ghost joined = cur.with_left(shrunk);
        proof {
            assert(cur.l().ids().union(Set::empty()) =~= cur.l().ids());
            assert(cur.ids().union(Set::empty()) =~= cur.ids());
            lemma_relink_left(prepared, emptied, nodes@, cur, shrunk, p, Set::empty());
            lemma_agree_outside_chain(before, prepared, nodes@, t.ids(), cur.ids());
            lemma_remove_sides(cur.l().entries(), (cur.key(), cur.value()), cur.r().entries(), at);
            assert(joined.ids() =~= t.ids().remove(freed));
            lemma_left_mend(t, cur, shrunk);
            lemma_stored_ids(nodes@, joined, p);
            assert(nodes.len() == nodes@.len());
            lemma_rebalanced_same(joined);
        }
        let ghost relinked = nodes@;
        let (top, Ghost(mended)) = Self::balance(id, nodes, Ghost(joined), Ghost(p));
        proof {
            lemma_agree_outside_chain(before, relinked, nodes@, t.ids(), joined.ids());
        }
        (Some(top), freed, Ghost(mended), Ghost(at))
    }

    /// The removal of a key that does not precede the key at `id`: red is
    /// brought to the right, and the node at `id` leaves if it is the one
    /// and has nothing to its right.
    #[verifier::rlimit(60)]
    #[verifier::spinoff_prover]
    pub(crate) fn delete_right(
        id: usize,
        key: &K,
        nodes: &mut Vec<Node<K, V>>,
        Ghost(t): Ghost<Tree<K::V, V>>,
        Ghost(p): Ghost<Option<usize>>,
    ) -> (res: (Option<usize>, usize, Ghost<Tree<K::V, V>>, Ghost<int>))
        requires
            stored(old(nodes)@, t, p),
            t.link() == Some(id),
            t.sized(),
            t.ready(),
            !K::precedes(key@, t.key()),
            ascending::<K, V>(t.entries()),
            has_key(t.entries(), key@),
        ensures
            stored(final(nodes)@, res.2@, p),
            res.2@.link() == res.0,
            res.2@.sized(),
            t.shrunk_to(res.2@),
            0 <= res.3@ < t.entries().len(),
            t.entries()[res.3@].0 == key@,
            res.2@.entries() == t.entries().remove(res.3@),
            final(nodes)@.len() == old(nodes)@.len(),
            agree_outside(old(nodes)@, final(nodes)@, t.ids()),
            t.ids().contains(res.1),
            res.2@.ids() == t.ids().remove(res.1),
        decreases t.count(), 2nat,
    {
        let ghost before = nodes@;
        let ghost k = key@;
        let ghost el = t.l().entries();
        let ghost er = t.r().entries();
        let ghost e = (t.key(), t.value());
        let mut id = id;
        let ghost mut cur = t;
        proof {
            lemma_open(nodes@, t, p);
            if t.l().is_fork() {
                lemma_open(nodes@, t.l(), Some(id));
            }
            lemma_ascending_sides::<K, V>(el, e, er);
            lemma_has_key_side::<K, V>(el, e, er, k);
            lemma_count_entries(t.l());
            lemma_count_entries(t.r());
            lemma_sized_count(t);
            lemma_sized_count(t.l());
            K::precedes_irreflexive(k);
            lemma_right_ready(t);
        }
        if Self::is_red(nodes[id].left, nodes) {
            proof {
                lemma_rotated_right(t);
                lemma_turned_entries(t);
            }
            let (top, Ghost(turned)) = Self::rotate_right(id, nodes, Ghost(t), Ghost(p));
            id = top;
            proof {
                cur = turned;
            }
        }
        proof {
            lemma_open(nodes@, cur, p);
        }
        let here = key.compare(&nodes[id].key);
        if nodes[id].right.is_none() {
            match here {
                Comparison::Equal => {
                    proof {
                        lemma_lone(t);
                        lemma_stored_leaf::<K, V>(nodes@, p);
                        assert(t.entries() =~= seq![e]);
                        assert(t.entries().remove(0) =~= Seq::empty());
                        assert(Tree::<K::V, V>::Leaf.ids() =~= t.ids().remove(id));
                    }
                    return (None, id, Ghost(Tree::Leaf), Ghost(0));
                },
                _ => {},
            }
        }
        let right = nodes[id].right;
        proof {
            if cur.r().is_fork() {
                lemma_open(nodes@, cur.r(), Some(id));
                if cur.r().l().is_fork() {
                    lemma_open(nodes@, cur.r().l(), Some(cur.r().slot()));
                }
            }
        }
        if !Self::is_red(right, nodes) && !Self::is_red(nodes[right.unwrap()].left, nodes) {
            proof {
                lemma_moved_red_right(t);
            }
            let (top, Ghost(moved)) = Self::move_red_right(id, nodes, Ghost(t), Ghost(p));
            id = top;
            proof {
                cur = moved;
            }
        }
        let ghost prepared = nodes@;
        proof {
            let cr = cur.r().entries();
            lemma_open(nodes@, cur, p);
            lemma_count_entries(cur.r());
            lemma_ascending_sides::<K, V>(cur.l().entries(), (cur.key(), cur.value()), cr);
            // The node that the removal started at is the root or lies to
            // the right of it.
            if cur.key() != t.key() {
                let j = cr.len() - er.len() - 1;
                assert(cr[j] == e);
                assert(K::precedes(cur.key(), t.key()));
                if K::precedes(k, cur.key()) {
                    K::precedes_transitive(k, cur.key(), t.key());
                }
            }
        }
        let (link, freed, Ghost(mended), Ghost(at)) = Self::delete_below_right(
            id,
            key,
            nodes,
            Ghost(cur),
            Ghost(p),
            Ghost(t),
        );
        proof {
            lemma_agree_outside_chain(before, prepared, nodes@, t.ids(), cur.ids());
        }
        (link, freed, Ghost(mended), Ghost(at))
    }

    /// The removal of a key from the tree at `id` once red has been brought
    /// to its right: the key is that of the node at `id`, whose place the
    /// least entry to its right then takes, or it lies to the right.
    #[verifier::rlimit(60)]
    #[verifier::spinoff_prover]
    pub(crate) fn delete_below_right(
        id: usize,
        key: &K,
        nodes: &mut Vec<Node<K, V>>,
        Ghost(cur): Ghost<Tree<K::V, V>>,
        Ghost(p): Ghost<Option<usize>>,
        Ghost(t): Ghost<Tree<K::V, V>>,
    ) -> (res: (Option<usize>, usize, Ghost<Tree<K::V, V>>, Ghost<int>))
        requires
            stored(old(nodes)@, cur, p),
            cur.link() == Some(id),
            cur.sized(),
            t.right_prepared(cur),
            cur.r().is_fork(),
            cur.r().ready(),
            cur.r().black_over_right() ==> cur.r().key() == t.key(),
            !K::precedes(key@, t.key()),
            !K::precedes(key@, cur.key()),
            cur.key() == t.key() || K::precedes(cur.key(), t.key()),
            ascending::<K, V>(cur.entries()),
            has_key(cur.entries(), key@),
        ensures
            stored(final(nodes)@, res.2@, p),
            res.2@.link() == res.0,
            res.2@.sized(),
            t.shrunk_to(res.2@),
            0 <= res.3@ < cur.entries().len(),
            cur.entries()[res.3@].0 == key@,
            res.2@.entries() == cur.entries().remove(res.3@),
            final(nodes)@.len() == old(nodes)@.len(),
            agree_outside(old(nodes)@, final(nodes)@, cur.ids()),
            cur.ids().contains(res.1),
            res.2@.ids() == cur.ids().remove(res.1),
        decreases cur.count(), 1nat,
    {
        let ghost prepared = nodes@;
        let ghost k = key@;
        let ghost cl = cur.l().entries();
        let ghost cr = cur.r().entries();
        let ghost ce = (cur.key(), cur.value());
        proof {
            lemma_open(nodes@, cur, p);
            lemma_open(nodes@, cur.r(), Some(id));
            lemma_sized_count(cur);
            lemma_count_entries(cur.l());
            lemma_count_entries(cur.r());
            lemma_count_entries(cur.r().l());
            lemma_ascending_sides::<K, V>(cl, ce, cr);
            lemma_has_key_side::<K, V>(cl, ce, cr, k);
            K::precedes_irreflexive(k);
            K::precedes_connected(k, cur.key());
            if cur.r().black_over_right() {
                let j = cur.r().l().entries().len() as int;
                assert(cr[j] == (cur.r().key(), cur.r().value()));
                assert(K::precedes(cur.key(), t.key()));
            }
        }
        let joined: Ghost<Tree<K::V, V>>;
        let freed: usize;
        let at: Ghost<int>;
        match key.compare(&nodes[id].key) {
            Comparison::Equal => {
                let (link, gone, Ghost(shrunk)) = Self::swap_delete_min(
                    nodes[id].right.unwrap(),
                    id,
                    nodes,
                    Ghost(cur.r()),
                    Ghost(Some(id)),
                );
                let ghost emptied = nodes@;
                nodes[id].right = link;
                freed = gone;
                joined = Ghost(cur.with_entry(cr[0].0, cr[0].1).with_right(shrunk));
                at = Ghost(cl.len() as int);
                proof {
                    lemma_relink_right(prepared, emptied, nodes@, cur, shrunk, p);
                    lemma_remove_sides(cl, ce, cr, 0);
                    assert(joined@.entries() =~= cl.push(cr[0]) + cr.drop_first());
                    assert(joined@.ids() =~= cur.ids().remove(freed));
                    lemma_right_mend(t, cur, shrunk, cr[0].0, cr[0].1);
                }
            },
            _ => {
                let (link, gone, Ghost(shrunk), Ghost(i)) = Self::delete_node(
                    nodes[id].right.unwrap(),
                    key,
                    nodes,
                    Ghost(cur.r()),
                    Ghost(Some(id)),
                );
                let ghost emptied = nodes@;
                nodes[id].right = link;
                freed = gone;
                joined = Ghost(cur.with_right(shrunk));
                at = Ghost(cl.len() + 1 + i);
                proof {
                    lemma_agree_at(prepared, emptied, cur.r().ids(), id);
                    assert(cur.with_entry(cur.key(), cur.value()) == cur);
                    assert forall|s: usize|
                        #![trigger emptied[s as int]]
                        s < prepared.len() && !cur.r().ids().insert(id).contains(
                            s,
                        ) implies emptied[s as int] == prepared[s as int] by {
                        lemma_agree_at(prepared, emptied, cur.r().ids(), s);
                    }
                    lemma_relink_right(prepared, emptied, nodes@, cur, shrunk, p);
                    lemma_remove_sides(cl, ce, cr, i);
                    assert(joined@.ids() =~= cur.ids().remove(freed));
                    lemma_right_mend(t, cur, shrunk, cur.key(), cur.value());
                }
            },
        }
        proof {
            lemma_stored_ids(nodes@, joined@, p);
            assert(nodes.len() == nodes@.len());
            lemma_rebalanced_same(joined@);
        }
        let ghost relinked = nodes@;
        let (top, Ghost(mended)) = Self::balance(id, nodes, joined, Ghost(p));
        proof {
            lemma_agree_outside_chain(prepared, relinked, nodes@, cur.ids(), joined@.ids());
        }
        (Some(top), freed, Ghost(mended), at)
    }
}

impl<K: TotalOrder, V> RBTree<K, V> {
    /// Removes the entry stored under `key`, if there is one.
    pub fn delete(&mut self, key: &K)
        requires
            old(self).wf(),
        ensures
            final(self).wf(),
            final(self)@ == old(self)@.remove(key@),
            final(self).entries() == (if old(self)@.contains_key(key@) {
                old(self).entries().remove(old(self).rank_of(key@) as int)
            } else {
                old(self).entries()
            }),
    {
        if !self.contains(key) {
            proof {
                assert(self@.remove(key@) =~= self@);
            }
            return ;
        }
        let ghost t = self.mirror@;
        let ghost filled = self.nodes@;
        proof {
            lemma_open(self.nodes@, t, None);
            if t.l().is_fork() {
                lemma_open(self.nodes@, t.l(), Some(t.slot()));
            }
            if t.r().is_fork() {
                lemma_open(self.nodes@, t.r(), Some(t.slot()));
            }
            lemma_root_ready(t);
            lemma_with_red(t, true);
            lemma_count_entries(t);
        }
        let root = self.root.unwrap();
        let ghost mut start = t;
        if !Self::is_red(self.nodes[root].left, &self.nodes) && !Self::is_red(
            self.nodes[root].right,
            &self.nodes,
        ) {
            self.nodes[root].color = Color::red();
            proof {
                start = t.with_red(true);
                lemma_stored_apart(filled, self.nodes@, t.l(), Some(root), set![root]);
                lemma_stored_apart(filled, self.nodes@, t.r(), Some(root), set![root]);
                lemma_close(self.nodes@, start, None);
            }
        }
        proof {
            lemma_stored_ids(self.nodes@, start, None);
        }
        let (link, freed, Ghost(shrunk), Ghost(at)) = Self::delete_node(
            root,
            key,
            &mut self.nodes,
            Ghost(start),
            Ghost(None),
        );
        self.root = link;
        let ghost settled = shrunk.with_red(false);
        let ghost emptied = self.nodes@;
        proof {
            lemma_shrunk_black(start, shrunk);
            lemma_with_red(shrunk, false);
            lemma_count_entries(shrunk);
            lemma_removed::<K, V>(t.entries(), at);
            lemma_count_before_at::<K, V>(t.entries(), at);
            lemma_stored_ids(self.nodes@, shrunk, None);
        }
        if let Some(top) = self.root {
            proof {
                lemma_open(self.nodes@, shrunk, None);
            }
            self.nodes[top].color = Color::black();
            proof {
                lemma_stored_apart(emptied, self.nodes@, shrunk.l(), Some(top), set![top]);
                lemma_stored_apart(emptied, self.nodes@, shrunk.r(), Some(top), set![top]);
                lemma_close(self.nodes@, settled, None);
            }
        } else {
            proof {
                lemma_stored_leaf::<K, V>(self.nodes@, None);
            }
        }
        let moved = Self::remove(freed, &mut self.nodes, Ghost(settled));
        if let Some(top) = self.root {
            let DeleteResult { child, .. } = moved.set_child(top);
            self.root = child;
        }
        proof {
            lemma_renamed(settled, (emptied.len() - 1) as usize, freed);
        }
        self.mirror = Ghost(settled.renamed((emptied.len() - 1) as usize, freed));
    }
}

} // verus!
