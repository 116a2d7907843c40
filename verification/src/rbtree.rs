//! The ordered map: a left-leaning red-black tree whose nodes live in one
//! vector and refer to each other by slot.

use crate::entries::{
    as_map, ascending, count_before, lemma_as_map_len, lemma_ascending_sides,
    lemma_lookup_sides, lemma_spliced, lemma_spliced_at, lemma_spliced_here, lemma_spliced_left,
    lemma_spliced_right, lookup, spliced,
};
use crate::mirror::{
    lemma_count_entries, lemma_settled_colors, lemma_settled_same, lemma_sized_count,
    lemma_with_red, Tree,
};
use crate::node::{
    agree_outside, lemma_close, lemma_open, lemma_stored_apart, lemma_stored_ids,
    lemma_stored_leaf, lemma_stored_reparent, stored, Color,
};
use crate::order::{Comparison, TotalOrder};
use vstd::prelude::*;

pub use crate::cursor::TreeIterator;
pub use crate::node::Node;
pub use crate::ranking::OutOfRange;

verus! {

/// An ordered map from `K` to `V`.
///
/// Its model is the sequence of its entries in ascending key order,
/// `entries()`; its view is the map that this sequence stands for.
pub struct RBTree<K: TotalOrder, V> {
    pub(crate) root: Option<usize>,
    pub(crate) nodes: Vec<Node<K, V>>,
    pub(crate) mirror: Ghost<Tree<K::V, V>>,
}

impl<K: TotalOrder, V> View for RBTree<K, V> {
    type V = Map<K::V, V>;

    open spec fn view(&self) -> Map<K::V, V> {
        as_map(self.entries())
    }
}

impl<K: TotalOrder, V> RBTree<K, V> {
    /// The entries, from the leftmost node to the rightmost.
    pub open(crate) spec fn entries(&self) -> Seq<(K::V, V)> {
        self.mirror@.entries()
    }

    /// The store holds one tree, reached from the root, and nothing else:
    /// children and parents refer to each other and no slot is unused.
    pub open(crate) spec fn structured(&self) -> bool {
        &&& stored(self.nodes@, self.mirror@, None)
        &&& self.mirror@.link() == self.root
        &&& self.mirror@.count() == self.nodes@.len()
    }

    /// Keys ascend strictly from left to right.
    pub open spec fn ordered(&self) -> bool {
        ascending::<K, V>(self.entries())
    }

    /// Every node records the number of nodes in its subtree.
    pub open(crate) spec fn sizes_exact(&self) -> bool {
        self.mirror@.sized()
    }

    /// Every path from the root to an empty subtree passes the same number
    /// of black nodes.
    pub open(crate) spec fn black_balanced(&self) -> bool {
        self.mirror@.balanced()
    }

    /// No red link leans right, and below the root no red node has a red
    /// left child: the tree reads as a 2-3 tree.
    pub open(crate) spec fn two_three(&self) -> bool {
        self.mirror@.leaning()
    }

    /// The root is black.
    pub open(crate) spec fn black_root(&self) -> bool {
        !self.mirror@.red()
    }

    /// What holds of the tree between any two operations.
    pub open spec fn wf(&self) -> bool {
        &&& self.structured()
        &&& self.ordered()
        &&& self.sizes_exact()
        &&& self.black_balanced()
        &&& self.two_three()
        &&& self.black_root()
    }

    /// A tree without entries.
    pub fn new() -> (tree: RBTree<K, V>)
        ensures
            tree.wf(),
            tree.entries() == Seq::<(K::V, V)>::empty(),
            tree@ == Map::<K::V, V>::empty(),
    {
        let tree = RBTree { root: None, nodes: Vec::new(), mirror: Ghost(Tree::Leaf) };
        proof {
            lemma_stored_leaf::<K, V>(tree.nodes@, None);
            assert(tree@ =~= Map::<K::V, V>::empty());
        }
        tree
    }

    /// The size recorded at `maybe_id`, or 0 where there is no node.
    pub(crate) fn size(maybe_id: Option<usize>, nodes: &Vec<Node<K, V>>) -> (n: usize)
        requires
            maybe_id is Some ==> maybe_id.unwrap() < nodes@.len(),
        ensures
            n == match maybe_id {
                Some(id) => nodes@[id as int].size,
                None => 0,
            },
    {
        if let Some(id) = maybe_id {
            nodes[id].size
        } else {
            0
        }
    }

    /// Whether there is a node at `maybe_id` and it is red.
    pub(crate) fn is_red(maybe_id: Option<usize>, nodes: &Vec<Node<K, V>>) -> (r: bool)
        requires
            maybe_id is Some ==> maybe_id.unwrap() < nodes@.len(),
        ensures
            r == match maybe_id {
                Some(id) => nodes@[id as int].color.color,
                None => false,
            },
    {
        maybe_id.is_some() && nodes[maybe_id.unwrap()].color.is_red()
    }

    /// The number of entries.
    pub fn len(&self) -> (n: usize)
        requires
            self.wf(),
        ensures
            n == self.entries().len(),
            n == self@.len(),
    {
        proof {
            lemma_count_entries(self.mirror@);
            lemma_as_map_len::<K, V>(self.entries());
            lemma_sized_count(self.mirror@);
            if self.mirror@.is_fork() {
                lemma_open(self.nodes@, self.mirror@, None);
            }
        }
        Self::size(self.root, &self.nodes)
    }

    /// Whether the tree has no entry.
    pub fn is_empty(&self) -> (b: bool)
        requires
            self.wf(),
        ensures
            b == (self.entries().len() == 0),
            b == (self@.len() == 0),
    {
        proof {
            lemma_count_entries(self.mirror@);
            lemma_as_map_len::<K, V>(self.entries());
        }
        self.root.is_none()
    }

    /// The value stored under `key`.
    pub fn get(&self, key: &K) -> (r: Option<&V>)
        requires
            self.wf(),
        ensures
            r == (if self@.contains_key(key@) {
                Some(&self@[key@])
            } else {
                None
            }),
    {
        let mut maybe_id = self.root;
        let ghost mut cur = self.mirror@;
        let ghost mut par: Option<usize> = None;
        while maybe_id.is_some()
            invariant
                stored(self.nodes@, cur, par),
                cur.link() == maybe_id,
                ascending::<K, V>(cur.entries()),
                lookup(cur.entries(), key@) == lookup(self.entries(), key@),
            decreases cur.count(),
        {
            let id = maybe_id.unwrap();
            proof {
                lemma_open(self.nodes@, cur, par);
            }
            let node = &self.nodes[id];
            proof {
                lemma_lookup_sides::<K, V>(
                    cur.l().entries(),
                    (cur.key(), cur.value()),
                    cur.r().entries(),
                    key@,
                );
                lemma_ascending_sides::<K, V>(
                    cur.l().entries(),
                    (cur.key(), cur.value()),
                    cur.r().entries(),
                );
            }
            match key.compare(&node.key) {
                Comparison::Equal => {
                    return Some(&node.value);
                },
                Comparison::Less => {
                    maybe_id = node.left;
                    proof {
                        par = Some(id);
                        cur = cur.l();
                    }
                },
                Comparison::Greater => {
                    maybe_id = node.right;
                    proof {
                        par = Some(id);
                        cur = cur.r();
                    }
                },
            }
        }
        None
    }

    /// Whether an entry is stored under `key`.
    pub fn contains(&self, key: &K) -> (b: bool)
        requires
            self.wf(),
        ensures
            b == self@.contains_key(key@),
    {
        self.get(key).is_some()
    }

    /// Inverts the colours of the node at `base` and of its two children.
    pub(crate) fn flip_colors(
        base: usize,
        left: usize,
        right: usize,
        nodes: &mut Vec<Node<K, V>>,
        Ghost(t): Ghost<Tree<K::V, V>>,
        Ghost(p): Ghost<Option<usize>>,
    )
        requires
            stored(old(nodes)@, t, p),
            t.link() == Some(base),
            t.l().link() == Some(left),
            t.r().link() == Some(right),
        ensures
            stored(final(nodes)@, t.flipped(), p),
            final(nodes)@.len() == old(nodes)@.len(),
            agree_outside(old(nodes)@, final(nodes)@, t.ids()),
    {
        proof {
            lemma_open(nodes@, t, p);
            lemma_open(nodes@, t.l(), Some(base));
            lemma_open(nodes@, t.r(), Some(base));
        }
        let mut base_color = nodes[base].color;
        base_color.flip();
        nodes[base].color = base_color;
        let mut left_color = nodes[left].color;
        left_color.flip();
        nodes[left].color = left_color;
        let mut right_color = nodes[right].color;
        right_color.flip();
        nodes[right].color = right_color;
        proof {
            let before = old(nodes)@;
            let touched = set![base, left, right];
            let l = t.l();
            let r = t.r();
            lemma_stored_apart(before, nodes@, l.l(), Some(left), touched);
            lemma_stored_apart(before, nodes@, l.r(), Some(left), touched);
            lemma_stored_apart(before, nodes@, r.l(), Some(right), touched);
            lemma_stored_apart(before, nodes@, r.r(), Some(right), touched);
            lemma_close(nodes@, l.with_red(!l.red()), Some(base));
            lemma_close(nodes@, r.with_red(!r.red()), Some(base));
            assert(l.with_red(!l.red()).ids() =~= l.ids());
            assert(r.with_red(!r.red()).ids() =~= r.ids());
            lemma_close(nodes@, t.flipped(), p);
        }
    }

    /// Lifts the right child of `h` over `h`, which becomes its red left
    /// child, and returns the slot of the new root.
    pub(crate) fn rotate_left(
        h: usize,
        nodes: &mut Vec<Node<K, V>>,
        Ghost(t): Ghost<Tree<K::V, V>>,
        Ghost(p): Ghost<Option<usize>>,
    ) -> (res: (usize, Ghost<Tree<K::V, V>>))
        requires
            stored(old(nodes)@, t, p),
            t.link() == Some(h),
            t.r().is_fork(),
            t.l().sized(),
            t.r().l().sized(),
        ensures
            res.0 == t.r().slot(),
            res.1@ == t.rotated_left(),
            stored(final(nodes)@, res.1@, p),
            final(nodes)@.len() == old(nodes)@.len(),
            agree_outside(old(nodes)@, final(nodes)@, t.ids()),
    {
        proof {
            lemma_open(nodes@, t, p);
            lemma_open(nodes@, t.r(), Some(h));
            if t.l().is_fork() {
                lemma_open(nodes@, t.l(), Some(h));
            }
            if t.r().l().is_fork() {
                lemma_open(nodes@, t.r().l(), Some(t.r().slot()));
            }
            lemma_sized_count(t.l());
            lemma_sized_count(t.r().l());
            assert(nodes.len() == nodes@.len());
        }
        let x = nodes[h].right.unwrap();
        let inner = nodes[x].left;
        let below = Self::size(nodes[h].left, nodes) + Self::size(inner, nodes) + 1;

        nodes[h].right = inner;
        nodes[x].left = Some(h);
        nodes[x].color = nodes[h].color;
        nodes[h].color = Color::red();

        nodes[x].parent = nodes[h].parent;
        nodes[h].parent = Some(x);
        if let Some(right) = inner {
            nodes[right].parent = Some(h);
        }

        nodes[x].size = nodes[h].size;
        nodes[h].size = below;

        proof {
            let before = old(nodes)@;
            let a = t.l();
            let b = t.r().l();
            let c = t.r().r();
            let touched = if b.is_fork() {
                set![h, x, b.slot()]
            } else {
                set![h, x]
            };
            lemma_stored_apart(before, nodes@, a, Some(h), touched);
            lemma_stored_apart(before, nodes@, c, Some(x), touched);
            if b.is_fork() {
                lemma_stored_reparent(before, nodes@, b, Some(x), Some(h));
            }
            let low = t.rotated_left().l();
            assert(low.ids() =~= a.ids().union(b.ids()).insert(h));
            if !b.is_fork() {
                lemma_stored_leaf::<K, V>(nodes@, Some(h));
            }
            lemma_close(nodes@, low, Some(x));
            lemma_close(nodes@, t.rotated_left(), p);
        }
        (x, Ghost(t.rotated_left()))
    }

    /// Lifts the left child of `h` over `h`, which becomes its red right
    /// child, and returns the slot of the new root.
    pub(crate) fn rotate_right(
        h: usize,
        nodes: &mut Vec<Node<K, V>>,
        Ghost(t): Ghost<Tree<K::V, V>>,
        Ghost(p): Ghost<Option<usize>>,
    ) -> (res: (usize, Ghost<Tree<K::V, V>>))
        requires
            stored(old(nodes)@, t, p),
            t.link() == Some(h),
            t.l().is_fork(),
            t.r().sized(),
            t.l().r().sized(),
        ensures
            res.0 == t.l().slot(),
            res.1@ == t.rotated_right(),
            stored(final(nodes)@, res.1@, p),
            final(nodes)@.len() == old(nodes)@.len(),
            agree_outside(old(nodes)@, final(nodes)@, t.ids()),
    {
        proof {
            lemma_open(nodes@, t, p);
            lemma_open(nodes@, t.l(), Some(h));
            if t.r().is_fork() {
                lemma_open(nodes@, t.r(), Some(h));
            }
            if t.l().r().is_fork() {
                lemma_open(nodes@, t.l().r(), Some(t.l().slot()));
            }
            lemma_sized_count(t.r());
            lemma_sized_count(t.l().r());
            assert(nodes.len() == nodes@.len());
        }
        let x = nodes[h].left.unwrap();
        let inner = nodes[x].right;
        let below = Self::size(inner, nodes) + Self::size(nodes[h].right, nodes) + 1;

        nodes[h].left = inner;
        nodes[x].right = Some(h);
        nodes[x].color = nodes[h].color;
        nodes[h].color = Color::red();

        nodes[x].parent = nodes[h].parent;
        nodes[h].parent = Some(x);
        if let Some(left) = inner {
            nodes[left].parent = Some(h);
        }

        nodes[x].size = nodes[h].size;
        nodes[h].size = below;

        proof {
            let before = old(nodes)@;
            let a = t.l().l();
            let b = t.l().r();
            let c = t.r();
            let touched = if b.is_fork() {
                set![h, x, b.slot()]
            } else {
                set![h, x]
            };
            lemma_stored_apart(before, nodes@, a, Some(x), touched);
            lemma_stored_apart(before, nodes@, c, Some(h), touched);
            if b.is_fork() {
                lemma_stored_reparent(before, nodes@, b, Some(x), Some(h));
            }
            let low = t.rotated_right().r();
            assert(low.ids() =~= b.ids().union(c.ids()).insert(h));
            if !b.is_fork() {
                lemma_stored_leaf::<K, V>(nodes@, Some(h));
            }
            lemma_close(nodes@, low, Some(x));
            lemma_close(nodes@, t.rotated_right(), p);
        }
        (x, Ghost(t.rotated_right()))
    }
}

impl<K: TotalOrder, V> RBTree<K, V> {
    /// Puts `(key, value)` into the tree stored at `maybe_id` and returns
    /// the slot of the tree that results, with that tree and the position
    /// of the entry in it.
    pub(crate) fn put(
        maybe_id: Option<usize>,
        parent: Option<usize>,
        key: K,
        value: V,
        nodes: &mut Vec<Node<K, V>>,
        Ghost(t): Ghost<Tree<K::V, V>>,
    ) -> (res: (Option<usize>, Ghost<Tree<K::V, V>>, Ghost<int>))
        requires
            stored(old(nodes)@, t, parent),
            t.link() == maybe_id,
            t.sized(),
            t.proper(),
            ascending::<K, V>(t.entries()),
        ensures
            res.0 is Some,
            res.1@.link() == res.0,
            stored(final(nodes)@, res.1@, parent),
            res.1@.sized(),
            spliced::<K, V>(t.entries(), res.1@.entries(), res.2@, key@, value),
            final(nodes)@.len() - old(nodes)@.len() == res.1@.count() - t.count(),
            old(nodes)@.len() <= final(nodes)@.len() <= old(nodes)@.len() + 1,
            agree_outside(old(nodes)@, final(nodes)@, t.ids()),
            forall|s: usize| #[trigger]
                res.1@.ids().contains(s) ==> t.ids().contains(s) || s == old(nodes)@.len(),
            res.1@.leaning(),
            res.1@.balanced(),
            res.1@.black_height() == t.black_height(),
            t.red() ==> res.1@.red(),
            !t.red() ==> res.1@.proper(),
        decreases t,
    {
        let ghost k = key@;
        let ghost v = value;
        let ghost before = nodes@;
        if let Some(start) = maybe_id {
            let mut id = start;
            let ghost mut cur = t;
            let ghost mut at: int = 0;
            let ghost el = t.l().entries();
            let ghost er = t.r().entries();
            let ghost e = (t.key(), t.value());
            proof {
                lemma_open(nodes@, t, parent);
                lemma_ascending_sides::<K, V>(el, e, er);
                lemma_stored_ids(nodes@, t.l(), Some(id));
                lemma_stored_ids(nodes@, t.r(), Some(id));
            }
            match key.compare(&nodes[id].key) {
                Comparison::Less => {
                    let (left, Ghost(grown), Ghost(i)) = Self::put(
                        nodes[id].left,
                        Some(id),
                        key,
                        value,
                        nodes,
                        Ghost(t.l()),
                    );
                    let ghost mid = nodes@;
                    nodes[id].left = left;
                    proof {
                        cur = t.with_left(grown);
                        at = i;
                        lemma_spliced_left::<K, V>(el, grown.entries(), e, er, i, k, v);
                        lemma_stored_apart(before, mid, t.r(), Some(id), t.l().ids());
                        lemma_stored_apart(mid, nodes@, t.r(), Some(id), set![id]);
                        lemma_stored_apart(mid, nodes@, grown, Some(id), set![id]);
                        assert(cur.ids() =~= grown.ids().union(t.r().ids()).insert(id));
                        lemma_close(nodes@, cur, parent);
                    }
                },
                Comparison::Greater => {
                    let (right, Ghost(grown), Ghost(i)) = Self::put(
                        nodes[id].right,
                        Some(id),
                        key,
                        value,
                        nodes,
                        Ghost(t.r()),
                    );
                    let ghost mid = nodes@;
                    nodes[id].right = right;
                    proof {
                        cur = t.with_right(grown);
                        at = el.len() + 1 + i;
                        lemma_spliced_right::<K, V>(el, e, er, grown.entries(), i, k, v);
                        lemma_stored_apart(before, mid, t.l(), Some(id), t.r().ids());
                        lemma_stored_apart(mid, nodes@, t.l(), Some(id), set![id]);
                        lemma_stored_apart(mid, nodes@, grown, Some(id), set![id]);
                        assert(cur.ids() =~= t.l().ids().union(grown.ids()).insert(id));
                        lemma_close(nodes@, cur, parent);
                    }
                },
                Comparison::Equal => {
                    nodes[id].value = value;
                    proof {
                        cur = t.with_entry(t.key(), v);
                        at = el.len() as int;
                        lemma_spliced_here::<K, V>(el, e, er, v);
                        lemma_stored_apart(before, nodes@, t.l(), Some(id), set![id]);
                        lemma_stored_apart(before, nodes@, t.r(), Some(id), set![id]);
                        assert(cur.ids() =~= t.ids());
                        lemma_close(nodes@, cur, parent);
                    }
                },
            }
            proof {
                assert(stored(nodes@, cur, parent));
                assert(agree_outside(before, nodes@, t.ids()));
                assert(spliced::<K, V>(t.entries(), cur.entries(), at, k, v));
                lemma_stored_ids(nodes@, cur, parent);
                assert(nodes.len() == nodes@.len());
            }
            let ghost linked = nodes@;
            let ghost joined = cur;
            let (top, Ghost(settled)) = Self::settle(id, nodes, Ghost(cur), Ghost(parent));
            id = top;
            proof {
                let sized = joined.with_size((1 + joined.l().count() + joined.r().count()) as usize);
                lemma_sized_count(joined.l());
                lemma_sized_count(joined.r());
                assert(sized.sized());
                assert(sized.entries() == joined.entries());
                assert(sized.ids() == joined.ids());
                lemma_settled_same(sized);
                lemma_settled_colors(sized);
                cur = settled;
                assert forall|s: usize| s < before.len() && !t.ids().contains(s) implies #[trigger] nodes@[s as int]
                    == before[s as int] by {
                    assert(!joined.ids().contains(s));
                    assert(nodes@[s as int] == linked[s as int]);
                }
            }
            (Some(id), Ghost(cur), Ghost(at))
        } else {
            let the_id = nodes.len();
            nodes.push(
                Node {
                    key,
                    value,
                    parent,
                    size: 1,
                    left: None,
                    right: None,
                    color: Color::red(),
                },
            );
            let ghost leaf = Tree::fork(Tree::Leaf, the_id, k, v, true, 1, Tree::Leaf);
            proof {
                lemma_stored_leaf::<K, V>(nodes@, Some(the_id));
                lemma_close(nodes@, leaf, parent);
                assert(leaf.ids() =~= set![the_id]);
                assert(t.entries().take(0) =~= Seq::empty());
                assert(t.entries().skip(0) =~= Seq::empty());
                assert(leaf.entries() =~= t.entries().take(0).push((k, v)) + t.entries().skip(0));
            }
            (Some(the_id), Ghost(leaf), Ghost(0))
        }
    }

    /// Inserts `value` under `key`, in place of what was stored there.
    pub fn insert(&mut self, key: K, value: V)
        requires
            old(self).wf(),
        ensures
            final(self).wf(),
            final(self)@ == old(self)@.insert(key@, value),
            spliced::<K, V>(
                old(self).entries(),
                final(self).entries(),
                count_before::<K, V>(old(self).entries(), key@) as int,
                key@,
                value,
            ),
    {
        let ghost before = self.mirror@;
        let (root, Ghost(grown), Ghost(at)) = Self::put(
            self.root,
            None,
            key,
            value,
            &mut self.nodes,
            Ghost(before),
        );
        self.root = root;
        let top = self.root.unwrap();
        proof {
            lemma_open(self.nodes@, grown, None);
        }
        let ghost planted = self.nodes@;
        self.nodes[top].color = Color::black();
        self.mirror = Ghost(grown.with_red(false));
        proof {
            lemma_stored_apart(planted, self.nodes@, grown.l(), Some(top), set![top]);
            lemma_stored_apart(planted, self.nodes@, grown.r(), Some(top), set![top]);
            lemma_with_red(grown, false);
            lemma_close(self.nodes@, grown.with_red(false), None);
            lemma_spliced::<K, V>(before.entries(), grown.entries(), at, key@, value);
            lemma_spliced_at::<K, V>(before.entries(), grown.entries(), at, key@, value);
        }
    }
}

impl<K: TotalOrder, V> RBTree<K, V> {
    /// Records the size of the tree at `id` from its children and repairs
    /// the colours at its root after an insertion below it.
    #[verifier::rlimit(60)]
    pub(crate) fn settle(
        id: usize,
        nodes: &mut Vec<Node<K, V>>,
        Ghost(t): Ghost<Tree<K::V, V>>,
        Ghost(p): Ghost<Option<usize>>,
    ) -> (res: (usize, Ghost<Tree<K::V, V>>))
        requires
            stored(old(nodes)@, t, p),
            t.link() == Some(id),
            t.l().sized(),
            t.r().sized(),
        ensures
            res.1@ == t.with_size((1 + t.l().count() + t.r().count()) as usize).settled(),
            res.1@.link() == Some(res.0),
            stored(final(nodes)@, res.1@, p),
            final(nodes)@.len() == old(nodes)@.len(),
            agree_outside(old(nodes)@, final(nodes)@, t.ids()),
    {
        let ghost before = nodes@;
        let mut id = id;
        proof {
            lemma_open(nodes@, t, p);
            if t.l().is_fork() {
                lemma_open(nodes@, t.l(), Some(id));
            }
            if t.r().is_fork() {
                lemma_open(nodes@, t.r(), Some(id));
            }
            lemma_sized_count(t.l());
            lemma_sized_count(t.r());
            assert(nodes.len() == nodes@.len());
        }
        nodes[id].size = Self::size(nodes[id].left, nodes) + Self::size(nodes[id].right, nodes) + 1;
        let ghost mut cur = t.with_size(nodes@[id as int].size);
        proof {
            lemma_stored_apart(before, nodes@, t.l(), Some(id), set![id]);
            lemma_stored_apart(before, nodes@, t.r(), Some(id), set![id]);
            lemma_close(nodes@, cur, p);
            assert(cur.ids() =~= t.ids());
            assert(cur.sized());
        }
        let ghost sized = cur;

        if Self::is_red(nodes[id].right, nodes) && !Self::is_red(nodes[id].left, nodes) {
            let (top, Ghost(turned)) = Self::rotate_left(id, nodes, Ghost(cur), Ghost(p));
            id = top;
            proof {
                crate::mirror::lemma_rotated_left(cur);
                cur = turned;
            }
        }
        let ghost first = cur;
        proof {
            assert(cur.ids() =~= t.ids());
            assert(agree_outside(before, nodes@, t.ids()));
            lemma_open(nodes@, cur, p);
            if cur.l().is_fork() {
                lemma_open(nodes@, cur.l(), Some(id));
                if cur.l().l().is_fork() {
                    lemma_open(nodes@, cur.l().l(), Some(cur.l().slot()));
                }
            }
            lemma_sized_count(cur);
            lemma_sized_count(cur.l());
        }

        if Self::is_red(nodes[id].left, nodes) && Self::is_red(
            nodes[nodes[id].left.unwrap()].left,
            nodes,
        ) {
            let (top, Ghost(turned)) = Self::rotate_right(id, nodes, Ghost(cur), Ghost(p));
            id = top;
            proof {
                crate::mirror::lemma_rotated_right(cur);
                cur = turned;
            }
        }
        proof {
            assert(cur.ids() =~= t.ids());
            assert(agree_outside(before, nodes@, t.ids()));
            lemma_open(nodes@, cur, p);
            if cur.l().is_fork() {
                lemma_open(nodes@, cur.l(), Some(id));
            }
            if cur.r().is_fork() {
                lemma_open(nodes@, cur.r(), Some(id));
            }
        }

        if Self::is_red(nodes[id].left, nodes) && Self::is_red(nodes[id].right, nodes) {
            Self::flip_colors(
                id,
                nodes[id].left.unwrap(),
                nodes[id].right.unwrap(),
                nodes,
                Ghost(cur),
                Ghost(p),
            );
            proof {
                cur = cur.flipped();
            }
        }
        proof {
            assert(cur == sized.settled());
            assert(agree_outside(before, nodes@, t.ids()));
        }
        (id, Ghost(cur))
    }
}

impl<K: TotalOrder, V> Default for RBTree<K, V> {
    fn default() -> (tree: RBTree<K, V>)
        ensures
            tree.wf(),
            tree.entries() == Seq::<(K::V, V)>::empty(),
            tree@ == Map::<K::V, V>::empty(),
    {
        RBTree::new()
    }
}

} // verus!
