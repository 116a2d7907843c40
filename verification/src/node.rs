//! The node store: nodes that refer to one another by slot, and what it
//! means for the store to hold a given tree.

use crate::mirror::{lemma_slots_bounded, Tree};
use crate::order::TotalOrder;
use vstd::prelude::*;

verus! {

/// The colour of the link from a node's parent to the node.
#[derive(Copy, Clone, Debug)]
pub(crate) struct Color {
    pub(crate) color: bool,
}

impl Color {
    /// The colour red.
    pub(crate) fn red() -> (c: Color)
        ensures
            c.color,
    {
        Color { color: true }
    }

    /// The colour black.
    pub(crate) fn black() -> (c: Color)
        ensures
            !c.color,
    {
        Color { color: false }
    }

    /// Whether the colour is red.
    pub(crate) fn is_red(self) -> (r: bool)
        ensures
            r == self.color,
    {
        self.color
    }

    /// Turns red to black and black to red.
    pub(crate) fn flip(&mut self)
        ensures
            final(self).color == !old(self).color,
    {
        self.color = !self.color;
    }
}

/// One entry of the map, with the slots of its neighbours in the tree.
#[derive(Debug)]
pub struct Node<K, V> {
    pub(crate) value: V,
    pub(crate) key: K,
    pub(crate) left: Option<usize>,
    pub(crate) right: Option<usize>,
    pub(crate) size: usize,
    pub(crate) color: Color,
    pub(crate) parent: Option<usize>,
}

/// The store holds the tree `t` below a node at `parent`: each fork's slot
/// holds the fork's entry, colour and size, and refers to its children and
/// to its parent; no slot occurs twice.
#[verifier::opaque]
pub(crate) open spec fn stored<K: TotalOrder, V>(
    nodes: Seq<Node<K, V>>,
    t: Tree<K::V, V>,
    parent: Option<usize>,
) -> bool
    decreases t,
{
    match t {
        Tree::Leaf => true,
        Tree::Fork { left, slot, key, value, red, size, right } => {
            &&& slot < nodes.len()
            &&& nodes[slot as int].key@ == key
            &&& nodes[slot as int].value == value
            &&& nodes[slot as int].color.color == red
            &&& nodes[slot as int].size == size
            &&& nodes[slot as int].parent == parent
            &&& nodes[slot as int].left == left.link()
            &&& nodes[slot as int].right == right.link()
            &&& !left.ids().contains(slot)
            &&& !right.ids().contains(slot)
            &&& left.ids().disjoint(right.ids())
            &&& stored(nodes, *left, Some(slot))
            &&& stored(nodes, *right, Some(slot))
        },
    }
}

/// `b` holds at every slot of `ids` what `a` holds there.
pub(crate) open spec fn agree<K, V>(a: Seq<Node<K, V>>, b: Seq<Node<K, V>>, ids: Set<usize>) -> bool {
    forall|s: usize| #[trigger]
        ids.contains(s) && s < a.len() ==> s < b.len() && b[s as int] == a[s as int]
}

/// `b` is no shorter than `a` and holds at every slot of `a`, but those of
/// `ids`, what `a` holds there.
pub(crate) open spec fn agree_outside<K, V>(
    a: Seq<Node<K, V>>,
    b: Seq<Node<K, V>>,
    ids: Set<usize>,
) -> bool {
    &&& a.len() <= b.len()
    &&& forall|s: usize|
        #![trigger b[s as int]]
        s < a.len() && !ids.contains(s) ==> b[s as int] == a[s as int]
}

/// The slots of a stored tree lie in the store.
pub(crate) proof fn lemma_stored_ids<K: TotalOrder, V>(
    nodes: Seq<Node<K, V>>,
    t: Tree<K::V, V>,
    parent: Option<usize>,
)
    requires
        stored(nodes, t, parent),
    ensures
        forall|s: usize| #[trigger] t.ids().contains(s) ==> s < nodes.len(),
        t.ids().finite(),
        t.ids().len() == t.count(),
        t.count() <= nodes.len(),
    decreases t,
{
    reveal_with_fuel(stored, 2);
    match t {
        Tree::Leaf => {},
        Tree::Fork { left, slot, right, .. } => {
            lemma_stored_ids(nodes, *left, Some(slot));
            lemma_stored_ids(nodes, *right, Some(slot));
            vstd::set_lib::lemma_set_disjoint_lens(left.ids(), right.ids());
        },
    }
    lemma_slots_bounded(t.ids(), nodes.len());
}

/// A tree stays stored while its own slots stay as they are.
pub(crate) proof fn lemma_stored_frame<K: TotalOrder, V>(
    a: Seq<Node<K, V>>,
    b: Seq<Node<K, V>>,
    t: Tree<K::V, V>,
    parent: Option<usize>,
)
    requires
        stored(a, t, parent),
        agree(a, b, t.ids()),
    ensures
        stored(b, t, parent),
    decreases t,
{
    reveal_with_fuel(stored, 2);
    match t {
        Tree::Leaf => {},
        Tree::Fork { left, slot, right, .. } => {
            assert(t.ids().contains(slot));
            lemma_stored_ids(a, *left, Some(slot));
            lemma_stored_ids(a, *right, Some(slot));
            assert forall|s: usize| #[trigger] left.ids().contains(s) && s < a.len() implies s
                < b.len() && b[s as int] == a[s as int] by {
                assert(t.ids().contains(s));
            }
            assert forall|s: usize| #[trigger] right.ids().contains(s) && s < a.len() implies s
                < b.len() && b[s as int] == a[s as int] by {
                assert(t.ids().contains(s));
            }
            lemma_stored_frame(a, b, *left, Some(slot));
            lemma_stored_frame(a, b, *right, Some(slot));
        },
    }
}

/// A tree stays stored while the slots outside it change.
pub(crate) proof fn lemma_stored_apart<K: TotalOrder, V>(
    a: Seq<Node<K, V>>,
    b: Seq<Node<K, V>>,
    t: Tree<K::V, V>,
    parent: Option<usize>,
    touched: Set<usize>,
)
    requires
        stored(a, t, parent),
        agree_outside(a, b, touched),
        t.ids().disjoint(touched),
    ensures
        stored(b, t, parent),
{
    lemma_stored_ids(a, t, parent);
    assert forall|s: usize| #[trigger] t.ids().contains(s) && s < a.len() implies s < b.len()
        && b[s as int] == a[s as int] by {
        lemma_agree_at(a, b, touched, s);
    }
    lemma_stored_frame(a, b, t, parent);
}

/// A stored tree hangs below another parent once its root says so.
pub(crate) proof fn lemma_stored_reparent<K: TotalOrder, V>(
    a: Seq<Node<K, V>>,
    b: Seq<Node<K, V>>,
    t: Tree<K::V, V>,
    parent: Option<usize>,
    moved: Option<usize>,
)
    requires
        stored(a, t, parent),
        t.is_fork(),
        agree(a, b, t.ids().remove(t.slot())),
        a.len() <= b.len(),
        b[t.slot() as int] == (Node { parent: moved, ..a[t.slot() as int] }),
    ensures
        stored(b, t, moved),
{
    reveal_with_fuel(stored, 2);
    match t {
        Tree::Leaf => {},
        Tree::Fork { left, slot, right, .. } => {
            assert forall|s: usize| #[trigger] left.ids().contains(s) && s < a.len() implies s
                < b.len() && b[s as int] == a[s as int] by {
                assert(t.ids().remove(slot).contains(s));
            }
            assert forall|s: usize| #[trigger] right.ids().contains(s) && s < a.len() implies s
                < b.len() && b[s as int] == a[s as int] by {
                assert(t.ids().remove(slot).contains(s));
            }
            lemma_stored_frame(a, b, *left, Some(slot));
            lemma_stored_frame(a, b, *right, Some(slot));
        },
    }
}

/// What `stored` says of a fork, one level down.
pub(crate) proof fn lemma_open<K: TotalOrder, V>(
    nodes: Seq<Node<K, V>>,
    t: Tree<K::V, V>,
    parent: Option<usize>,
)
    requires
        stored(nodes, t, parent),
        t.is_fork(),
    ensures
        t.slot() < nodes.len(),
        nodes[t.slot() as int].key@ == t.key(),
        nodes[t.slot() as int].value == t.value(),
        nodes[t.slot() as int].color.color == t.red(),
        nodes[t.slot() as int].size == t.size(),
        nodes[t.slot() as int].parent == parent,
        nodes[t.slot() as int].left == t.l().link(),
        nodes[t.slot() as int].right == t.r().link(),
        stored(nodes, t.l(), Some(t.slot())),
        stored(nodes, t.r(), Some(t.slot())),
        t.ids() == t.l().ids().union(t.r().ids()).insert(t.slot()),
        t.ids().contains(t.slot()),
        !t.l().ids().contains(t.slot()),
        !t.r().ids().contains(t.slot()),
        t.l().ids().disjoint(t.r().ids()),
        t.l().is_fork() ==> t.l().slot() < nodes.len() && t.l().ids().contains(t.l().slot())
            && t.l().slot() != t.slot() && !t.r().ids().contains(t.l().slot()),
        t.r().is_fork() ==> t.r().slot() < nodes.len() && t.r().ids().contains(t.r().slot())
            && t.r().slot() != t.slot() && !t.l().ids().contains(t.r().slot()),
        t.l().is_fork() && t.r().is_fork() ==> t.l().slot() != t.r().slot(),
        t.count() == 1 + t.l().count() + t.r().count(),
        t.count() <= nodes.len(),
{
    reveal_with_fuel(stored, 2);
    lemma_stored_ids(nodes, t, parent);
}

/// An empty tree is stored anywhere.
pub(crate) proof fn lemma_stored_leaf<K: TotalOrder, V>(
    nodes: Seq<Node<K, V>>,
    parent: Option<usize>,
)
    ensures
        stored(nodes, Tree::<K::V, V>::Leaf, parent),
{
    reveal_with_fuel(stored, 2);
}

/// A fork is stored once its slot holds it and its children are stored.
pub(crate) proof fn lemma_close<K: TotalOrder, V>(
    nodes: Seq<Node<K, V>>,
    t: Tree<K::V, V>,
    parent: Option<usize>,
)
    requires
        t.is_fork(),
        t.slot() < nodes.len(),
        nodes[t.slot() as int].key@ == t.key(),
        nodes[t.slot() as int].value == t.value(),
        nodes[t.slot() as int].color.color == t.red(),
        nodes[t.slot() as int].size == t.size(),
        nodes[t.slot() as int].parent == parent,
        nodes[t.slot() as int].left == t.l().link(),
        nodes[t.slot() as int].right == t.r().link(),
        !t.l().ids().contains(t.slot()),
        !t.r().ids().contains(t.slot()),
        t.l().ids().disjoint(t.r().ids()),
        stored(nodes, t.l(), Some(t.slot())),
        stored(nodes, t.r(), Some(t.slot())),
    ensures
        stored(nodes, t, parent),
{
    reveal_with_fuel(stored, 2);
}

/// What a slot outside `ids` holds after a step that kept to `ids`.
pub(crate) proof fn lemma_agree_at<K, V>(
    a: Seq<Node<K, V>>,
    b: Seq<Node<K, V>>,
    ids: Set<usize>,
    s: usize,
)
    requires
        agree_outside(a, b, ids),
        s < a.len(),
        !ids.contains(s),
    ensures
        s < b.len(),
        b[s as int] == a[s as int],
{
}

/// What stays as it is over two steps stays as it is over both.
pub(crate) proof fn lemma_agree_outside_chain<K, V>(
    a: Seq<Node<K, V>>,
    b: Seq<Node<K, V>>,
    c: Seq<Node<K, V>>,
    ids: Set<usize>,
    more: Set<usize>,
)
    requires
        agree_outside(a, b, ids),
        agree_outside(b, c, more),
        more.subset_of(ids),
    ensures
        agree_outside(a, c, ids),
{
    assert forall|s: usize| #![trigger c[s as int]] s < a.len() && !ids.contains(s) implies c[s as int]
        == a[s as int] by {
        lemma_agree_at(a, b, ids, s);
        lemma_agree_at(b, c, more, s);
    }
}

/// After a change below the left child of `cur` that left a tree `child` in
/// its place, and once the root refers to it, the store holds `cur` with
/// that child.
pub(crate) proof fn lemma_relink_left<K: TotalOrder, V>(
    s0: Seq<Node<K, V>>,
    s1: Seq<Node<K, V>>,
    s2: Seq<Node<K, V>>,
    cur: Tree<K::V, V>,
    child: Tree<K::V, V>,
    p: Option<usize>,
    extra: Set<usize>,
)
    requires
        stored(s0, cur, p),
        cur.is_fork(),
        agree_outside(s0, s1, cur.l().ids().union(extra)),
        s0.len() == s1.len(),
        extra.disjoint(cur.ids()),
        stored(s1, child, Some(cur.slot())),
        child.ids().subset_of(cur.l().ids()),
        s2 == s1.update(
            cur.slot() as int,
            Node { left: child.link(), ..s1[cur.slot() as int] },
        ),
    ensures
        stored(s2, cur.with_left(child), p),
        agree_outside(s0, s2, cur.ids().union(extra)),
        cur.with_left(child).ids() == child.ids().union(cur.r().ids()).insert(cur.slot()),
        cur.with_left(child).ids().subset_of(cur.ids()),
        cur.with_left(child).count() == 1 + child.count() + cur.r().count(),
{
    let id = cur.slot();
    lemma_open(s0, cur, p);
    lemma_stored_apart(s0, s1, cur.r(), Some(id), cur.l().ids().union(extra));
    lemma_stored_apart(s1, s2, cur.r(), Some(id), set![id]);
    lemma_stored_apart(s1, s2, child, Some(id), set![id]);
    lemma_close(s2, cur.with_left(child), p);
}

/// After a change below the right child of `cur` that left a tree `child`
/// in its place and may have put another entry into the root's slot, and
/// once the root refers to the child, the store holds `cur` with that entry
/// and that child.
pub(crate) proof fn lemma_relink_right<K: TotalOrder, V>(
    s0: Seq<Node<K, V>>,
    s1: Seq<Node<K, V>>,
    s2: Seq<Node<K, V>>,
    cur: Tree<K::V, V>,
    child: Tree<K::V, V>,
    p: Option<usize>,
)
    requires
        stored(s0, cur, p),
        cur.is_fork(),
        agree_outside(s0, s1, cur.r().ids().insert(cur.slot())),
        s0.len() == s1.len(),
        s1[cur.slot() as int].left == s0[cur.slot() as int].left,
        s1[cur.slot() as int].color == s0[cur.slot() as int].color,
        s1[cur.slot() as int].size == s0[cur.slot() as int].size,
        s1[cur.slot() as int].parent == s0[cur.slot() as int].parent,
        stored(s1, child, Some(cur.slot())),
        child.ids().subset_of(cur.r().ids()),
        s2 == s1.update(
            cur.slot() as int,
            Node { right: child.link(), ..s1[cur.slot() as int] },
        ),
    ensures
        stored(
            s2,
            cur.with_entry(s1[cur.slot() as int].key@, s1[cur.slot() as int].value).with_right(
                child,
            ),
            p,
        ),
        agree_outside(s0, s2, cur.ids()),
        cur.with_right(child).ids() == cur.l().ids().union(child.ids()).insert(cur.slot()),
        cur.with_right(child).ids().subset_of(cur.ids()),
        cur.with_right(child).count() == 1 + cur.l().count() + child.count(),
{
    let id = cur.slot();
    lemma_open(s0, cur, p);
    lemma_stored_apart(s0, s1, cur.l(), Some(id), cur.r().ids().insert(id));
    lemma_stored_apart(s1, s2, cur.l(), Some(id), set![id]);
    lemma_stored_apart(s1, s2, child, Some(id), set![id]);
    let after = cur.with_entry(s1[id as int].key@, s1[id as int].value).with_right(child);
    lemma_close(s2, after, p);
}

} // verus!
