//! Keeping the node store without holes: when a slot falls free, the node
//! in the last slot moves into it and every reference to it is rewritten.

use crate::mirror::{lemma_slots_bounded, Tree};
use crate::node::{lemma_open, lemma_stored_ids, stored, Node};
use crate::order::TotalOrder;
use crate::rbtree::RBTree;
use vstd::prelude::*;

verus! {

/// What a removal from the store did: the slot of the tree that is left,
/// the slot that the moved node had and the slot it has now.
pub(crate) struct DeleteResult {
    pub(crate) child: Option<usize>,
    pub(crate) moved_node: usize,
    pub(crate) moved_node_new_id: usize,
}

impl DeleteResult {
    /// The slot that `id` names after the move.
    pub(crate) open spec fn translated(&self, id: usize) -> usize {
        if self.moved_node == id {
            self.moved_node_new_id
        } else {
            id
        }
    }

    /// The slot that `id` names after the move.
    pub(crate) fn translate(&self, id: usize) -> (r: usize)
        ensures
            r == self.translated(id),
    {
        if self.moved_node == id {
            self.moved_node_new_id
        } else {
            id
        }
    }

    /// The same move, with `id` as it is named after the move for the tree
    /// that is left.
    pub(crate) fn set_child(self, id: usize) -> (r: DeleteResult)
        ensures
            r.child == Some(self.translated(id)),
            r.moved_node == self.moved_node,
            r.moved_node_new_id == self.moved_node_new_id,
    {
        let child = Some(self.translate(id));
        DeleteResult {
            child,
            moved_node: self.moved_node,
            moved_node_new_id: self.moved_node_new_id,
        }
    }
}

/// The slot that `s` names once the node at `from` has moved to `to`.
pub open spec fn moved_slot(s: usize, from: usize, to: usize) -> usize {
    if s == from {
        to
    } else {
        s
    }
}

/// The handle that `link` is once the node at `from` has moved to `to`.
pub open spec fn moved_link(link: Option<usize>, from: usize, to: usize) -> Option<usize> {
    match link {
        Some(s) => Some(moved_slot(s, from, to)),
        None => None,
    }
}

/// The node with its three handles rewritten for that move.
pub(crate) open spec fn moved_node<K, V>(n: Node<K, V>, from: usize, to: usize) -> Node<K, V> {
    Node {
        left: moved_link(n.left, from, to),
        right: moved_link(n.right, from, to),
        parent: moved_link(n.parent, from, to),
        ..n
    }
}

impl<A, V> Tree<A, V> {
    /// The tree with the slot `from` renamed to `to`.
    pub open spec fn renamed(self, from: usize, to: usize) -> Tree<A, V>
        decreases self,
    {
        match self {
            Tree::Leaf => Tree::Leaf,
            Tree::Fork { left, slot, key, value, red, size, right } => Tree::Fork {
                left: Box::new(left.renamed(from, to)),
                slot: moved_slot(slot, from, to),
                key,
                value,
                red,
                size,
                right: Box::new(right.renamed(from, to)),
            },
        }
    }
}

/// Renaming a slot changes neither the entries nor the colours nor the
/// sizes, and the slots only at that name.
pub proof fn lemma_renamed<A, V>(t: Tree<A, V>, from: usize, to: usize)
    ensures
        t.renamed(from, to).entries() == t.entries(),
        t.renamed(from, to).count() == t.count(),
        t.renamed(from, to).sized() == t.sized(),
        t.renamed(from, to).leaning() == t.leaning(),
        t.renamed(from, to).balanced() == t.balanced(),
        t.renamed(from, to).black_height() == t.black_height(),
        t.renamed(from, to).red() == t.red(),
        t.renamed(from, to).is_fork() == t.is_fork(),
        t.renamed(from, to).link() == moved_link(t.link(), from, to),
        t.renamed(from, to).ids() == (if t.ids().contains(from) {
            t.ids().remove(from).insert(to)
        } else {
            t.ids()
        }),
        !t.ids().contains(from) ==> t.renamed(from, to) == t,
    decreases t,
{
    match t {
        Tree::Leaf => {},
        Tree::Fork { left, slot, right, .. } => {
            lemma_renamed(*left, from, to);
            lemma_renamed(*right, from, to);
            let r = t.renamed(from, to);
            assert(r.l().l().red() == left.l().red()) by {
                lemma_renamed(left.l(), from, to);
            }
        },
    }
}

/// How the nodes of a stored tree refer to each other: a child's slot lies
/// in the tree and names the node as its parent, the two children differ,
/// and below the root a node's parent lies in the tree and has the node as
/// a child.
pub(crate) proof fn lemma_links<K: TotalOrder, V>(
    a: Seq<Node<K, V>>,
    t: Tree<K::V, V>,
    p: Option<usize>,
    s: usize,
)
    requires
        stored(a, t, p),
        t.ids().contains(s),
    ensures
        s < a.len(),
        a[s as int].left matches Some(x) ==> t.ids().contains(x) && x != s && a[x as int].parent
            == Some(s) && a[s as int].right != Some(x),
        a[s as int].right matches Some(x) ==> t.ids().contains(x) && x != s && a[x as int].parent
            == Some(s),
        s == t.slot() ==> a[s as int].parent == p,
        s != t.slot() ==> (a[s as int].parent matches Some(q) && t.ids().contains(q) && q != s && (
        a[q as int].left == Some(s) || a[q as int].right == Some(s))),
    decreases t,
{
    lemma_open(a, t, p);
    let slot = t.slot();
    if t.l().is_fork() {
        lemma_open(a, t.l(), Some(slot));
    }
    if t.r().is_fork() {
        lemma_open(a, t.r(), Some(slot));
    }
    if s == slot {
    } else if t.l().ids().contains(s) {
        lemma_links(a, t.l(), Some(slot), s);
    } else {
        lemma_links(a, t.r(), Some(slot), s);
    }
}

/// A tree stays stored, under its new names, when the last node of the
/// store moves into a slot outside the tree and every node's handles are
/// rewritten.
pub(crate) proof fn lemma_stored_renamed<K: TotalOrder, V>(
    a: Seq<Node<K, V>>,
    b: Seq<Node<K, V>>,
    t: Tree<K::V, V>,
    p: Option<usize>,
    from: usize,
    to: usize,
)
    requires
        stored(a, t, p),
        !t.ids().contains(to),
        to < from,
        from == a.len() - 1,
        b.len() == from,
        forall|s: usize| #[trigger]
            t.ids().contains(s) ==> b[moved_slot(s, from, to) as int] == moved_node(
                a[s as int],
                from,
                to,
            ),
    ensures
        stored(b, t.renamed(from, to), moved_link(p, from, to)),
    decreases t,
{
    match t {
        Tree::Leaf => {
            crate::node::lemma_stored_leaf::<K, V>(b, moved_link(p, from, to));
        },
        Tree::Fork { left, slot, right, .. } => {
            lemma_open(a, t, p);
            lemma_renamed(*left, from, to);
            lemma_renamed(*right, from, to);
            lemma_renamed(t, from, to);
            assert forall|s: usize| #[trigger] left.ids().contains(s) implies b[moved_slot(
                s,
                from,
                to,
            ) as int] == moved_node(a[s as int], from, to) by {
                assert(t.ids().contains(s));
            }
            assert forall|s: usize| #[trigger] right.ids().contains(s) implies b[moved_slot(
                s,
                from,
                to,
            ) as int] == moved_node(a[s as int], from, to) by {
                assert(t.ids().contains(s));
            }
            lemma_stored_renamed(a, b, *left, Some(slot), from, to);
            lemma_stored_renamed(a, b, *right, Some(slot), from, to);
            crate::node::lemma_close(b, t.renamed(from, to), moved_link(p, from, to));
        },
    }
}

/// A tree that leaves one slot of the store unused fills all the others.
pub(crate) proof fn lemma_fills<K: TotalOrder, V>(
    a: Seq<Node<K, V>>,
    t: Tree<K::V, V>,
    p: Option<usize>,
    hole: usize,
    s: usize,
)
    requires
        stored(a, t, p),
        !t.ids().contains(hole),
        hole < a.len(),
        t.count() == a.len() - 1,
        s < a.len(),
        s != hole,
    ensures
        t.ids().contains(s),
{
    lemma_stored_ids(a, t, p);
    if !t.ids().contains(s) {
        let more = t.ids().insert(hole).insert(s);
        lemma_slots_bounded(more, a.len());
    }
}

/// The store after its last node has moved into the slot `to` and its
/// parent and children have been told.
pub(crate) open spec fn compacted<K, V>(a: Seq<Node<K, V>>, to: usize) -> Seq<Node<K, V>> {
    let from = (a.len() - 1) as usize;
    let moved = a[from as int];
    let closed = a.update(to as int, moved).drop_last();
    let above = match moved.parent {
        Some(q) => if closed[q as int].left == Some(from) {
            closed.update(q as int, Node { left: Some(to), ..closed[q as int] })
        } else {
            closed.update(q as int, Node { right: Some(to), ..closed[q as int] })
        },
        None => closed,
    };
    let first = match moved.left {
        Some(x) => above.update(x as int, Node { parent: Some(to), ..above[x as int] }),
        None => above,
    };
    match moved.right {
        Some(x) => first.update(x as int, Node { parent: Some(to), ..first[x as int] }),
        None => first,
    }
}

/// After that move a node of the tree is found under its new name with its
/// handles rewritten.
proof fn lemma_compacted_at<K: TotalOrder, V>(
    a: Seq<Node<K, V>>,
    t: Tree<K::V, V>,
    to: usize,
    s: usize,
)
    requires
        stored(a, t, None),
        !t.ids().contains(to),
        a.len() <= usize::MAX,
        to < a.len() - 1,
        t.ids().contains((a.len() - 1) as usize),
        t.ids().contains(s),
    ensures
        compacted(a, to).len() == a.len() - 1,
        compacted(a, to)[moved_slot(s, (a.len() - 1) as usize, to) as int] == moved_node(
            a[s as int],
            (a.len() - 1) as usize,
            to,
        ),
{
    let from = (a.len() - 1) as usize;
    let moved = a[from as int];
    lemma_links(a, t, None, from);
    lemma_links(a, t, None, s);
    if moved.parent is Some {
        lemma_links(a, t, None, moved.parent.unwrap());
    }
    if moved.left is Some {
        lemma_links(a, t, None, moved.left.unwrap());
    }
    if moved.right is Some {
        lemma_links(a, t, None, moved.right.unwrap());
    }
}

/// After that move the store holds the tree under its new names.
pub(crate) proof fn lemma_compacted<K: TotalOrder, V>(
    a: Seq<Node<K, V>>,
    t: Tree<K::V, V>,
    to: usize,
)
    requires
        stored(a, t, None),
        !t.ids().contains(to),
        a.len() <= usize::MAX,
        to < a.len() - 1,
        t.count() == a.len() - 1,
    ensures
        compacted(a, to).len() == a.len() - 1,
        stored(compacted(a, to), t.renamed((a.len() - 1) as usize, to), None),
{
    let from = (a.len() - 1) as usize;
    let b = compacted(a, to);
    lemma_fills(a, t, None, to, from);
    lemma_compacted_at(a, t, to, from);
    assert forall|s: usize| #[trigger] t.ids().contains(s) implies b[moved_slot(s, from, to) as int]
        == moved_node(a[s as int], from, to) by {
        lemma_compacted_at(a, t, to, s);
    }
    lemma_stored_renamed(a, b, t, None, from, to);
}

impl<K: TotalOrder, V> RBTree<K, V> {
    /// Takes the unused slot `id` out of the store: the node in the last
    /// slot moves into it, and its parent and its children are told.
    pub(crate) fn remove(
        id: usize,
        nodes: &mut Vec<Node<K, V>>,
        Ghost(t): Ghost<Tree<K::V, V>>,
    ) -> (res: DeleteResult)
        requires
            stored(old(nodes)@, t, None),
            id < old(nodes)@.len(),
            !t.ids().contains(id),
            t.count() == old(nodes)@.len() - 1,
        ensures
            res.child is None,
            res.moved_node == old(nodes)@.len() - 1,
            res.moved_node_new_id == id,
            final(nodes)@.len() == old(nodes)@.len() - 1,
            stored(final(nodes)@, t.renamed(res.moved_node, id), None),
    {
        let ghost a = nodes@;
        let other = nodes.len() - 1;
        if id != other {
            proof {
                lemma_fills(a, t, None, id, other);
                lemma_links(a, t, None, other);
                lemma_compacted(a, t, id);
            }
            let _ = nodes.swap_remove(id);
            let parent = nodes[id].parent;
            let left = nodes[id].left;
            let right = nodes[id].right;
            proof {
                lemma_stored_ids(a, t, None);
            }
            if let Some(above) = parent {
                let first = nodes[above].left;
                if first.is_some() && first.unwrap() == other {
                    nodes[above].left = Some(id);
                } else {
                    nodes[above].right = Some(id);
                }
            }
            if let Some(below) = left {
                nodes[below].parent = Some(id);
            }
            if let Some(below) = right {
                nodes[below].parent = Some(id);
            }
        } else {
            let _ = nodes.swap_remove(id);
            proof {
                lemma_stored_ids(a, t, None);
                assert forall|s: usize| #[trigger] t.ids().contains(s) && s < a.len() implies s
                    < nodes@.len() && nodes@[s as int] == a[s as int] by {}
                crate::node::lemma_stored_frame(a, nodes@, t, None);
                lemma_renamed(t, other, id);
            }
        }
        DeleteResult { child: None, moved_node: other, moved_node_new_id: id }
    }
}

} // verus!
