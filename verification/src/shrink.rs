//! How the colours of a tree are pushed down before a removal below it and
//! repaired after it, as facts about trees alone.

use crate::mirror::{lemma_flipped, lemma_rotated_left, lemma_rotated_right, lemma_sized_count, Tree};
use vstd::prelude::*;

verus! {

impl<A, V> Tree<A, V> {
    /// The tree after red has been moved to its left child or to that
    /// child's left child.
    #[verifier::opaque]
    pub open spec fn moved_red_left(self) -> Tree<A, V> {
        let f = self.flipped();
        if f.r().l().red() {
            f.with_right(f.r().rotated_right()).rotated_left().flipped()
        } else {
            f
        }
    }

    /// The tree after red has been moved to its right child or to that
    /// child's right child.
    #[verifier::opaque]
    pub open spec fn moved_red_right(self) -> Tree<A, V> {
        let f = self.flipped();
        if f.l().l().red() {
            f.rotated_right().flipped()
        } else {
            f
        }
    }

    /// The tree after the repairs that follow a removal below it.
    #[verifier::opaque]
    pub open spec fn rebalanced(self) -> Tree<A, V> {
        let a = if self.r().red() {
            self.rotated_left()
        } else {
            self
        };
        let b = if a.l().red() && a.l().l().red() {
            a.rotated_right()
        } else {
            a
        };
        let c = b.with_size((1 + b.l().size() + b.r().size()) as usize);
        if c.l().red() && c.r().red() {
            c.flipped()
        } else {
            c
        }
    }

    /// Red root over black children.
    pub open spec fn red_over_black(self) -> bool {
        self.red() && !self.l().red() && !self.r().red()
    }

    /// Black root with a red left child alone.
    pub open spec fn black_over_left(self) -> bool {
        !self.red() && self.l().red() && !self.r().red()
    }

    /// Black root with a red right child alone.
    pub open spec fn black_over_right(self) -> bool {
        !self.red() && !self.l().red() && self.r().red()
    }

    /// A removal may descend into the tree: its children are proper and of
    /// one black height, and red is at hand at its root or at one child.
    #[verifier::opaque]
    pub open spec fn ready(self) -> bool {
        &&& self.is_fork()
        &&& self.l().proper()
        &&& self.r().proper()
        &&& self.l().black_height() == self.r().black_height()
        &&& (self.red_over_black() || self.black_over_left() || self.black_over_right())
    }

    /// The repairs may be applied: the children are proper and of one black
    /// height, and a red root has black children.
    #[verifier::opaque]
    pub open spec fn mendable(self) -> bool {
        &&& self.is_fork()
        &&& self.l().proper()
        &&& self.r().proper()
        &&& self.l().black_height() == self.r().black_height()
        &&& (self.red() ==> !self.l().red() && !self.r().red())
    }

    /// `after` may stand where `self` stood once an entry has left it.
    #[verifier::opaque]
    pub open spec fn shrunk_to(self, after: Tree<A, V>) -> bool {
        &&& after.proper()
        &&& after.black_height() == self.black_height()
        &&& (!self.red() ==> !after.red())
    }

    /// `cur` stands for `self` with red pushed down as far as a removal
    /// below its left child needs it.
    #[verifier::opaque]
    pub open spec fn left_prepared(self, cur: Tree<A, V>) -> bool {
        &&& cur.is_fork()
        &&& cur.l().ready()
        &&& !cur.l().black_over_right()
        &&& cur.r().proper()
        &&& cur.l().black_height() == cur.r().black_height()
        &&& cur.black_height() == self.black_height()
        &&& (cur.red() ==> !cur.l().red() && !cur.r().red())
        &&& (!self.red() ==> !cur.red() && !cur.r().red())
    }

    /// `cur` stands for `self` with red pushed down as far as a removal
    /// below its right child needs it.
    #[verifier::opaque]
    pub open spec fn right_prepared(self, cur: Tree<A, V>) -> bool {
        &&& cur.is_fork()
        &&& cur.r().ready()
        &&& cur.l().proper()
        &&& cur.l().black_height() == cur.r().black_height()
        &&& cur.black_height() == self.black_height()
        &&& (cur.red() ==> !cur.l().red() && !cur.r().red())
        &&& (!self.red() ==> !cur.red() && !cur.l().red())
    }
}

/// Moving red left keeps the entries and the slots.
pub proof fn lemma_moved_red_left<A, V>(t: Tree<A, V>)
    requires
        t.is_fork(),
        t.l().is_fork(),
        t.r().is_fork(),
        t.flipped().r().l().red() ==> t.r().l().is_fork(),
    ensures
        t.moved_red_left().is_fork(),
        t.moved_red_left().l().is_fork(),
        t.moved_red_left().entries() == t.entries(),
        t.moved_red_left().order() == t.order(),
        t.moved_red_left().ids() == t.ids(),
        t.moved_red_left().count() == t.count(),
        t.sized() ==> t.moved_red_left().sized(),
        t.l().entries().is_prefix_of(t.moved_red_left().l().entries()),
        t.l().order().is_prefix_of(t.moved_red_left().l().order()),
{
    reveal(Tree::moved_red_left);
    let f = t.flipped();
    lemma_flipped(t);
    if f.r().l().red() {
        lemma_rotated_right(f.r());
        let g = f.with_right(f.r().rotated_right());
        if t.sized() {
            lemma_sized_count(f);
        }
        lemma_rotated_left(g);
        let h = g.rotated_left();
        lemma_flipped(h);
        assert(h.flipped().l().entries() =~= f.l().entries().push((f.key(), f.value()))
            + f.r().l().l().entries());
        assert(h.flipped().l().order() =~= f.l().order().push(f.slot()) + f.r().l().l().order());
    }
}

/// Moving red right keeps the entries and the slots.
pub proof fn lemma_moved_red_right<A, V>(t: Tree<A, V>)
    requires
        t.is_fork(),
        t.l().is_fork(),
        t.r().is_fork(),
        t.flipped().l().l().red() ==> t.l().l().is_fork(),
    ensures
        t.moved_red_right().is_fork(),
        t.moved_red_right().r().is_fork(),
        t.moved_red_right().entries() == t.entries(),
        t.moved_red_right().order() == t.order(),
        t.moved_red_right().ids() == t.ids(),
        t.moved_red_right().count() == t.count(),
        t.sized() ==> t.moved_red_right().sized(),
        t.moved_red_right().r().entries().len() > t.r().entries().len() ==> {
            let e = t.moved_red_right().r().entries();
            e[e.len() - t.r().entries().len() - 1] == (t.key(), t.value())
        },
        t.moved_red_right().r().entries().len() <= t.r().entries().len()
            ==> t.moved_red_right().key() == t.key(),
{
    reveal(Tree::moved_red_right);
    let f = t.flipped();
    lemma_flipped(t);
    if f.l().l().red() {
        lemma_rotated_right(f);
        let h = f.rotated_right();
        lemma_flipped(h);
        let e = h.flipped().r().entries();
        assert(e =~= f.l().r().entries().push((f.key(), f.value())) + f.r().entries());
    }
}

/// Recording a size at the root changes nothing else.
pub proof fn lemma_with_size<A, V>(t: Tree<A, V>, size: usize)
    requires
        t.is_fork(),
    ensures
        t.with_size(size).is_fork(),
        t.with_size(size).entries() == t.entries(),
        t.with_size(size).order() == t.order(),
        t.with_size(size).ids() == t.ids(),
        t.with_size(size).count() == t.count(),
        t.with_size(size).l() == t.l(),
        t.with_size(size).r() == t.r(),
        t.with_size(size).red() == t.red(),
        t.with_size(size).slot() == t.slot(),
        t.with_size(size).size() == size,
{
}

/// The two turns of the repairs keep the entries and the slots, and the
/// children's sizes exact.
proof fn lemma_rebalanced_turns<A, V>(t: Tree<A, V>) -> (b: Tree<A, V>)
    requires
        t.is_fork(),
        t.l().sized(),
        t.r().sized(),
        t.count() <= usize::MAX,
    ensures
        b == ({
            let a = if t.r().red() {
                t.rotated_left()
            } else {
                t
            };
            if a.l().red() && a.l().l().red() {
                a.rotated_right()
            } else {
                a
            }
        }),
        b.is_fork(),
        b.entries() == t.entries(),
        b.order() == t.order(),
        b.ids() == t.ids(),
        b.count() == t.count(),
        b.l().sized(),
        b.r().sized(),
{
    let a = if t.r().red() {
        t.rotated_left()
    } else {
        t
    };
    if t.r().red() {
        lemma_rotated_left(t);
    }
    if a.l().red() && a.l().l().red() {
        lemma_rotated_right(a);
        a.rotated_right()
    } else {
        a
    }
}

/// The last steps of the repairs, the size and the flip, keep the entries
/// and the slots and leave every size exact.
proof fn lemma_rebalanced_finish<A, V>(b: Tree<A, V>) -> (c: Tree<A, V>)
    requires
        b.is_fork(),
        b.l().sized(),
        b.r().sized(),
        b.count() <= usize::MAX,
    ensures
        c == ({
            let c = b.with_size((1 + b.l().size() + b.r().size()) as usize);
            if c.l().red() && c.r().red() {
                c.flipped()
            } else {
                c
            }
        }),
        c.is_fork(),
        c.entries() == b.entries(),
        c.order() == b.order(),
        c.ids() == b.ids(),
        c.count() == b.count(),
        c.sized(),
{
    lemma_sized_count(b.l());
    lemma_sized_count(b.r());
    let size = (1 + b.l().size() + b.r().size()) as usize;
    let c = b.with_size(size);
    lemma_with_size(b, size);
    if c.l().red() && c.r().red() {
        lemma_flipped(c);
        c.flipped()
    } else {
        c
    }
}

/// The repairs keep the entries and the slots, and leave every size exact
/// where the children's sizes were.
pub proof fn lemma_rebalanced_same<A, V>(t: Tree<A, V>)
    requires
        t.is_fork(),
        t.l().sized(),
        t.r().sized(),
        t.count() <= usize::MAX,
    ensures
        t.rebalanced().is_fork(),
        t.rebalanced().entries() == t.entries(),
        t.rebalanced().order() == t.order(),
        t.rebalanced().ids() == t.ids(),
        t.rebalanced().count() == t.count(),
        t.rebalanced().sized(),
{
    reveal(Tree::rebalanced);
    let b = lemma_rebalanced_turns(t);
    let c = lemma_rebalanced_finish(b);
    assert(c == t.rebalanced());
}

/// The repairs make a mendable tree proper again, of the same black
/// height, and red only where its root was red or both children were.
pub proof fn lemma_rebalanced_colors<A, V>(t: Tree<A, V>)
    requires
        t.mendable(),
    ensures
        t.rebalanced().proper(),
        t.rebalanced().black_height() == t.black_height(),
        t.rebalanced().red() == (t.red() || (t.l().red() && t.r().red())),
{
    reveal(Tree::rebalanced);
    reveal(Tree::mendable);
    reveal_with_fuel(Tree::leaning, 4);
    reveal_with_fuel(Tree::balanced, 4);
}

/// Before a removal on the left of a red root over two black levels, red is
/// moved left; the left child is then ready and the tree mendable whatever
/// comes back in its place.
pub proof fn lemma_prepare_left<A, V>(t: Tree<A, V>)
    requires
        t.ready(),
        t.red_over_black(),
        t.l().is_fork(),
        !t.l().l().red(),
    ensures
        t.r().is_fork(),
        t.flipped().r().l().red() ==> t.r().l().is_fork(),
        t.moved_red_left().l().ready(),
        !t.moved_red_left().l().black_over_right(),
        t.moved_red_left().r().proper(),
        t.moved_red_left().l().black_height() == t.moved_red_left().r().black_height(),
        t.moved_red_left().black_height() == t.black_height(),
        t.moved_red_left().red() ==> !t.moved_red_left().l().red() && !t.moved_red_left().r().red(),
{
    reveal(Tree::moved_red_left);
    reveal(Tree::ready);
    reveal(Tree::mendable);
    reveal(Tree::shrunk_to);
    reveal_with_fuel(Tree::leaning, 5);
    reveal_with_fuel(Tree::balanced, 5);
}

/// Before a removal on the right of a red root over two black levels, red
/// is moved right; the right child is then ready and the tree mendable
/// whatever comes back in its place.
pub proof fn lemma_prepare_right<A, V>(t: Tree<A, V>)
    requires
        t.ready(),
        t.red_over_black(),
        t.r().is_fork(),
        !t.r().l().red(),
    ensures
        t.l().is_fork(),
        t.flipped().l().l().red() ==> t.l().l().is_fork(),
        t.moved_red_right().r().ready(),
        t.moved_red_right().l().proper(),
        t.moved_red_right().l().black_height() == t.moved_red_right().r().black_height(),
        t.moved_red_right().black_height() == t.black_height(),
        t.moved_red_right().red() ==> !t.moved_red_right().l().red()
            && !t.moved_red_right().r().red(),
        t.moved_red_right().r().black_over_right() ==> t.moved_red_right().r().key() == t.key(),
        !t.flipped().l().l().red() ==> t.moved_red_right().r().red_over_black(),
{
    reveal(Tree::moved_red_right);
    reveal(Tree::ready);
    reveal_with_fuel(Tree::leaning, 5);
    reveal_with_fuel(Tree::balanced, 5);
}

/// A black root with a red left child is turned right before a removal on
/// its right; the right child is then a red root over black children.
pub proof fn lemma_prepare_turn<A, V>(t: Tree<A, V>)
    requires
        t.ready(),
        t.black_over_left(),
    ensures
        t.l().is_fork(),
        t.rotated_right().r().ready(),
        t.rotated_right().r().red_over_black(),
        t.rotated_right().l().proper(),
        !t.rotated_right().l().red(),
        !t.rotated_right().red(),
        t.rotated_right().l().black_height() == t.rotated_right().r().black_height(),
        t.rotated_right().black_height() == t.black_height(),
{
    reveal(Tree::ready);
}

/// Where no red has to be moved, the child that the removal descends into
/// is ready as it stands.
pub proof fn lemma_prepare_none<A, V>(t: Tree<A, V>)
    requires
        t.ready(),
    ensures
        !t.black_over_right() && t.l().is_fork() && (t.l().red() || t.l().l().red())
            ==> t.l().ready() && !t.l().black_over_right(),
        !t.l().red() && t.r().is_fork() && (t.r().red() || t.r().l().red()) ==> t.r().ready()
            && !t.r().black_over_right(),
        !t.l().red() && !t.r().is_fork() ==> !t.l().is_fork() && t.red(),
        !t.l().is_fork() && !t.black_over_right() ==> !t.r().is_fork() && t.red(),
        t.red() ==> !t.l().red() && !t.r().red(),
{
    reveal(Tree::ready);
}

/// Before a removal below the left child: what has to be done, and that
/// the child is then ready.
pub proof fn lemma_left_ready<A, V>(t: Tree<A, V>)
    requires
        t.ready(),
        !t.black_over_right(),
        t.l().is_fork(),
    ensures
        t.is_fork(),
        !t.l().red() && !t.l().l().red() ==> {
            &&& t.r().is_fork()
            &&& t.left_prepared(t.moved_red_left())
            &&& t.moved_red_left().l().ready()
            &&& !t.moved_red_left().l().black_over_right()
        },
        t.l().red() || t.l().l().red() ==> {
            &&& t.left_prepared(t)
            &&& t.l().ready()
            &&& !t.l().black_over_right()
        },
{
    reveal(Tree::ready);
    reveal(Tree::left_prepared);
    if !t.l().red() && !t.l().l().red() {
        lemma_prepare_left(t);
    } else {
        lemma_prepare_none(t);
    }
}

/// After a removal below the left child: the tree can be repaired, and
/// repaired it may stand where the tree stood.
pub proof fn lemma_left_mend<A, V>(t: Tree<A, V>, cur: Tree<A, V>, child: Tree<A, V>)
    requires
        t.left_prepared(cur),
        cur.l().shrunk_to(child),
    ensures
        cur.with_left(child).mendable(),
        t.shrunk_to(cur.with_left(child).rebalanced()),
{
    reveal(Tree::left_prepared);
    reveal(Tree::shrunk_to);
    reveal(Tree::mendable);
    let joined = cur.with_left(child);
    lemma_rebalanced_colors(joined);
}

/// Before a removal below the right child: what has to be done, and that
/// the child is then ready.
pub proof fn lemma_right_ready<A, V>(t: Tree<A, V>)
    requires
        t.ready(),
    ensures
        t.is_fork(),
        t.l().red() ==> {
            &&& t.l().is_fork()
            &&& t.right_prepared(t.rotated_right())
            &&& t.rotated_right().r().ready()
            &&& !t.rotated_right().r().black_over_right()
        },
        !t.l().red() && t.r().is_fork() && !t.r().red() && !t.r().l().red() ==> {
            &&& t.l().is_fork()
            &&& t.right_prepared(t.moved_red_right())
            &&& t.moved_red_right().r().ready()
            &&& (t.moved_red_right().r().black_over_right() ==> t.moved_red_right().r().key()
                == t.key())
        },
        !t.l().red() && t.r().is_fork() && (t.r().red() || t.r().l().red()) ==> {
            &&& t.right_prepared(t)
            &&& t.r().ready()
            &&& !t.r().black_over_right()
        },
{
    reveal(Tree::ready);
    reveal(Tree::right_prepared);
    if t.l().red() {
        lemma_prepare_turn(t);
    } else if t.r().is_fork() && !t.r().red() && !t.r().l().red() {
        lemma_prepare_right(t);
    } else {
        lemma_prepare_none(t);
    }
}

/// After a removal below the right child, which may have put another entry
/// into the root: the tree can be repaired, and repaired it may stand where
/// the tree stood.
pub proof fn lemma_right_mend<A, V>(
    t: Tree<A, V>,
    cur: Tree<A, V>,
    child: Tree<A, V>,
    key: A,
    value: V,
)
    requires
        t.right_prepared(cur),
        cur.r().shrunk_to(child),
    ensures
        cur.with_entry(key, value).with_right(child).mendable(),
        t.shrunk_to(cur.with_entry(key, value).with_right(child).rebalanced()),
{
    reveal(Tree::right_prepared);
    reveal(Tree::shrunk_to);
    reveal(Tree::mendable);
    let joined = cur.with_entry(key, value).with_right(child);
    lemma_rebalanced_colors(joined);
}

/// A ready tree without a child on the side that a removal would descend
/// into is a single red node, and nothing may stand in its place.
pub proof fn lemma_lone<A, V>(t: Tree<A, V>)
    requires
        t.ready(),
        (!t.black_over_right() && !t.l().is_fork()) || (!t.l().red() && !t.r().is_fork()),
    ensures
        t.is_fork(),
        !t.l().is_fork(),
        !t.r().is_fork(),
        t.shrunk_to(Tree::Leaf),
{
    reveal(Tree::ready);
    reveal(Tree::shrunk_to);
}

/// A proper tree with a black root is ready once red is at hand: at its
/// red left child, or at its root painted red over black children. What may
/// stand in its place after a removal is, its root painted black, again
/// left-leaning and balanced.
pub proof fn lemma_root_ready<A, V>(t: Tree<A, V>)
    requires
        t.is_fork(),
        t.proper(),
        !t.red(),
    ensures
        !t.l().red() ==> t.with_red(true).ready() && !t.with_red(true).black_over_right(),
        t.l().red() ==> t.ready() && !t.black_over_right(),
{
    reveal(Tree::ready);
}

/// What may stand in a tree's place after a removal is, with its root
/// painted black, left-leaning and balanced.
pub proof fn lemma_shrunk_black<A, V>(t: Tree<A, V>, after: Tree<A, V>)
    requires
        t.shrunk_to(after),
    ensures
        after.with_red(false).leaning(),
        after.with_red(false).balanced(),
        !after.with_red(false).red(),
{
    reveal(Tree::shrunk_to);
}

/// After a right rotation the old root and its right side lie in the right
/// child, the root just before that side.
pub proof fn lemma_turned_entries<A, V>(t: Tree<A, V>)
    requires
        t.is_fork(),
        t.l().is_fork(),
    ensures
        t.rotated_right().r().entries().len() > t.r().entries().len(),
        ({
            let e = t.rotated_right().r().entries();
            e[e.len() - t.r().entries().len() - 1] == (t.key(), t.value())
        }),
        t.rotated_right().r().is_fork(),
{
}

} // verus!
