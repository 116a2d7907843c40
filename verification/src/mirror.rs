//! The shape of a tree as a mathematical value: what the node store holds,
//! read as a binary tree of slots.

use vstd::prelude::*;

verus! {

/// A binary tree whose forks carry the slot that stores them and a copy of
/// what that slot holds.
pub enum Tree<A, V> {
    Leaf,
    Fork {
        left: Box<Tree<A, V>>,
        slot: usize,
        key: A,
        value: V,
        red: bool,
        size: usize,
        right: Box<Tree<A, V>>,
    },
}

impl<A, V> Tree<A, V> {
    /// The fork with these children and this content.
    pub open spec fn fork(
        left: Tree<A, V>,
        slot: usize,
        key: A,
        value: V,
        red: bool,
        size: usize,
        right: Tree<A, V>,
    ) -> Tree<A, V> {
        Tree::Fork { left: Box::new(left), slot, key, value, red, size, right: Box::new(right) }
    }

    /// Whether the tree has a root.
    pub open spec fn is_fork(self) -> bool {
        self is Fork
    }

    /// The left child; a leaf has leaves for children.
    pub open spec fn l(self) -> Tree<A, V> {
        match self {
            Tree::Leaf => Tree::Leaf,
            Tree::Fork { left, .. } => *left,
        }
    }

    /// The right child.
    pub open spec fn r(self) -> Tree<A, V> {
        match self {
            Tree::Leaf => Tree::Leaf,
            Tree::Fork { right, .. } => *right,
        }
    }

    /// The slot of the root.
    pub open spec fn slot(self) -> usize {
        match self {
            Tree::Leaf => 0,
            Tree::Fork { slot, .. } => slot,
        }
    }

    /// The key at the root.
    pub open spec fn key(self) -> A {
        match self {
            Tree::Leaf => arbitrary(),
            Tree::Fork { key, .. } => key,
        }
    }

    /// The value at the root.
    pub open spec fn value(self) -> V {
        match self {
            Tree::Leaf => arbitrary(),
            Tree::Fork { value, .. } => value,
        }
    }

    /// The size recorded at the root; 0 for a leaf.
    pub open spec fn size(self) -> usize {
        match self {
            Tree::Leaf => 0,
            Tree::Fork { size, .. } => size,
        }
    }

    /// A leaf counts as black.
    pub open spec fn red(self) -> bool {
        match self {
            Tree::Leaf => false,
            Tree::Fork { red, .. } => red,
        }
    }

    /// The handle by which a parent refers to this tree.
    pub open spec fn link(self) -> Option<usize> {
        match self {
            Tree::Leaf => None,
            Tree::Fork { slot, .. } => Some(slot),
        }
    }

    /// The tree with its root painted.
    pub open spec fn with_red(self, red: bool) -> Tree<A, V> {
        match self {
            Tree::Leaf => Tree::Leaf,
            Tree::Fork { left, slot, key, value, size, right, .. } => Tree::Fork {
                left,
                slot,
                key,
                value,
                red,
                size,
                right,
            },
        }
    }

    /// The tree with another size recorded at its root.
    pub open spec fn with_size(self, size: usize) -> Tree<A, V> {
        match self {
            Tree::Leaf => Tree::Leaf,
            Tree::Fork { left, slot, key, value, red, right, .. } => Tree::Fork {
                left,
                slot,
                key,
                value,
                red,
                size,
                right,
            },
        }
    }

    /// The tree with another left child.
    pub open spec fn with_left(self, left: Tree<A, V>) -> Tree<A, V> {
        match self {
            Tree::Leaf => Tree::Leaf,
            Tree::Fork { slot, key, value, red, size, right, .. } => Tree::Fork {
                left: Box::new(left),
                slot,
                key,
                value,
                red,
                size,
                right,
            },
        }
    }

    /// The tree with another right child.
    pub open spec fn with_right(self, right: Tree<A, V>) -> Tree<A, V> {
        match self {
            Tree::Leaf => Tree::Leaf,
            Tree::Fork { left, slot, key, value, red, size, .. } => Tree::Fork {
                left,
                slot,
                key,
                value,
                red,
                size,
                right: Box::new(right),
            },
        }
    }

    /// The tree with another entry at its root.
    pub open spec fn with_entry(self, key: A, value: V) -> Tree<A, V> {
        match self {
            Tree::Leaf => Tree::Leaf,
            Tree::Fork { left, slot, red, size, right, .. } => Tree::Fork {
                left,
                slot,
                key,
                value,
                red,
                size,
                right,
            },
        }
    }

    /// The slots of the tree.
    pub open spec fn ids(self) -> Set<usize>
        decreases self,
    {
        match self {
            Tree::Leaf => Set::empty(),
            Tree::Fork { left, slot, right, .. } => left.ids().union(right.ids()).insert(slot),
        }
    }

    /// The number of forks.
    pub open spec fn count(self) -> nat
        decreases self,
    {
        match self {
            Tree::Leaf => 0,
            Tree::Fork { left, right, .. } => 1 + left.count() + right.count(),
        }
    }

    /// The entries, left to right.
    pub open spec fn entries(self) -> Seq<(A, V)>
        decreases self,
    {
        match self {
            Tree::Leaf => Seq::empty(),
            Tree::Fork { left, key, value, right, .. } => left.entries().push((key, value))
                + right.entries(),
        }
    }

    /// The slots, left to right.
    pub open spec fn order(self) -> Seq<usize>
        decreases self,
    {
        match self {
            Tree::Leaf => Seq::empty(),
            Tree::Fork { left, slot, right, .. } => left.order().push(slot) + right.order(),
        }
    }

    /// Every fork records the number of forks below and including it.
    pub open spec fn sized(self) -> bool
        decreases self,
    {
        match self {
            Tree::Leaf => true,
            Tree::Fork { left, size, right, .. } => {
                &&& size == 1 + left.count() + right.count()
                &&& left.sized()
                &&& right.sized()
            },
        }
    }

    /// The number of black forks down the left spine.
    pub open spec fn black_height(self) -> nat
        decreases self,
    {
        match self {
            Tree::Leaf => 0,
            Tree::Fork { left, red, .. } => left.black_height() + if red {
                0nat
            } else {
                1nat
            },
        }
    }

    /// Every path from the root to a leaf passes the same number of black
    /// forks.
    pub open spec fn balanced(self) -> bool
        decreases self,
    {
        match self {
            Tree::Leaf => true,
            Tree::Fork { left, right, .. } => {
                &&& left.black_height() == right.black_height()
                &&& left.balanced()
                &&& right.balanced()
            },
        }
    }

    /// No red link leans right, and below the root no red fork has a red
    /// left child.
    pub open spec fn leaning(self) -> bool
        decreases self,
    {
        match self {
            Tree::Leaf => true,
            Tree::Fork { left, right, .. } => {
                &&& !right.red()
                &&& !(left.red() && left.l().red())
                &&& left.leaning()
                &&& right.leaning()
            },
        }
    }

    /// A left-leaning red-black tree whose root may be red but then has no
    /// red child.
    pub open spec fn proper(self) -> bool {
        &&& self.leaning()
        &&& self.balanced()
        &&& !(self.red() && self.l().red())
    }

    /// The tree after its right child has been lifted over its root.
    pub open spec fn rotated_left(self) -> Tree<A, V> {
        let x = self.r();
        Tree::fork(
            Tree::fork(
                self.l(),
                self.slot(),
                self.key(),
                self.value(),
                true,
                (1 + self.l().size() + x.l().size()) as usize,
                x.l(),
            ),
            x.slot(),
            x.key(),
            x.value(),
            self.red(),
            self.size(),
            x.r(),
        )
    }

    /// The tree after its left child has been lifted over its root.
    pub open spec fn rotated_right(self) -> Tree<A, V> {
        let x = self.l();
        Tree::fork(
            x.l(),
            x.slot(),
            x.key(),
            x.value(),
            self.red(),
            self.size(),
            Tree::fork(
                x.r(),
                self.slot(),
                self.key(),
                self.value(),
                true,
                (1 + x.r().size() + self.r().size()) as usize,
                self.r(),
            ),
        )
    }

    /// The tree with the colours of its root and of both children inverted.
    pub open spec fn flipped(self) -> Tree<A, V> {
        self.with_left(self.l().with_red(!self.l().red())).with_right(
            self.r().with_red(!self.r().red()),
        ).with_red(!self.red())
    }

    /// The tree after the three repairs that follow an insertion below it:
    /// a red right link is turned left, two red links in a row on the left
    /// are turned right, and two red children are flipped.
    pub open spec fn settled(self) -> Tree<A, V> {
        let a = if self.r().red() && !self.l().red() {
            self.rotated_left()
        } else {
            self
        };
        let b = if a.l().red() && a.l().l().red() {
            a.rotated_right()
        } else {
            a
        };
        if b.l().red() && b.r().red() {
            b.flipped()
        } else {
            b
        }
    }
}

/// A tree has one entry and one slot for each fork.
pub proof fn lemma_count_entries<A, V>(t: Tree<A, V>)
    ensures
        t.entries().len() == t.count(),
        t.order().len() == t.count(),
    decreases t,
{
    match t {
        Tree::Leaf => {},
        Tree::Fork { left, right, .. } => {
            lemma_count_entries(*left);
            lemma_count_entries(*right);
        },
    }
}

/// A finite set of slots below `n` has at most `n` members.
pub proof fn lemma_slots_bounded(s: Set<usize>, n: nat)
    requires
        s.finite(),
        forall|x: usize| s.contains(x) ==> x < n,
    ensures
        s.len() <= n,
    decreases n,
{
    if n == 0 {
        assert(s =~= Set::empty());
    } else {
        let top = (n - 1) as usize;
        if n - 1 <= usize::MAX {
            let rest = s.remove(top);
            lemma_slots_bounded(rest, (n - 1) as nat);
        } else {
            lemma_slots_bounded(s, (n - 1) as nat);
        }
    }
}

/// In a tree with exact sizes the root records the number of forks, and
/// the children have exact sizes.
pub proof fn lemma_sized_count<A, V>(t: Tree<A, V>)
    requires
        t.sized(),
    ensures
        t.size() == t.count(),
        t.l().sized(),
        t.r().sized(),
{
}

/// A left rotation keeps the entries, their order and the slots.
pub proof fn lemma_rotated_left<A, V>(t: Tree<A, V>)
    requires
        t.is_fork(),
        t.r().is_fork(),
    ensures
        t.rotated_left().entries() == t.entries(),
        t.rotated_left().order() == t.order(),
        t.rotated_left().ids() == t.ids(),
        t.rotated_left().count() == t.count(),
        t.l().sized() && t.r().sized() && t.count() <= usize::MAX ==> t.rotated_left().l().sized()
            && t.rotated_left().r().sized(),
        t.sized() ==> t.rotated_left().sized(),
        t.rotated_left().red() == t.red(),
        t.rotated_left().slot() == t.r().slot(),
{
    reveal_with_fuel(Tree::entries, 3);
    reveal_with_fuel(Tree::order, 3);
    reveal_with_fuel(Tree::ids, 3);
    reveal_with_fuel(Tree::count, 3);
    reveal_with_fuel(Tree::sized, 3);
    let x = t.r();
    if t.l().sized() && t.r().sized() {
        lemma_sized_count(t.l());
        lemma_sized_count(x.l());
    }
}

/// A right rotation keeps the entries, their order and the slots.
pub proof fn lemma_rotated_right<A, V>(t: Tree<A, V>)
    requires
        t.is_fork(),
        t.l().is_fork(),
    ensures
        t.rotated_right().entries() == t.entries(),
        t.rotated_right().order() == t.order(),
        t.rotated_right().ids() == t.ids(),
        t.rotated_right().count() == t.count(),
        t.l().sized() && t.r().sized() && t.count() <= usize::MAX ==> t.rotated_right().l().sized()
            && t.rotated_right().r().sized(),
        t.sized() ==> t.rotated_right().sized(),
        t.rotated_right().red() == t.red(),
        t.rotated_right().slot() == t.l().slot(),
{
    reveal_with_fuel(Tree::entries, 3);
    reveal_with_fuel(Tree::order, 3);
    reveal_with_fuel(Tree::ids, 3);
    reveal_with_fuel(Tree::count, 3);
    reveal_with_fuel(Tree::sized, 3);
    let x = t.l();
    if t.l().sized() && t.r().sized() {
        lemma_sized_count(t.r());
        lemma_sized_count(x.r());
    }
}

/// A colour flip keeps everything but the three colours.
pub proof fn lemma_flipped<A, V>(t: Tree<A, V>)
    requires
        t.is_fork(),
        t.l().is_fork(),
        t.r().is_fork(),
    ensures
        t.flipped().entries() == t.entries(),
        t.flipped().order() == t.order(),
        t.flipped().ids() == t.ids(),
        t.flipped().count() == t.count(),
        t.l().sized() && t.r().sized() ==> t.flipped().l().sized() && t.flipped().r().sized(),
        t.sized() ==> t.flipped().sized(),
        t.flipped().slot() == t.slot(),
        t.flipped().size() == t.size(),
{
    reveal_with_fuel(Tree::entries, 3);
    reveal_with_fuel(Tree::order, 3);
    reveal_with_fuel(Tree::ids, 3);
    reveal_with_fuel(Tree::count, 3);
    reveal_with_fuel(Tree::sized, 3);
}

/// The repairs after an insertion keep the entries and the slots.
pub proof fn lemma_settled_same<A, V>(t: Tree<A, V>)
    requires
        t.is_fork(),
    ensures
        t.settled().is_fork(),
        t.settled().entries() == t.entries(),
        t.settled().order() == t.order(),
        t.settled().ids() == t.ids(),
        t.settled().count() == t.count(),
        t.sized() ==> t.settled().sized(),
{
    let a = if t.r().red() && !t.l().red() {
        t.rotated_left()
    } else {
        t
    };
    if t.r().red() && !t.l().red() {
        lemma_rotated_left(t);
    }
    let b = if a.l().red() && a.l().l().red() {
        a.rotated_right()
    } else {
        a
    };
    if a.l().red() && a.l().l().red() {
        lemma_rotated_right(a);
    }
    if b.l().red() && b.r().red() {
        lemma_flipped(b);
    }
}

/// The repairs after an insertion restore the colour rules: where a child
/// has come back red, or red with a red left child, the tree is again
/// left-leaning and balanced, of the same black height, and proper unless
/// its root was red.
pub proof fn lemma_settled_colors<A, V>(t: Tree<A, V>)
    requires
        t.is_fork(),
        t.l().leaning(),
        t.l().balanced(),
        t.r().leaning(),
        t.r().balanced(),
        t.l().black_height() == t.r().black_height(),
        !(t.r().red() && t.r().l().red()),
        t.l().red() && t.l().l().red() ==> !t.red() && !t.r().red(),
        t.red() ==> !(t.l().red() && t.r().red()),
    ensures
        t.settled().leaning(),
        t.settled().balanced(),
        t.settled().black_height() == t.black_height(),
        t.red() ==> t.settled().red(),
        !t.red() ==> t.settled().proper(),
{
    reveal_with_fuel(Tree::leaning, 3);
    reveal_with_fuel(Tree::balanced, 3);
    reveal_with_fuel(Tree::black_height, 3);
}

/// Repainting the root keeps the rules that do not speak of the root's
/// colour.
pub proof fn lemma_with_red<A, V>(t: Tree<A, V>, red: bool)
    ensures
        t.with_red(red).entries() == t.entries(),
        t.with_red(red).order() == t.order(),
        t.with_red(red).ids() == t.ids(),
        t.with_red(red).count() == t.count(),
        t.with_red(red).sized() == t.sized(),
        t.with_red(red).leaning() == t.leaning(),
        t.with_red(red).balanced() == t.balanced(),
        t.with_red(red).l() == t.l(),
        t.with_red(red).r() == t.r(),
        t.with_red(red).link() == t.link(),
{
}

} // verus!
