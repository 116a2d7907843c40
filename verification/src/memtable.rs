//! The memtable: the latest write to each key, a value or a tombstone, held
//! in one ordered map.

use crate::entries::{ascending, lemma_as_map_len, lemma_ascending_position};
use crate::rbtree::RBTree;
use vstd::prelude::*;

verus! {

/// What a query finds under a key.
#[derive(Clone, Copy, Debug, PartialEq, Eq)]
pub enum Kind {
    /// The key has a live value.
    Value,
    /// The key was deleted.
    Tombstone,
    /// The key was never written.
    Absent,
}

/// What the memtable stores under a key: the value last written, or the
/// mark that the key was deleted.
#[derive(Clone, Debug, PartialEq, Eq, PartialOrd, Ord)]
pub enum VT {
    Value(String),
    Tombstone,
}

/// What a `VT` stands for.
pub enum Written {
    Value(Seq<char>),
    Tombstone,
}

impl View for VT {
    type V = Written;

    open spec fn view(&self) -> Written {
        match self {
            VT::Value(v) => Written::Value(v@),
            VT::Tombstone => Written::Tombstone,
        }
    }
}

/// How a stored entry is shown to a caller: its tag, and its value or the
/// empty string.
pub open spec fn shown(w: Written) -> (Kind, Seq<char>) {
    match w {
        Written::Value(v) => (Kind::Value, v),
        Written::Tombstone => (Kind::Tombstone, Seq::empty()),
    }
}

/// How the lack of an entry is shown to a caller.
pub open spec fn absent() -> (Kind, Seq<char>) {
    (Kind::Absent, Seq::empty())
}

/// What a query for `key` answers on a table that holds `table`.
pub open spec fn answer(table: Map<Seq<char>, Written>, key: Seq<char>) -> (Kind, Seq<char>) {
    if table.contains_key(key) {
        shown(table[key])
    } else {
        absent()
    }
}

/// The answer to a query: `Value` with the value, or `Tombstone` or
/// `Absent` with the empty string.
#[derive(Clone, Debug, PartialEq, Eq)]
pub struct ValTomb {
    pub kind: Kind,
    pub value: String,
}

impl View for ValTomb {
    type V = (Kind, Seq<char>);

    open spec fn view(&self) -> (Kind, Seq<char>) {
        (self.kind, self.value@)
    }
}

impl ValTomb {
    /// How `vt` is shown to a caller.
    pub fn from(vt: &VT) -> (r: ValTomb)
        ensures
            r@ == shown(vt@),
    {
        match vt {
            VT::Tombstone => ValTomb { kind: Kind::Tombstone, value: String::new() },
            VT::Value(v) => ValTomb { kind: Kind::Value, value: v.clone() },
        }
    }
}

/// A key with what is stored under it, as shown to a caller.
#[derive(Clone, Debug, PartialEq, Eq)]
pub struct KV(pub String, pub ValTomb);

impl View for KV {
    type V = (Seq<char>, (Kind, Seq<char>));

    open spec fn view(&self) -> (Seq<char>, (Kind, Seq<char>)) {
        (self.0@, self.1@)
    }
}

/// An ordered table from keys to the latest write to each.
pub struct Memtable {
    pub(crate) tree: RBTree<String, VT>,
}

impl View for Memtable {
    type V = Map<Seq<char>, Written>;

    /// The latest write to each key that was written.
    closed spec fn view(&self) -> Map<Seq<char>, Written> {
        self.tree@.map_values(|v: VT| v@)
    }
}

impl Memtable {
    /// What holds of the table between any two operations.
    pub open(crate) spec fn wf(&self) -> bool {
        self.tree.wf()
    }

    /// The entries in ascending key order.
    pub closed spec fn entries(&self) -> Seq<(Seq<char>, Written)> {
        self.tree.entries().map_values(|e: (Seq<char>, VT)| (e.0, e.1@))
    }

    /// A table in which nothing was written.
    pub fn new() -> (table: Memtable)
        ensures
            table.wf(),
            table@ == Map::<Seq<char>, Written>::empty(),
            table.entries() == Seq::<(Seq<char>, Written)>::empty(),
    {
        let table = Memtable { tree: RBTree::new() };
        proof {
        }
        table
    }

    /// Records `value` as the latest write to `key`.
    pub fn update(&mut self, key: &str, value: &str)
        requires
            old(self).wf(),
        ensures
            final(self).wf(),
            final(self)@ == old(self)@.insert(key@, Written::Value(value@)),
    {
        let stored = VT::Value(value.to_owned());
        self.tree.insert(key.to_owned(), stored);
        proof {
        }
    }

    /// Records that `key` was deleted, whether or not it was ever written.
    pub fn delete(&mut self, key: &str)
        requires
            old(self).wf(),
        ensures
            final(self).wf(),
            final(self)@ == old(self)@.insert(key@, Written::Tombstone),
    {
        self.tree.insert(key.to_owned(), VT::Tombstone);
        proof {
        }
    }

    /// The latest write to `key`: its value, the mark that it was deleted,
    /// or the mark that it was never written.
    pub fn query(&self, key: &str) -> (r: ValTomb)
        requires
            self.wf(),
        ensures
            r@ == answer(self@, key@),
    {
        let owned = key.to_owned();
        match self.tree.get(&owned) {
            Some(vt) => ValTomb::from(vt),
            None => ValTomb { kind: Kind::Absent, value: String::new() },
        }
    }

    /// Whether nothing was written.
    pub fn is_empty(&self) -> (b: bool)
        requires
            self.wf(),
        ensures
            b == (self@ == Map::<Seq<char>, Written>::empty()),
            b == (self.entries().len() == 0),
    {
        let b = self.tree.is_empty();
        proof {
            lemma_as_map_len::<String, VT>(self.tree.entries());
            if b {
                assert(self@ =~= Map::<Seq<char>, Written>::empty());
            } else {
                if self@ == Map::<Seq<char>, Written>::empty() {
                    assert(self@.dom() =~= self.tree@.dom());
                }
            }
        }
        b
    }

    /// All entries in ascending key order, as shown to a caller.
    pub fn snapshot_entries(&self) -> (r: Vec<KV>)
        requires
            self.wf(),
        ensures
            r@.len() == self.entries().len(),
            forall|i: int|
                0 <= i < r@.len() ==> (#[trigger] r@[i])@ == (
                    self.entries()[i].0,
                    shown(self.entries()[i].1),
                ),
    {
        let mut out: Vec<KV> = Vec::new();
        let mut walk = self.tree.into_iter();
        loop
            invariant
                self.wf(),
                walk.wf(),
                walk.tree() == &self.tree,
                out@.len() == walk.position(),
                0 <= walk.position() <= self.tree.entries().len(),
                forall|i: int|
                    0 <= i < out@.len() ==> (#[trigger] out@[i])@ == (
                        self.entries()[i].0,
                        shown(self.entries()[i].1),
                    ),
            ensures
                out@.len() == self.tree.entries().len(),
                forall|i: int|
                    0 <= i < out@.len() ==> (#[trigger] out@[i])@ == (
                        self.entries()[i].0,
                        shown(self.entries()[i].1),
                    ),
            decreases self.tree.entries().len() - walk.position(),
        {
            match walk.next() {
                Some((key, vt)) => {
                    out.push(KV(key.clone(), ValTomb::from(vt)));
                },
                None => {
                    break ;
                },
            }
        }
        out
    }
}

/// The entries of a memtable ascend by key, and are what its view maps
/// each key to.
pub proof fn lemma_entries_view(table: &Memtable)
    requires
        table.wf(),
    ensures
        ascending::<String, Written>(table.entries()),
        table@.dom().finite(),
        table.entries().len() == table@.len(),
        forall|i: int|
            0 <= i < table.entries().len() ==> table@.contains_key((#[trigger] table.entries()[i]).0)
                && table@[table.entries()[i].0] == table.entries()[i].1,
        forall|k: Seq<char>|
            table@.contains_key(k) ==> exists|i: int|
                0 <= i < table.entries().len() && (#[trigger] table.entries()[i]).0 == k,
{
    let e = table.tree.entries();
    let m = table.entries();
    lemma_as_map_len::<String, VT>(e);
    assert(table@.dom() =~= table.tree@.dom());
    assert forall|i: int, j: int| #![trigger m[i], m[j]] 0 <= i < j < m.len() implies <String as crate::order::TotalOrder>::precedes(
        m[i].0,
        m[j].0,
    ) by {}
    assert forall|i: int| 0 <= i < m.len() implies table@.contains_key((#[trigger] m[i]).0)
        && table@[m[i].0] == m[i].1 by {
        lemma_ascending_position::<String, VT>(e, i);
    }
    assert forall|k: Seq<char>| table@.contains_key(k) implies exists|i: int|
        0 <= i < m.len() && (#[trigger] m[i]).0 == k by {
        let i = crate::entries::position(e, k);
        assert(m[i].0 == k);
    }
}

/// A query after an update of the key answers with the value written; one
/// after a delete answers with a tombstone, whether or not the key was
/// ever written; and one for a key that was never written answers that it
/// is absent.
pub proof fn lemma_answers(table: Map<Seq<char>, Written>, key: Seq<char>, value: Seq<char>)
    ensures
        answer(table.insert(key, Written::Value(value)), key) == (Kind::Value, value),
        answer(table.insert(key, Written::Tombstone), key) == (
            Kind::Tombstone,
            Seq::<char>::empty(),
        ),
        !table.contains_key(key) ==> answer(table, key) == (Kind::Absent, Seq::<char>::empty()),
        answer(Map::<Seq<char>, Written>::empty(), key) == (Kind::Absent, Seq::<char>::empty()),
{
}

/// A write to one key leaves the answers for the other keys as they were.
pub proof fn lemma_answers_elsewhere(
    table: Map<Seq<char>, Written>,
    key: Seq<char>,
    written: Written,
    other: Seq<char>,
)
    requires
        other != key,
    ensures
        answer(table.insert(key, written), other) == answer(table, other),
{
}

} // verus!
