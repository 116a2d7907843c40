//! Total orders on key types.
//!
//! Keys are compared through their views, so two keys with the same view are
//! the same key to every container in this crate.

use std::cmp::Ordering;
use vstd::prelude::*;

verus! {

/// The outcome of comparing two keys.
#[derive(Clone, Copy, Debug, PartialEq, Eq)]
pub enum Comparison {
    Less,
    Equal,
    Greater,
}

/// A key type whose views are strictly and totally ordered by `precedes`.
pub trait TotalOrder: View + Sized {
    /// The strict order on views.
    spec fn precedes(a: Self::V, b: Self::V) -> bool;

    proof fn precedes_irreflexive(a: Self::V)
        ensures
            !Self::precedes(a, a),
    ;

    proof fn precedes_transitive(a: Self::V, b: Self::V, c: Self::V)
        requires
            Self::precedes(a, b),
            Self::precedes(b, c),
        ensures
            Self::precedes(a, c),
    ;

    proof fn precedes_connected(a: Self::V, b: Self::V)
        ensures
            a == b || Self::precedes(a, b) || Self::precedes(b, a),
    ;

    /// Three-way comparison, deciding `precedes` on the views.
    fn compare(&self, other: &Self) -> (c: Comparison)
        ensures
            c == Comparison::Less <==> Self::precedes(self@, other@),
            c == Comparison::Equal <==> self@ == other@,
            c == Comparison::Greater <==> Self::precedes(other@, self@),
    ;
}

/// No two views precede each other.
pub proof fn precedes_asymmetric<K: TotalOrder>(a: K::V, b: K::V)
    requires
        K::precedes(a, b),
    ensures
        !K::precedes(b, a),
        a != b,
{
    K::precedes_irreflexive(a);
    if K::precedes(b, a) {
        K::precedes_transitive(a, b, a);
    }
}

impl TotalOrder for u32 {
    open spec fn precedes(a: u32, b: u32) -> bool {
        a < b
    }

    proof fn precedes_irreflexive(a: u32) {
    }

    proof fn precedes_transitive(a: u32, b: u32, c: u32) {
    }

    proof fn precedes_connected(a: u32, b: u32) {
    }

    fn compare(&self, other: &u32) -> (c: Comparison) {
        if *self < *other {
            Comparison::Less
        } else if *self == *other {
            Comparison::Equal
        } else {
            Comparison::Greater
        }
    }
}

impl TotalOrder for u64 {
    open spec fn precedes(a: u64, b: u64) -> bool {
        a < b
    }

    proof fn precedes_irreflexive(a: u64) {
    }

    proof fn precedes_transitive(a: u64, b: u64, c: u64) {
    }

    proof fn precedes_connected(a: u64, b: u64) {
    }

    fn compare(&self, other: &u64) -> (c: Comparison) {
        if *self < *other {
            Comparison::Less
        } else if *self == *other {
            Comparison::Equal
        } else {
            Comparison::Greater
        }
    }
}

impl TotalOrder for usize {
    open spec fn precedes(a: usize, b: usize) -> bool {
        a < b
    }

    proof fn precedes_irreflexive(a: usize) {
    }

    proof fn precedes_transitive(a: usize, b: usize, c: usize) {
    }

    proof fn precedes_connected(a: usize, b: usize) {
    }

    fn compare(&self, other: &usize) -> (c: Comparison) {
        if *self < *other {
            Comparison::Less
        } else if *self == *other {
            Comparison::Equal
        } else {
            Comparison::Greater
        }
    }
}

impl TotalOrder for i32 {
    open spec fn precedes(a: i32, b: i32) -> bool {
        a < b
    }

    proof fn precedes_irreflexive(a: i32) {
    }

    proof fn precedes_transitive(a: i32, b: i32, c: i32) {
    }

    proof fn precedes_connected(a: i32, b: i32) {
    }

    fn compare(&self, other: &i32) -> (c: Comparison) {
        if *self < *other {
            Comparison::Less
        } else if *self == *other {
            Comparison::Equal
        } else {
            Comparison::Greater
        }
    }
}

impl TotalOrder for i64 {
    open spec fn precedes(a: i64, b: i64) -> bool {
        a < b
    }

    proof fn precedes_irreflexive(a: i64) {
    }

    proof fn precedes_transitive(a: i64, b: i64, c: i64) {
    }

    proof fn precedes_connected(a: i64, b: i64) {
    }

    fn compare(&self, other: &i64) -> (c: Comparison) {
        if *self < *other {
            Comparison::Less
        } else if *self == *other {
            Comparison::Equal
        } else {
            Comparison::Greater
        }
    }
}

/// Lexicographic order on character sequences, characters taken by code point.
pub open spec fn text_precedes(a: Seq<char>, b: Seq<char>) -> bool
    decreases a.len(),
{
    if b.len() == 0 {
        false
    } else if a.len() == 0 {
        true
    } else if a[0] == b[0] {
        text_precedes(a.drop_first(), b.drop_first())
    } else {
        a[0] < b[0]
    }
}

/// No text precedes itself.
pub proof fn text_precedes_irreflexive(a: Seq<char>)
    ensures
        !text_precedes(a, a),
    decreases a.len(),
{
    if a.len() > 0 {
        text_precedes_irreflexive(a.drop_first());
    }
}

/// A text that precedes another precedes what that one precedes.
pub proof fn text_precedes_transitive(a: Seq<char>, b: Seq<char>, c: Seq<char>)
    requires
        text_precedes(a, b),
        text_precedes(b, c),
    ensures
        text_precedes(a, c),
    decreases a.len(),
{
    if a.len() > 0 && a[0] == b[0] && b[0] == c[0] {
        text_precedes_transitive(a.drop_first(), b.drop_first(), c.drop_first());
    }
}

/// Of two different texts one precedes the other.
pub proof fn text_precedes_connected(a: Seq<char>, b: Seq<char>)
    ensures
        a == b || text_precedes(a, b) || text_precedes(b, a),
    decreases a.len(),
{
    if a.len() == 0 || b.len() == 0 {
    } else if a[0] == b[0] {
        text_precedes_connected(a.drop_first(), b.drop_first());
        if a.drop_first() == b.drop_first() {
            assert(b =~= seq![b[0]] + b.drop_first());
        }
    }
}

/// `str::cmp`, which orders strings lexicographically by code point; the
/// contract states that order over the two character sequences.
#[verifier::external_body]
fn compare_text(a: &str, b: &str) -> (c: Comparison)
    ensures
        c == Comparison::Less <==> text_precedes(a@, b@),
        c == Comparison::Equal <==> a@ == b@,
        c == Comparison::Greater <==> text_precedes(b@, a@),
{
    match a.cmp(b) {
        Ordering::Less => Comparison::Less,
        Ordering::Equal => Comparison::Equal,
        Ordering::Greater => Comparison::Greater,
    }
}

impl TotalOrder for String {
    open spec fn precedes(a: Seq<char>, b: Seq<char>) -> bool {
        text_precedes(a, b)
    }

    proof fn precedes_irreflexive(a: Seq<char>) {
        text_precedes_irreflexive(a);
    }

    proof fn precedes_transitive(a: Seq<char>, b: Seq<char>, c: Seq<char>) {
        text_precedes_transitive(a, b, c);
    }

    proof fn precedes_connected(a: Seq<char>, b: Seq<char>) {
        text_precedes_connected(a, b);
    }

    fn compare(&self, other: &String) -> (c: Comparison) {
        compare_text(self.as_str(), other.as_str())
    }
}

impl<'a> TotalOrder for &'a str {
    open spec fn precedes(a: Seq<char>, b: Seq<char>) -> bool {
        text_precedes(a, b)
    }

    proof fn precedes_irreflexive(a: Seq<char>) {
        text_precedes_irreflexive(a);
    }

    proof fn precedes_transitive(a: Seq<char>, b: Seq<char>, c: Seq<char>) {
        text_precedes_transitive(a, b, c);
    }

    proof fn precedes_connected(a: Seq<char>, b: Seq<char>) {
        text_precedes_connected(a, b);
    }

    fn compare(&self, other: &&'a str) -> (c: Comparison) {
        compare_text(*self, *other)
    }
}

} // verus!
