//! Sequences of `(key, value)` entries in ascending key order: the model that
//! the ordered map's contracts are stated over.

use crate::order::TotalOrder;
use vstd::prelude::*;

verus! {

/// The keys of `e` are strictly ascending.
pub open spec fn ascending<K: TotalOrder, V>(e: Seq<(K::V, V)>) -> bool {
    forall|i: int, j: int|
        #![trigger e[i], e[j]]
        0 <= i < j < e.len() ==> K::precedes(e[i].0, e[j].0)
}

/// Some entry of `e` has key `k`.
pub open spec fn has_key<A, V>(e: Seq<(A, V)>, k: A) -> bool {
    exists|i: int| 0 <= i < e.len() && (#[trigger] e[i]).0 == k
}

/// The position of an entry with key `k`, if there is one.
pub open spec fn position<A, V>(e: Seq<(A, V)>, k: A) -> int {
    choose|i: int| 0 <= i < e.len() && (#[trigger] e[i]).0 == k
}

/// The map from each key of `e` to the value it is paired with.
pub open spec fn as_map<A, V>(e: Seq<(A, V)>) -> Map<A, V> {
    Map::new(|k: A| has_key(e, k), |k: A| e[position(e, k)].1)
}

/// Every key of `e` precedes `k`.
pub open spec fn all_before<K: TotalOrder, V>(e: Seq<(K::V, V)>, k: K::V) -> bool {
    forall|i: int| 0 <= i < e.len() ==> K::precedes((#[trigger] e[i]).0, k)
}

/// `k` precedes every key of `e`.
pub open spec fn all_after<K: TotalOrder, V>(e: Seq<(K::V, V)>, k: K::V) -> bool {
    forall|i: int| 0 <= i < e.len() ==> K::precedes(k, (#[trigger] e[i]).0)
}

/// `after` is `before` with `(k, v)` put at position `i`: in place of the
/// entry with key `k` if that is what stands at `i`, else between the keys
/// that precede `k` and those that `k` precedes.
pub open spec fn spliced<K: TotalOrder, V>(
    before: Seq<(K::V, V)>,
    after: Seq<(K::V, V)>,
    i: int,
    k: K::V,
    v: V,
) -> bool {
    &&& 0 <= i <= before.len()
    &&& all_before::<K, V>(before.take(i), k)
    &&& if i < before.len() && before[i].0 == k {
        after == before.update(i, (k, v))
    } else {
        &&& all_after::<K, V>(before.skip(i), k)
        &&& after == before.take(i).push((k, v)) + before.skip(i)
    }
}

/// In an ascending sequence a key stands at one position only.
pub proof fn lemma_ascending_position<K: TotalOrder, V>(e: Seq<(K::V, V)>, i: int)
    requires
        ascending::<K, V>(e),
        0 <= i < e.len(),
    ensures
        has_key(e, e[i].0),
        position(e, e[i].0) == i,
        as_map(e).contains_key(e[i].0),
        as_map(e)[e[i].0] == e[i].1,
{
    K::precedes_irreflexive(e[i].0);
}

/// A contiguous part of an ascending sequence is ascending.
pub proof fn lemma_ascending_subrange<K: TotalOrder, V>(e: Seq<(K::V, V)>, lo: int, hi: int)
    requires
        ascending::<K, V>(e),
        0 <= lo <= hi <= e.len(),
    ensures
        ascending::<K, V>(e.subrange(lo, hi)),
{
    let s = e.subrange(lo, hi);
    assert forall|i: int, j: int| #![trigger s[i], s[j]] 0 <= i < j < s.len() implies K::precedes(
        s[i].0,
        s[j].0,
    ) by {}
}

/// Putting an entry into an ascending sequence keeps it ascending and
/// changes the map it stands for at that key alone.
pub proof fn lemma_spliced<K: TotalOrder, V>(
    before: Seq<(K::V, V)>,
    after: Seq<(K::V, V)>,
    i: int,
    k: K::V,
    v: V,
)
    requires
        ascending::<K, V>(before),
        spliced::<K, V>(before, after, i, k, v),
    ensures
        ascending::<K, V>(after),
        as_map(after) == as_map(before).insert(k, v),
        has_key(before, k) <==> (i < before.len() && before[i].0 == k),
        after.len() == before.len() + (if has_key(before, k) { 0int } else { 1int }),
        0 <= i < after.len(),
        after[i] == (k, v),
{
    let replaced = i < before.len() && before[i].0 == k;
    assert forall|a: int| 0 <= a < i implies K::precedes(#[trigger] before[a].0, k) by {
        assert(before.take(i)[a] == before[a]);
    }
    if !replaced {
        assert forall|a: int| i <= a < before.len() implies K::precedes(
            k,
            #[trigger] before[a].0,
        ) by {
            assert(before.skip(i)[a - i] == before[a]);
        }
    } else {
        assert forall|a: int| i < a < before.len() implies K::precedes(
            k,
            #[trigger] before[a].0,
        ) by {}
    }
    // Where an entry of `after` comes from.
    assert forall|a: int| 0 <= a < after.len() && a != i implies #[trigger] after[a] == before[if a
        < i || replaced {
        a
    } else {
        a - 1
    }] by {}
    assert forall|a: int, b: int| #![trigger after[a], after[b]] 0 <= a < b < after.len() implies K::precedes(
        after[a].0,
        after[b].0,
    ) by {}
    K::precedes_irreflexive(k);
    let m1 = as_map(after);
    let m2 = as_map(before).insert(k, v);
    assert forall|x: K::V| m1.contains_key(x) <==> m2.contains_key(x) by {
        if m2.contains_key(x) && x != k {
            let o = position(before, x);
            let a = if o < i || replaced { o } else { o + 1 };
            assert(after[a] == before[o]);
        }
        if x == k {
            assert(after[i].0 == k);
        }
    }
    assert forall|x: K::V| m1.contains_key(x) implies m1[x] == m2[x] by {
        let a = position(after, x);
        lemma_ascending_position::<K, V>(after, a);
        if a != i {
            let oa = if a < i || replaced { a } else { a - 1 };
            lemma_ascending_position::<K, V>(before, oa);
            if x == k {
                lemma_ascending_position::<K, V>(after, i);
            }
        }
    }
}

/// Taking the entry at `i` out of an ascending sequence keeps it ascending
/// and removes that key from the map it stands for.
pub proof fn lemma_removed<K: TotalOrder, V>(before: Seq<(K::V, V)>, i: int)
    requires
        ascending::<K, V>(before),
        0 <= i < before.len(),
    ensures
        ascending::<K, V>(before.remove(i)),
        as_map(before.remove(i)) == as_map(before).remove(before[i].0),
        !has_key(before.remove(i), before[i].0),
{
    let after = before.remove(i);
    let k = before[i].0;
    assert forall|a: int| 0 <= a < after.len() implies #[trigger] after[a] == before[if a < i {
        a
    } else {
        a + 1
    }] by {}
    assert forall|a: int, b: int| #![trigger after[a], after[b]] 0 <= a < b < after.len() implies K::precedes(
        after[a].0,
        after[b].0,
    ) by {}
    if has_key(after, k) {
        let a = position(after, k);
        let oa = if a < i { a } else { a + 1 };
        lemma_ascending_position::<K, V>(before, oa);
        lemma_ascending_position::<K, V>(before, i);
    }
    let m1 = as_map(after);
    let m2 = as_map(before).remove(k);
    assert forall|x: K::V| m1.contains_key(x) <==> m2.contains_key(x) by {
        if m2.contains_key(x) {
            let o = position(before, x);
            let a = if o < i { o } else { o - 1 };
            assert(after[a] == before[o]);
        }
    }
    assert forall|x: K::V| m1.contains_key(x) implies m1[x] == m2[x] by {
        let a = position(after, x);
        let oa = if a < i { a } else { a + 1 };
        lemma_ascending_position::<K, V>(after, a);
        lemma_ascending_position::<K, V>(before, oa);
    }
}

/// The value that `e` pairs with `k`, if any.
pub open spec fn lookup<A, V>(e: Seq<(A, V)>, k: A) -> Option<V> {
    if has_key(e, k) {
        Some(e[position(e, k)].1)
    } else {
        None
    }
}

/// The two sides of an entry in an ascending sequence are ascending, the
/// left side before the entry's key and the right side after it.
pub proof fn lemma_ascending_sides<K: TotalOrder, V>(
    el: Seq<(K::V, V)>,
    e: (K::V, V),
    er: Seq<(K::V, V)>,
)
    requires
        ascending::<K, V>(el.push(e) + er),
    ensures
        ascending::<K, V>(el),
        ascending::<K, V>(er),
        all_before::<K, V>(el, e.0),
        all_after::<K, V>(er, e.0),
{
    let all = el.push(e) + er;
    let n = el.len() as int;
    assert forall|i: int, j: int| #![trigger el[i], el[j]] 0 <= i < j < el.len() implies K::precedes(
        el[i].0,
        el[j].0,
    ) by {
        assert(all[i] == el[i] && all[j] == el[j]);
    }
    assert forall|i: int, j: int| #![trigger er[i], er[j]] 0 <= i < j < er.len() implies K::precedes(
        er[i].0,
        er[j].0,
    ) by {
        assert(all[n + 1 + i] == er[i] && all[n + 1 + j] == er[j]);
    }
    assert forall|i: int| 0 <= i < el.len() implies K::precedes((#[trigger] el[i]).0, e.0) by {
        assert(K::precedes(all[i].0, all[n].0));
    }
    assert forall|i: int| 0 <= i < er.len() implies K::precedes(e.0, (#[trigger] er[i]).0) by {
        assert(K::precedes(all[n].0, all[n + 1 + i].0));
    }
}

/// Where a key is looked up in an ascending sequence, seen from one of its
/// entries.
pub proof fn lemma_lookup_sides<K: TotalOrder, V>(
    el: Seq<(K::V, V)>,
    e: (K::V, V),
    er: Seq<(K::V, V)>,
    k: K::V,
)
    requires
        ascending::<K, V>(el.push(e) + er),
    ensures
        K::precedes(k, e.0) ==> lookup(el.push(e) + er, k) == lookup(el, k),
        K::precedes(e.0, k) ==> lookup(el.push(e) + er, k) == lookup(er, k),
        e.0 == k ==> lookup(el.push(e) + er, k) == Some(e.1),
{
    let all = el.push(e) + er;
    let n = el.len() as int;
    lemma_ascending_sides::<K, V>(el, e, er);
    K::precedes_irreflexive(k);
    if K::precedes(k, e.0) && K::precedes(e.0, k) {
        K::precedes_transitive(k, e.0, k);
    }
    if e.0 == k {
        lemma_ascending_position::<K, V>(all, n);
    } else if K::precedes(k, e.0) {
        if has_key(all, k) {
            let p = position(all, k);
            if p > n {
                K::precedes_transitive(k, e.0, k);
            }
            lemma_ascending_position::<K, V>(all, p);
            lemma_ascending_position::<K, V>(el, p);
        }
        if has_key(el, k) {
            let p = position(el, k);
            assert(all[p] == el[p]);
        }
    } else if K::precedes(e.0, k) {
        if has_key(all, k) {
            let p = position(all, k);
            if p < n {
                K::precedes_transitive(k, e.0, k);
            }
            lemma_ascending_position::<K, V>(all, p);
            lemma_ascending_position::<K, V>(er, p - n - 1);
        }
        if has_key(er, k) {
            let p = position(er, k);
            assert(all[n + 1 + p] == er[p]);
        }
    }
}

/// An entry put into the left side of a fork is put into the fork.
pub proof fn lemma_spliced_left<K: TotalOrder, V>(
    el: Seq<(K::V, V)>,
    el2: Seq<(K::V, V)>,
    e: (K::V, V),
    er: Seq<(K::V, V)>,
    i: int,
    k: K::V,
    v: V,
)
    requires
        ascending::<K, V>(el.push(e) + er),
        spliced::<K, V>(el, el2, i, k, v),
        K::precedes(k, e.0),
    ensures
        spliced::<K, V>(el.push(e) + er, el2.push(e) + er, i, k, v),
{
    let all = el.push(e) + er;
    let all2 = el2.push(e) + er;
    let n = el.len() as int;
    lemma_ascending_sides::<K, V>(el, e, er);
    assert(all.take(i) =~= el.take(i));
    if i < el.len() && el[i].0 == k {
        assert(all2 =~= all.update(i, (k, v)));
    } else {
        K::precedes_irreflexive(k);
        assert forall|a: int| 0 <= a < all.skip(i).len() implies K::precedes(
            k,
            (#[trigger] all.skip(i)[a]).0,
        ) by {
            let o = i + a;
            if o < n {
                assert(el.skip(i)[a] == el[o]);
            } else if o > n {
                K::precedes_transitive(k, e.0, er[o - n - 1].0);
            }
        }
        assert(all2 =~= all.take(i).push((k, v)) + all.skip(i));
    }
}

/// An entry put into the right side of a fork is put into the fork.
pub proof fn lemma_spliced_right<K: TotalOrder, V>(
    el: Seq<(K::V, V)>,
    e: (K::V, V),
    er: Seq<(K::V, V)>,
    er2: Seq<(K::V, V)>,
    i: int,
    k: K::V,
    v: V,
)
    requires
        ascending::<K, V>(el.push(e) + er),
        spliced::<K, V>(er, er2, i, k, v),
        K::precedes(e.0, k),
    ensures
        spliced::<K, V>(el.push(e) + er, el.push(e) + er2, el.len() + 1 + i, k, v),
{
    let all = el.push(e) + er;
    let all2 = el.push(e) + er2;
    let n = el.len() as int;
    let at = n + 1 + i;
    lemma_ascending_sides::<K, V>(el, e, er);
    assert forall|a: int| 0 <= a < all.take(at).len() implies K::precedes(
        (#[trigger] all.take(at)[a]).0,
        k,
    ) by {
        if a < n {
            K::precedes_transitive(el[a].0, e.0, k);
        } else if a > n {
            assert(er.take(i)[a - n - 1] == er[a - n - 1]);
        }
    }
    if i < er.len() && er[i].0 == k {
        assert(all2 =~= all.update(at, (k, v)));
    } else {
        assert forall|a: int| 0 <= a < all.skip(at).len() implies K::precedes(
            k,
            (#[trigger] all.skip(at)[a]).0,
        ) by {
            assert(all.skip(at)[a] == er.skip(i)[a]);
        }
        assert(all2 =~= all.take(at).push((k, v)) + all.skip(at));
    }
}

/// An entry put in place of a fork's own entry is put into the fork.
pub proof fn lemma_spliced_here<K: TotalOrder, V>(
    el: Seq<(K::V, V)>,
    e: (K::V, V),
    er: Seq<(K::V, V)>,
    v: V,
)
    requires
        ascending::<K, V>(el.push(e) + er),
    ensures
        spliced::<K, V>(el.push(e) + er, el.push((e.0, v)) + er, el.len() as int, e.0, v),
{
    let all = el.push(e) + er;
    let n = el.len() as int;
    lemma_ascending_sides::<K, V>(el, e, er);
    assert(el.push((e.0, v)) + er =~= all.update(n, (e.0, v)));
}

/// The map of an ascending sequence has one key for each entry.
pub proof fn lemma_as_map_len<K: TotalOrder, V>(e: Seq<(K::V, V)>)
    requires
        ascending::<K, V>(e),
    ensures
        as_map(e).dom().finite(),
        as_map(e).dom().len() == e.len(),
    decreases e.len(),
{
    if e.len() == 0 {
        assert(as_map(e).dom() =~= Set::empty());
    } else {
        let n = e.len() - 1;
        let rest = e.drop_last();
        lemma_ascending_subrange::<K, V>(e, 0, n);
        lemma_as_map_len::<K, V>(rest);
        K::precedes_irreflexive(e[n].0);
        assert forall|k: K::V| as_map(e).dom().contains(k) <==> as_map(rest).dom().insert(
            e[n].0,
        ).contains(k) by {
            if has_key(e, k) {
                let p = position(e, k);
                if p < n {
                    assert(rest[p] == e[p]);
                }
            }
        }
        assert(as_map(e).dom() =~= as_map(rest).dom().insert(e[n].0));
    }
}

/// Two ascending sequences on the two sides of a key make an ascending
/// sequence with an entry of that key between them.
pub proof fn lemma_ascending_join<K: TotalOrder, V>(
    el: Seq<(K::V, V)>,
    e: (K::V, V),
    er: Seq<(K::V, V)>,
)
    requires
        ascending::<K, V>(el),
        ascending::<K, V>(er),
        all_before::<K, V>(el, e.0),
        all_after::<K, V>(er, e.0),
    ensures
        ascending::<K, V>(el.push(e) + er),
{
    let all = el.push(e) + er;
    let n = el.len() as int;
    assert forall|i: int, j: int| #![trigger all[i], all[j]] 0 <= i < j < all.len() implies K::precedes(
        all[i].0,
        all[j].0,
    ) by {
        if j < n {
        } else if j == n {
        } else if i > n {
        } else if i == n {
        } else {
            K::precedes_transitive(el[i].0, e.0, er[j - n - 1].0);
        }
    }
}

/// The keys of `e` ascend and lie strictly between the two bounds, where
/// there is a bound.
pub open spec fn ascending_within<K: TotalOrder, V>(
    e: Seq<(K::V, V)>,
    low: Option<K::V>,
    high: Option<K::V>,
) -> bool {
    &&& ascending::<K, V>(e)
    &&& low is Some ==> all_after::<K, V>(e, low.unwrap())
    &&& high is Some ==> all_before::<K, V>(e, high.unwrap())
}

/// A fork ascends within bounds exactly if its key lies within them and its
/// sides ascend within the bounds and the key.
pub proof fn lemma_ascending_within<K: TotalOrder, V>(
    el: Seq<(K::V, V)>,
    e: (K::V, V),
    er: Seq<(K::V, V)>,
    low: Option<K::V>,
    high: Option<K::V>,
)
    ensures
        ascending_within::<K, V>(el.push(e) + er, low, high) <==> {
            &&& low is Some ==> K::precedes(low.unwrap(), e.0)
            &&& high is Some ==> K::precedes(e.0, high.unwrap())
            &&& ascending_within::<K, V>(el, low, Some(e.0))
            &&& ascending_within::<K, V>(er, Some(e.0), high)
        },
{
    let all = el.push(e) + er;
    let n = el.len() as int;
    assert(all[n] == e);
    if ascending_within::<K, V>(all, low, high) {
        lemma_ascending_sides::<K, V>(el, e, er);
        if low is Some {
            assert forall|i: int| 0 <= i < el.len() implies K::precedes(
                low.unwrap(),
                (#[trigger] el[i]).0,
            ) by {
                assert(all[i] == el[i]);
            }
        }
        if high is Some {
            assert forall|i: int| 0 <= i < er.len() implies K::precedes(
                (#[trigger] er[i]).0,
                high.unwrap(),
            ) by {
                assert(all[n + 1 + i] == er[i]);
            }
        }
    }
    if {
        &&& low is Some ==> K::precedes(low.unwrap(), e.0)
        &&& high is Some ==> K::precedes(e.0, high.unwrap())
        &&& ascending_within::<K, V>(el, low, Some(e.0))
        &&& ascending_within::<K, V>(er, Some(e.0), high)
    } {
        lemma_ascending_join::<K, V>(el, e, er);
        if low is Some {
            assert forall|i: int| 0 <= i < all.len() implies K::precedes(
                low.unwrap(),
                (#[trigger] all[i]).0,
            ) by {
                if i < n {
                } else if i > n {
                    K::precedes_transitive(low.unwrap(), e.0, er[i - n - 1].0);
                }
            }
        }
        if high is Some {
            assert forall|i: int| 0 <= i < all.len() implies K::precedes(
                (#[trigger] all[i]).0,
                high.unwrap(),
            ) by {
                if i < n {
                    K::precedes_transitive(el[i].0, e.0, high.unwrap());
                }
            }
        }
    }
}

/// A key of an ascending sequence that precedes one of its entries' keys
/// is a key of what stands before that entry; one that follows it is a key
/// of what stands after.
pub proof fn lemma_has_key_side<K: TotalOrder, V>(
    el: Seq<(K::V, V)>,
    e: (K::V, V),
    er: Seq<(K::V, V)>,
    k: K::V,
)
    requires
        ascending::<K, V>(el.push(e) + er),
        has_key(el.push(e) + er, k),
    ensures
        K::precedes(k, e.0) ==> has_key(el, k),
        K::precedes(e.0, k) ==> has_key(er, k),
{
    lemma_lookup_sides::<K, V>(el, e, er, k);
}

/// A key of the start of a sequence is a key of the sequence.
pub proof fn lemma_has_key_prefix<A, V>(a: Seq<(A, V)>, b: Seq<(A, V)>, k: A)
    requires
        a.is_prefix_of(b),
        has_key(a, k),
    ensures
        has_key(b, k),
{
}

/// Taking an entry out of one side of a fork takes it out of the fork.
pub proof fn lemma_remove_sides<A, V>(el: Seq<(A, V)>, e: (A, V), er: Seq<(A, V)>, i: int)
    ensures
        0 <= i < el.len() ==> el.remove(i).push(e) + er == (el.push(e) + er).remove(i) && (el.push(
            e,
        ) + er)[i] == el[i],
        0 <= i < er.len() ==> el.push(e) + er.remove(i) == (el.push(e) + er).remove(
            el.len() + 1 + i,
        ) && (el.push(e) + er)[el.len() + 1 + i] == er[i],
        er.len() > 0 ==> el.push(er[0]) + er.drop_first() == (el.push(e) + er).remove(
            el.len() as int,
        ),
        (el.push(e) + er)[el.len() as int] == e,
{
}

/// The number of entries of `e` whose key precedes `k`.
pub open spec fn count_before<K: TotalOrder, V>(e: Seq<(K::V, V)>, k: K::V) -> nat
    decreases e.len(),
{
    if e.len() == 0 {
        0
    } else {
        count_before::<K, V>(e.drop_last(), k) + if K::precedes(e.last().0, k) {
            1nat
        } else {
            0nat
        }
    }
}

/// Counting over two sequences in a row adds up.
pub proof fn lemma_count_before_add<K: TotalOrder, V>(
    a: Seq<(K::V, V)>,
    b: Seq<(K::V, V)>,
    k: K::V,
)
    ensures
        count_before::<K, V>(a + b, k) == count_before::<K, V>(a, k) + count_before::<K, V>(b, k),
    decreases b.len(),
{
    if b.len() == 0 {
    } else {
        assert((a + b).drop_last() =~= a + b.drop_last());
        lemma_count_before_add::<K, V>(a, b.drop_last(), k);
    }
}

/// Where every key precedes `k` all entries count, and where none does,
/// none.
pub proof fn lemma_count_before_all<K: TotalOrder, V>(e: Seq<(K::V, V)>, k: K::V)
    ensures
        all_before::<K, V>(e, k) ==> count_before::<K, V>(e, k) == e.len(),
        (forall|i: int| 0 <= i < e.len() ==> !K::precedes((#[trigger] e[i]).0, k))
            ==> count_before::<K, V>(e, k) == 0,
        count_before::<K, V>(e, k) <= e.len(),
    decreases e.len(),
{
    if e.len() > 0 {
        let rest = e.drop_last();
        lemma_count_before_all::<K, V>(rest, k);
        if all_before::<K, V>(e, k) {
            assert forall|i: int| 0 <= i < rest.len() implies K::precedes(
                (#[trigger] rest[i]).0,
                k,
            ) by {}
        }
        if forall|i: int| 0 <= i < e.len() ==> !K::precedes((#[trigger] e[i]).0, k) {
            assert forall|i: int| 0 <= i < rest.len() implies !K::precedes(
                (#[trigger] rest[i]).0,
                k,
            ) by {}
        }
    }
}

/// How the count over a fork is made up of the counts over its sides,
/// depending on where `k` stands to the fork's key.
pub proof fn lemma_count_before_sides<K: TotalOrder, V>(
    el: Seq<(K::V, V)>,
    e: (K::V, V),
    er: Seq<(K::V, V)>,
    k: K::V,
)
    requires
        ascending::<K, V>(el.push(e) + er),
    ensures
        count_before::<K, V>(el, k) <= el.len(),
        count_before::<K, V>(er, k) <= er.len(),
        K::precedes(k, e.0) ==> count_before::<K, V>(el.push(e) + er, k) == count_before::<K, V>(
            el,
            k,
        ),
        e.0 == k ==> count_before::<K, V>(el.push(e) + er, k) == el.len(),
        K::precedes(e.0, k) ==> count_before::<K, V>(el.push(e) + er, k) == el.len() + 1
            + count_before::<K, V>(er, k),
{
    lemma_ascending_sides::<K, V>(el, e, er);
    lemma_count_before_add::<K, V>(el.push(e), er, k);
    lemma_count_before_add::<K, V>(el, seq![e], k);
    assert(el.push(e) =~= el + seq![e]);
    assert(count_before::<K, V>(seq![e], k) == if K::precedes(e.0, k) {
        1nat
    } else {
        0nat
    }) by {
        assert(count_before::<K, V>(seq![e].drop_last(), k) == 0);
    }
    lemma_count_before_all::<K, V>(el, k);
    lemma_count_before_all::<K, V>(er, k);
    K::precedes_irreflexive(k);
    if K::precedes(k, e.0) || e.0 == k {
        assert forall|i: int| 0 <= i < er.len() implies !K::precedes((#[trigger] er[i]).0, k) by {
            if K::precedes(er[i].0, k) {
                K::precedes_transitive(e.0, er[i].0, k);
                if K::precedes(k, e.0) {
                    K::precedes_transitive(k, e.0, k);
                }
            }
        }
        if K::precedes(k, e.0) && K::precedes(e.0, k) {
            K::precedes_transitive(k, e.0, k);
        }
    }
    if K::precedes(e.0, k) || e.0 == k {
        assert forall|i: int| 0 <= i < el.len() implies K::precedes((#[trigger] el[i]).0, k) by {
            if K::precedes(e.0, k) {
                K::precedes_transitive(el[i].0, e.0, k);
            }
        }
    }
}

/// In an ascending sequence as many keys precede the key at `i` as there
/// are entries before it.
pub proof fn lemma_count_before_at<K: TotalOrder, V>(e: Seq<(K::V, V)>, i: int)
    requires
        ascending::<K, V>(e),
        0 <= i < e.len(),
    ensures
        count_before::<K, V>(e, e[i].0) == i,
{
    let el = e.take(i);
    let er = e.skip(i + 1);
    assert(e =~= el.push(e[i]) + er);
    lemma_count_before_sides::<K, V>(el, e[i], er, e[i].0);
}

/// An entry put into an ascending sequence stands where as many entries
/// come before it as keys precede its key.
pub proof fn lemma_spliced_at<K: TotalOrder, V>(
    before: Seq<(K::V, V)>,
    after: Seq<(K::V, V)>,
    i: int,
    k: K::V,
    v: V,
)
    requires
        ascending::<K, V>(before),
        spliced::<K, V>(before, after, i, k, v),
    ensures
        i == count_before::<K, V>(before, k),
{
    let head = before.take(i);
    let tail = before.skip(i);
    assert(before =~= head + tail);
    lemma_count_before_add::<K, V>(head, tail, k);
    lemma_count_before_all::<K, V>(head, k);
    lemma_count_before_all::<K, V>(tail, k);
    K::precedes_irreflexive(k);
    assert forall|a: int| 0 <= a < tail.len() implies !K::precedes((#[trigger] tail[a]).0, k) by {
        if i < before.len() && before[i].0 == k {
            if a > 0 {
                if K::precedes(tail[a].0, k) {
                    K::precedes_transitive(k, tail[a].0, k);
                }
            }
        } else {
            if K::precedes(tail[a].0, k) {
                K::precedes_transitive(k, tail[a].0, k);
            }
        }
    }
}

/// Taking the entry at `i` out of a sequence lowers by one the count of
/// keys that precede `k` if the key at `i` does, and leaves it otherwise.
pub proof fn lemma_count_before_removed<K: TotalOrder, V>(e: Seq<(K::V, V)>, i: int, k: K::V)
    requires
        0 <= i < e.len(),
    ensures
        count_before::<K, V>(e.remove(i), k) + (if K::precedes(e[i].0, k) {
            1nat
        } else {
            0nat
        }) == count_before::<K, V>(e, k),
{
    let head = e.take(i);
    let tail = e.skip(i + 1);
    let one = seq![e[i]];
    assert(e =~= head + one + tail);
    lemma_count_before_add::<K, V>(head + one, tail, k);
    lemma_count_before_add::<K, V>(head, one, k);
    lemma_count_before_add::<K, V>(head, tail, k);
    assert(count_before::<K, V>(one.drop_last(), k) == 0);
}

} // verus!
