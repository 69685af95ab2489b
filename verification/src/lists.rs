//! Operations on keyed lists: membership, equality, difference,
//! concatenation, and the sorted, repeat-free accumulation of keys.

use vstd::prelude::*;
use vstd::relations::sorted_by;

use crate::keys::{key_order, lemma_key_order_total, strictly_ascending, OrderedKey};
use crate::sorting::{dedup_adjacent, lemma_dedup_sorted};

verus! {

/// Whether `key` occurs in `keys`.
pub fn keys_contain<K: OrderedKey>(keys: &Vec<K>, key: K) -> (r: bool)
    ensures
        r == keys@.contains(key),
{
    let n = keys.len();
    let mut i: usize = 0;
    while i < n
        invariant
            n == keys@.len(),
            i <= n,
            forall|k: int| 0 <= k < i ==> keys@[k] != key,
        decreases n - i,
    {
        if keys[i].same(&key) {
            return true;
        }
        i += 1;
    }
    false
}

/// Whether two lists are equal.
pub fn keys_equal<K: OrderedKey>(a: &Vec<K>, b: &Vec<K>) -> (r: bool)
    ensures
        r == (a@ == b@),
{
    if a.len() != b.len() {
        return false;
    }
    let n = a.len();
    let mut i: usize = 0;
    while i < n
        invariant
            n == a@.len(),
            n == b@.len(),
            i <= n,
            forall|k: int| 0 <= k < i ==> a@[k] == b@[k],
        decreases n - i,
    {
        if !a[i].same(&b[i]) {
            return false;
        }
        i += 1;
    }
    assert(a@ =~= b@);
    true
}

/// The keys of `keys` that do not occur in `other`, in their order.
pub fn keys_not_in<K: OrderedKey>(keys: &Vec<K>, other: &Vec<K>) -> (r: Vec<K>)
    ensures
        r@ == keys@.filter(|c: K| !other@.contains(c)),
{
    let ghost pred = |c: K| !other@.contains(c);
    let mut out: Vec<K> = Vec::new();
    let n = keys.len();
    let mut i: usize = 0;
    while i < n
        invariant
            n == keys@.len(),
            i <= n,
            pred == (|c: K| !other@.contains(c)),
            out@ == keys@.take(i as int).filter(pred),
        decreases n - i,
    {
        let c = keys[i];
        let ghost t = keys@.take(i + 1);
        proof {
            assert(t.drop_last() =~= keys@.take(i as int));
            assert(t.last() == c);
        }
        let keep = !keys_contain(other, c);
        if keep {
            out.push(c);
        }
        proof {
            reveal(Seq::filter);
            assert(pred(c) == keep);
            assert(t.filter(pred) == if keep {
                t.drop_last().filter(pred).push(c)
            } else {
                t.drop_last().filter(pred)
            });
        }
        i += 1;
    }
    proof {
        assert(keys@.take(n as int) =~= keys@);
    }
    out
}

/// `a` followed by `b`.
pub fn concat_keys<K: OrderedKey>(a: &Vec<K>, b: &Vec<K>) -> (r: Vec<K>)
    ensures
        r@ == a@ + b@,
{
    let mut out: Vec<K> = Vec::new();
    let mut i: usize = 0;
    while i < a.len()
        invariant
            i <= a@.len(),
            out@ == a@.take(i as int),
        decreases a@.len() - i,
    {
        out.push(a[i]);
        i += 1;
        proof {
            assert(out@ =~= a@.take(i as int));
        }
    }
    let mut j: usize = 0;
    while j < b.len()
        invariant
            j <= b@.len(),
            out@ == a@ + b@.take(j as int),
        decreases b@.len() - j,
    {
        out.push(b[j]);
        j += 1;
        proof {
            assert(out@ =~= a@ + b@.take(j as int));
        }
    }
    proof {
        assert(a@.take(a@.len() as int) =~= a@);
        assert(b@.take(b@.len() as int) =~= b@);
    }
    out
}

/// A copy of `v`.
pub fn copy_keys<K: OrderedKey>(v: &Vec<K>) -> (r: Vec<K>)
    ensures
        r@ == v@,
{
    let mut out: Vec<K> = Vec::new();
    let mut i: usize = 0;
    while i < v.len()
        invariant
            i <= v@.len(),
            out@ == v@.take(i as int),
        decreases v@.len() - i,
    {
        out.push(v[i]);
        i += 1;
        proof {
            assert(out@ =~= v@.take(i as int));
        }
    }
    proof {
        assert(v@.take(v@.len() as int) =~= v@);
    }
    out
}

/// The keys of `new_keys` absent from `old_keys`, in ascending order.
pub open spec fn arrivals<K: OrderedKey>(old_keys: Seq<K>, new_keys: Seq<K>) -> Seq<K> {
    new_keys.filter(|c: K| !old_keys.contains(c)).sort_by(key_order::<K>())
}

/// Every key of `a` or `b`, once each, in ascending order.
pub open spec fn sorted_union<K: OrderedKey>(a: Seq<K>, b: Seq<K>) -> Seq<K> {
    dedup_adjacent((a + b).sort_by(key_order::<K>()))
}

/// The accumulated union is strictly ascending and holds exactly the keys of
/// both lists.
pub proof fn lemma_sorted_union<K: OrderedKey>(a: Seq<K>, b: Seq<K>)
    ensures
        strictly_ascending(sorted_union(a, b)),
        sorted_union(a, b).to_set() == a.to_set() + b.to_set(),
{
    broadcast use vstd::seq_lib::group_to_multiset_ensures;

    let all = a + b;
    lemma_key_order_total::<K>();
    all.lemma_sort_by_ensures(key_order::<K>());
    let sorted = all.sort_by(key_order::<K>());
    lemma_dedup_sorted(sorted);
    assert forall|c: K| sorted.contains(c) <==> all.contains(c) by {
        assert(sorted.contains(c) <==> sorted.to_multiset().count(c) > 0);
        assert(all.contains(c) <==> all.to_multiset().count(c) > 0);
    }
    assert forall|c: K| all.contains(c) <==> (a.contains(c) || b.contains(c)) by {
        if all.contains(c) {
            let i = choose|i: int| 0 <= i < all.len() && all[i] == c;
            if i < a.len() {
                assert(a[i] == c);
            } else {
                assert(b[i - a.len()] == c);
            }
        }
        if a.contains(c) {
            let i = choose|i: int| 0 <= i < a.len() && a[i] == c;
            assert(all[i] == c);
        }
        if b.contains(c) {
            let i = choose|i: int| 0 <= i < b.len() && b[i] == c;
            assert(all[a.len() + i] == c);
        }
    }
    assert(sorted_union(a, b).to_set() =~= a.to_set() + b.to_set());
}

/// Every key of `a` or `b`, once each, in ascending order.
pub fn union_sorted<K: OrderedKey>(a: &Vec<K>, b: &Vec<K>) -> (r: Vec<K>)
    ensures
        r@ == sorted_union(a@, b@),
{
    let all = concat_keys(a, b);
    crate::sorting::dedup_keys(&crate::sorting::sort_keys(&all))
}

/// The keys of `new_keys` absent from `old_keys`, in ascending order.
pub fn arrivals_of<K: OrderedKey>(old_keys: &Vec<K>, new_keys: &Vec<K>) -> (r: Vec<K>)
    ensures
        r@ == arrivals(old_keys@, new_keys@),
{
    crate::sorting::sort_keys(&keys_not_in(new_keys, old_keys))
}

/// An arrivals list holds exactly the keys of `new_keys` absent from
/// `old_keys`, in ascending order.
pub proof fn lemma_arrivals<K: OrderedKey>(old_keys: Seq<K>, new_keys: Seq<K>)
    ensures
        arrivals(old_keys, new_keys).to_set() == new_keys.to_set().difference(old_keys.to_set()),
        sorted_by(arrivals(old_keys, new_keys), key_order::<K>()),
{
    broadcast use vstd::seq_lib::group_to_multiset_ensures, vstd::seq_lib::group_filter_ensures;

    let pred = |c: K| !old_keys.contains(c);
    let f = new_keys.filter(pred);
    lemma_key_order_total::<K>();
    f.lemma_sort_by_ensures(key_order::<K>());
    let a = arrivals(old_keys, new_keys);
    assert forall|c: K| #[trigger] a.to_set().contains(c) <==> new_keys.to_set().difference(
        old_keys.to_set(),
    ).contains(c) by {
        assert(a.contains(c) <==> a.to_multiset().count(c) > 0);
        assert(f.contains(c) <==> f.to_multiset().count(c) > 0);
        if f.contains(c) {
            new_keys.lemma_filter_contains_rev(pred, c);
            let i = choose|i: int| 0 <= i < f.len() && f[i] == c;
            assert(pred(f[i]));
        }
        if new_keys.contains(c) && !old_keys.contains(c) {
            let i = choose|i: int| 0 <= i < new_keys.len() && new_keys[i] == c;
            assert(f.contains(new_keys[i]));
        }
    }
    assert(a.to_set() =~= new_keys.to_set().difference(old_keys.to_set()));
}

/// A strictly ascending list holds each of its keys once.
pub proof fn lemma_ascending_no_duplicates<K: OrderedKey>(s: Seq<K>)
    requires
        strictly_ascending(s),
    ensures
        s.no_duplicates(),
        s.len() == s.to_set().len(),
{
    assert forall|i: int, j: int| 0 <= i < s.len() && 0 <= j < s.len() && i != j implies s[i]
        != s[j] by {
        if i < j {
            assert(s[i] != s[j]);
        } else {
            assert(s[j] != s[i]);
        }
    }
    s.unique_seq_to_set();
}

/// Two strictly ascending lists with the same keys are the same list.
pub proof fn lemma_ascending_unique<K: OrderedKey>(a: Seq<K>, b: Seq<K>)
    requires
        strictly_ascending(a),
        strictly_ascending(b),
        a.to_set() == b.to_set(),
    ensures
        a == b,
{
    broadcast use vstd::seq_lib::group_to_multiset_ensures, vstd::multiset::group_multiset_axioms;

    lemma_ascending_no_duplicates(a);
    lemma_ascending_no_duplicates(b);
    a.lemma_multiset_has_no_duplicates();
    b.lemma_multiset_has_no_duplicates();
    assert forall|x: K| a.to_multiset().count(x) == b.to_multiset().count(x) by {
        assert(a.contains(x) <==> a.to_multiset().count(x) > 0);
        assert(b.contains(x) <==> b.to_multiset().count(x) > 0);
        assert(a.contains(x) <==> a.to_set().contains(x));
        assert(b.contains(x) <==> b.to_set().contains(x));
        if a.contains(x) {
            assert(a.to_multiset().contains(x));
            assert(b.contains(x));
            assert(b.to_multiset().contains(x));
        }
    }
    assert(a.to_multiset() =~= b.to_multiset());
    lemma_key_order_total::<K>();
    assert(sorted_by(a, key_order::<K>()));
    assert(sorted_by(b, key_order::<K>()));
    vstd::seq_lib::lemma_sorted_unique(a, b, key_order::<K>());
}

/// Adding keys the union already holds changes nothing.
pub proof fn lemma_sorted_union_absorbs<K: OrderedKey>(a: Seq<K>, b: Seq<K>)
    ensures
        sorted_union(sorted_union(a, b), b) == sorted_union(a, b),
{
    let u = sorted_union(a, b);
    lemma_sorted_union(a, b);
    lemma_sorted_union(u, b);
    assert(u.to_set() + b.to_set() =~= u.to_set());
    lemma_ascending_unique(sorted_union(u, b), u);
}

/// Whether one of `lists` holds `key`.
pub open spec fn in_some<K>(lists: Seq<&Vec<K>>, key: K) -> bool {
    exists|i: int| 0 <= i < lists.len() && #[trigger] lists[i]@.contains(key)
}

/// The keys of `all`, once each, in ascending order.
pub fn ascending_distinct<K: OrderedKey>(all: &Vec<K>) -> (r: Vec<K>)
    ensures
        r@ == dedup_adjacent(all@.sort_by(key_order::<K>())),
        strictly_ascending(r@),
        r@.to_set() == all@.to_set(),
{
    broadcast use vstd::seq_lib::group_to_multiset_ensures;

    let sorted = crate::sorting::sort_keys(all);
    let r = crate::sorting::dedup_keys(&sorted);
    proof {
        lemma_key_order_total::<K>();
        all@.lemma_sort_by_ensures(key_order::<K>());
        lemma_dedup_sorted(sorted@);
        assert forall|c: K| #[trigger] r@.to_set().contains(c) <==> all@.to_set().contains(c) by {
            assert(r@.to_set().contains(c) == sorted@.to_set().contains(c));
            assert(sorted@.contains(c) <==> sorted@.to_multiset().count(c) > 0);
            assert(all@.contains(c) <==> all@.to_multiset().count(c) > 0);
        }
        assert(r@.to_set() =~= all@.to_set());
    }
    r
}

/// Every key that one of `lists` holds, once each, in ascending order.
pub fn merge_lists<K: OrderedKey>(lists: &[&Vec<K>]) -> (r: Vec<K>)
    ensures
        strictly_ascending(r@),
        forall|c: K| #[trigger] r@.contains(c) <==> in_some(lists@, c),
{
    let mut all: Vec<K> = Vec::new();
    let n = lists.len();
    let mut i: usize = 0;
    while i < n
        invariant
            n == lists@.len(),
            i <= n,
            forall|c: K| #[trigger] all@.contains(c) <==> in_some(lists@.take(i as int), c),
        decreases n - i,
    {
        let ghost before = all@;
        all = concat_keys(&all, lists[i]);
        proof {
            let v = lists@[i as int]@;
            let done = lists@.take(i as int);
            let next = lists@.take(i + 1);
            assert forall|c: K| #[trigger] all@.contains(c) <==> in_some(next, c) by {
                if all@.contains(c) {
                    let j = choose|j: int| 0 <= j < all@.len() && all@[j] == c;
                    if j < before.len() {
                        assert(before[j] == c);
                        assert(before.contains(c));
                        let k = choose|k: int| 0 <= k < done.len() && #[trigger] done[k]@.contains(c);
                        assert(next[k] == done[k]);
                    } else {
                        assert(v[j - before.len()] == c);
                        assert(next[i as int]@.contains(c));
                    }
                }
                if in_some(next, c) {
                    let k = choose|k: int| 0 <= k < next.len() && #[trigger] next[k]@.contains(c);
                    if k < i {
                        assert(done[k] == next[k]);
                        assert(in_some(done, c));
                        assert(before.contains(c));
                        let j = choose|j: int| 0 <= j < before.len() && before[j] == c;
                        assert(all@[j] == c);
                    } else {
                        let j = choose|j: int| 0 <= j < v.len() && v[j] == c;
                        assert(all@[before.len() + j] == c);
                    }
                }
            }
        }
        i += 1;
    }
    proof {
        assert(lists@.take(n as int) =~= lists@);
    }
    let r = ascending_distinct(&all);
    proof {
        assert forall|c: K| #[trigger] r@.contains(c) <==> in_some(lists@, c) by {
            assert(r@.to_set().contains(c) == all@.to_set().contains(c));
        }
    }
    r
}

} // verus!
