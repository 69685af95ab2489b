//! Sorting keyed lists, merging sorted lists and removing repeats.

use vstd::prelude::*;
use vstd::relations::{sorted_by, total_ordering};

use crate::keys::{key_order, lemma_key_order_total, strictly_ascending, OrderedKey};

verus! {

/// Copies `v[lo..hi]`.
fn copy_range<K: OrderedKey>(v: &Vec<K>, lo: usize, hi: usize) -> (r: Vec<K>)
    requires
        lo <= hi <= v@.len(),
    ensures
        r@ == v@.subrange(lo as int, hi as int),
{
    let mut out: Vec<K> = Vec::new();
    let mut i = lo;
    while i < hi
        invariant
            lo <= i <= hi,
            hi <= v@.len(),
            out@ == v@.subrange(lo as int, i as int),
        decreases hi - i,
    {
        out.push(v[i]);
        i += 1;
        proof {
            assert(out@ =~= v@.subrange(lo as int, i as int));
        }
    }
    out
}

/// Merges two sorted lists.
fn merge_sorted<K: OrderedKey>(a: &Vec<K>, b: &Vec<K>) -> (r: Vec<K>)
    requires
        sorted_by(a@, key_order::<K>()),
        sorted_by(b@, key_order::<K>()),
    ensures
        sorted_by(r@, key_order::<K>()),
        r@.to_multiset() == a@.to_multiset().add(b@.to_multiset()),
{
    broadcast use vstd::multiset::group_multiset_axioms, vstd::seq_lib::group_to_multiset_ensures;

    let mut out: Vec<K> = Vec::new();
    let mut i: usize = 0;
    let mut j: usize = 0;
    proof {
        assert(a@.take(0) =~= Seq::<K>::empty());
        assert(b@.take(0) =~= Seq::<K>::empty());
        assert(out@.to_multiset() =~= a@.take(0).to_multiset().add(b@.take(0).to_multiset()));
    }
    while i < a.len() || j < b.len()
        invariant
            0 <= i <= a@.len(),
            0 <= j <= b@.len(),
            sorted_by(a@, key_order::<K>()),
            sorted_by(b@, key_order::<K>()),
            sorted_by(out@, key_order::<K>()),
            out@.to_multiset() == a@.take(i as int).to_multiset().add(
                b@.take(j as int).to_multiset(),
            ),
            forall|k: int|
                0 <= k < out@.len() ==> (i < a@.len() ==> (#[trigger] out@[k]).key_le(a@[i as int]))
                    && (j < b@.len() ==> out@[k].key_le(b@[j as int])),
        decreases a@.len() - i + b@.len() - j,
    {
        if j >= b.len() || (i < a.len() && a[i].le(&b[j])) {
            let x = a[i];
            let ghost old_out = out@;
            out.push(x);
            proof {
                assert(a@.take(i + 1) =~= a@.take(i as int).push(x));
                assert(out@ == old_out.push(x));
                vstd::seq_lib::to_multiset_build(old_out, x);
                vstd::seq_lib::to_multiset_build(a@.take(i as int), x);
                assert(out@.to_multiset() =~= a@.take(i + 1).to_multiset().add(
                    b@.take(j as int).to_multiset(),
                ));
                if i + 1 < a@.len() {
                    assert(key_order::<K>()(a@[i as int], a@[i + 1]));
                    assert forall|k: int| 0 <= k < out@.len() implies (#[trigger] out@[k]).key_le(
                        a@[i + 1],
                    ) by {
                        K::lemma_key_order(out@[k], x, a@[i + 1]);
                    }
                }
                if j < b@.len() {
                    K::lemma_key_order(x, b@[j as int], x);
                }
            }
            i += 1;
        } else {
            let x = b[j];
            let ghost old_out = out@;
            out.push(x);
            proof {
                assert(b@.take(j + 1) =~= b@.take(j as int).push(x));
                assert(out@ == old_out.push(x));
                vstd::seq_lib::to_multiset_build(old_out, x);
                vstd::seq_lib::to_multiset_build(b@.take(j as int), x);
                assert(out@.to_multiset() =~= a@.take(i as int).to_multiset().add(
                    b@.take(j + 1).to_multiset(),
                ));
                if j + 1 < b@.len() {
                    assert(key_order::<K>()(b@[j as int], b@[j + 1]));
                    assert forall|k: int| 0 <= k < out@.len() implies (#[trigger] out@[k]).key_le(
                        b@[j + 1],
                    ) by {
                        K::lemma_key_order(out@[k], x, b@[j + 1]);
                    }
                }
                if i < a@.len() {
                    K::lemma_key_order(x, a@[i as int], x);
                }
            }
            j += 1;
        }
    }
    proof {
        assert(a@.take(i as int) =~= a@);
        assert(b@.take(j as int) =~= b@);
    }
    out
}

/// The keys of `v` in ascending order.
pub fn sort_keys<K: OrderedKey>(v: &Vec<K>) -> (r: Vec<K>)
    ensures
        r@ == v@.sort_by(key_order::<K>()),
    decreases v@.len(),
{
    proof {
        lemma_key_order_total::<K>();
        v@.lemma_sort_by_ensures(key_order::<K>());
    }
    let n = v.len();
    if n <= 1 {
        let r = copy_range(v, 0, n);
        proof {
            assert(r@ =~= v@);
            vstd::seq_lib::lemma_sorted_unique(r@, v@.sort_by(key_order::<K>()), key_order::<K>());
        }
        return r;
    }
    let mid = n / 2;
    let left = copy_range(v, 0, mid);
    let right = copy_range(v, mid, n);
    let left_sorted = sort_keys(&left);
    let right_sorted = sort_keys(&right);
    proof {
        left@.lemma_sort_by_ensures(key_order::<K>());
        right@.lemma_sort_by_ensures(key_order::<K>());
    }
    let r = merge_sorted(&left_sorted, &right_sorted);
    proof {
        assert(v@ =~= left@ + right@);
        vstd::seq_lib::lemma_multiset_commutative(left@, right@);
        vstd::seq_lib::lemma_sorted_unique(r@, v@.sort_by(key_order::<K>()), key_order::<K>());
    }
    r
}

/// `s` with each run of equal neighbours collapsed to one entry.
pub open spec fn dedup_adjacent<K: OrderedKey>(s: Seq<K>) -> Seq<K>
    decreases s.len(),
{
    if s.len() <= 1 {
        s
    } else {
        let d = dedup_adjacent(s.drop_last());
        if s[s.len() - 2] == s.last() {
            d
        } else {
            d.push(s.last())
        }
    }
}

/// Collapsing repeats of a sorted sequence leaves it strictly ascending with
/// the same keys, ending with the same key.
pub proof fn lemma_dedup_sorted<K: OrderedKey>(s: Seq<K>)
    requires
        sorted_by(s, key_order::<K>()),
    ensures
        strictly_ascending(dedup_adjacent(s)),
        dedup_adjacent(s).to_set() == s.to_set(),
        s.len() > 0 ==> dedup_adjacent(s).len() > 0 && dedup_adjacent(s).last() == s.last(),
        s.len() == 0 ==> dedup_adjacent(s).len() == 0,
    decreases s.len(),
{
    if s.len() > 1 {
        let p = s.drop_last();
        assert(sorted_by(p, key_order::<K>()));
        lemma_dedup_sorted(p);
        let d = dedup_adjacent(p);
        let x = s.last();
        assert(key_order::<K>()(s[s.len() - 2], x));
        if s[s.len() - 2] == x {
            assert(dedup_adjacent(s).to_set() =~= s.to_set()) by {
                assert forall|c: K| s.contains(c) implies p.contains(c) by {
                    if c == x {
                        assert(p[p.len() - 1] == c);
                    } else {
                        let i = choose|i: int| 0 <= i < s.len() && s[i] == c;
                        assert(p[i] == c);
                    }
                }
                assert forall|c: K| p.contains(c) implies s.contains(c) by {
                    let i = choose|i: int| 0 <= i < p.len() && p[i] == c;
                    assert(s[i] == c);
                }
                assert(forall|c: K| d.to_set().contains(c) == p.to_set().contains(c));
            }
        } else {
            let e = d.push(x);
            assert(d.last().key_le(x) && d.last() != x);
            assert forall|i: int, j: int| 0 <= i < j < e.len() implies (#[trigger] e[i]).key_le(
                #[trigger] e[j],
            ) && e[i] != e[j] by {
                if j == e.len() - 1 {
                    if i < d.len() - 1 {
                        let l = d[d.len() - 1];
                        assert(d[i].key_le(l) && d[i] != l);
                        K::lemma_key_order(d[i], l, x);
                        K::lemma_key_order(l, x, l);
                    }
                } else {
                    assert(e[i] == d[i] && e[j] == d[j]);
                }
            }
            assert(e.to_set() =~= s.to_set()) by {
                assert forall|c: K| s.contains(c) implies e.contains(c) by {
                    if c == x {
                        assert(e[e.len() - 1] == c);
                    } else {
                        let i = choose|i: int| 0 <= i < s.len() && s[i] == c;
                        assert(p[i] == c);
                        assert(d.to_set().contains(c));
                        let k = choose|k: int| 0 <= k < d.len() && d[k] == c;
                        assert(e[k] == c);
                    }
                }
                assert forall|c: K| e.contains(c) implies s.contains(c) by {
                    let k = choose|k: int| 0 <= k < e.len() && e[k] == c;
                    if k == e.len() - 1 {
                        assert(s[s.len() - 1] == c);
                    } else {
                        assert(d[k] == c);
                        assert(p.to_set().contains(c));
                        let i = choose|i: int| 0 <= i < p.len() && p[i] == c;
                        assert(s[i] == c);
                    }
                }
            }
        }
    }
}

/// `v` with each run of equal neighbours collapsed to one entry.
pub fn dedup_keys<K: OrderedKey>(v: &Vec<K>) -> (r: Vec<K>)
    ensures
        r@ == dedup_adjacent(v@),
{
    let mut out: Vec<K> = Vec::new();
    let n = v.len();
    let mut i: usize = 0;
    while i < n
        invariant
            n == v@.len(),
            i <= n,
            out@ == dedup_adjacent(v@.take(i as int)),
        decreases n - i,
    {
        let x = v[i];
        proof {
            let t = v@.take(i + 1);
            assert(t.drop_last() =~= v@.take(i as int));
        }
        if i == 0 || !v[i - 1].same(&x) {
            out.push(x);
        }
        i += 1;
    }
    proof {
        assert(v@.take(n as int) =~= v@);
    }
    out
}

} // verus!
