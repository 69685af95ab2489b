//! Ordering entities by slot index alone, keeping entries with equal
//! indices in the order they came in (a stable sort by index).

use vstd::prelude::*;
use vstd::relations::sorted_by;

use crate::keys::{key_order, lemma_key_order_total, EntityKey, OrderedKey};

verus! {

/// Where `x` goes when inserted into `t` from position `k` on: before the
/// first entry with a greater index, after every entry with an index up to
/// its own.
pub open spec fn insert_pos(t: Seq<EntityKey>, x: EntityKey, k: nat) -> nat
    decreases t.len() - k,
{
    if k >= t.len() {
        t.len()
    } else if t[k as int].index <= x.index {
        insert_pos(t, x, k + 1)
    } else {
        k
    }
}

/// `t` with `x` inserted after every entry whose index is at most its own.
pub open spec fn insert_by_index(t: Seq<EntityKey>, x: EntityKey) -> Seq<EntityKey> {
    let p = insert_pos(t, x, 0) as int;
    t.take(p) + seq![x] + t.skip(p)
}

/// `s` sorted by index, entries with equal indices in their order in `s`.
pub open spec fn sort_by_index(s: Seq<EntityKey>) -> Seq<EntityKey>
    decreases s.len(),
{
    if s.len() == 0 {
        s
    } else {
        insert_by_index(sort_by_index(s.drop_last()), s.last())
    }
}

/// Non-decreasing in index.
pub open spec fn index_sorted(s: Seq<EntityKey>) -> bool {
    forall|i: int, j: int| 0 <= i < j < s.len() ==> (#[trigger] s[i]).index <= (#[trigger] s[j]).index
}

proof fn lemma_insert_pos(t: Seq<EntityKey>, x: EntityKey, k: nat)
    requires
        k <= t.len(),
    ensures
        k <= insert_pos(t, x, k) <= t.len(),
        forall|i: int| k <= i < insert_pos(t, x, k) ==> t[i].index <= x.index,
        insert_pos(t, x, k) < t.len() ==> t[insert_pos(t, x, k) as int].index > x.index,
    decreases t.len() - k,
{
    if k < t.len() && t[k as int].index <= x.index {
        lemma_insert_pos(t, x, k + 1);
    }
}

/// Sorting by index is a rearrangement that leaves the list non-decreasing
/// in index.
pub proof fn lemma_sort_by_index(s: Seq<EntityKey>)
    ensures
        index_sorted(sort_by_index(s)),
        sort_by_index(s).to_multiset() == s.to_multiset(),
        sort_by_index(s).len() == s.len(),
    decreases s.len(),
{
    broadcast use vstd::seq_lib::group_to_multiset_ensures;

    if s.len() > 0 {
        let t = sort_by_index(s.drop_last());
        let x = s.last();
        lemma_sort_by_index(s.drop_last());
        lemma_insert_pos(t, x, 0);
        let p = insert_pos(t, x, 0) as int;
        let r = insert_by_index(t, x);
        assert(r =~= t.take(p) + seq![x] + t.skip(p));
        assert forall|i: int, j: int| 0 <= i < j < r.len() implies (#[trigger] r[i]).index <= (
        #[trigger] r[j]).index by {
            if j < p {
                assert(r[i] == t[i] && r[j] == t[j]);
            } else if j == p {
                assert(r[i] == t[i]);
            } else if i < p {
                assert(r[i] == t[i] && r[j] == t[j - 1]);
                assert(t[i].index <= x.index);
                if p < t.len() {
                    assert(t[p].index > x.index);
                    assert(t[p].index <= t[j - 1].index);
                }
            } else if i == p {
                assert(r[j] == t[j - 1]);
                assert(t[p].index > x.index);
                assert(t[p].index <= t[j - 1].index);
            } else {
                assert(r[i] == t[i - 1] && r[j] == t[j - 1]);
            }
        }
        vstd::seq_lib::lemma_multiset_commutative(t.take(p), seq![x]);
        vstd::seq_lib::lemma_multiset_commutative(t.take(p) + seq![x], t.skip(p));
        vstd::seq_lib::lemma_multiset_commutative(t.take(p), t.skip(p));
        assert(t.take(p) + t.skip(p) =~= t);
        assert(s.drop_last().push(x) =~= s);
        vstd::seq_lib::lemma_multiset_commutative(s.drop_last(), seq![x]);
        assert(s.drop_last() + seq![x] =~= s);
        assert(r.to_multiset() =~= s.to_multiset());
    }
}

/// When no two distinct entities in `s` share an index, sorting by index is
/// sorting in entity order.
pub proof fn lemma_index_sort_is_entity_sort(s: Seq<EntityKey>)
    requires
        forall|a: EntityKey, b: EntityKey|
            s.contains(a) && s.contains(b) && a.index == b.index ==> a == b,
    ensures
        sort_by_index(s) == s.sort_by(key_order::<EntityKey>()),
{
    broadcast use vstd::seq_lib::group_to_multiset_ensures;

    lemma_sort_by_index(s);
    lemma_key_order_total::<EntityKey>();
    s.lemma_sort_by_ensures(key_order::<EntityKey>());
    let r = sort_by_index(s);
    assert forall|i: int, j: int| 0 <= i < j < r.len() implies #[trigger] key_order::<
        EntityKey,
    >()(r[i], r[j]) by {
        assert(r.to_multiset().count(r[i]) > 0);
        assert(r.to_multiset().count(r[j]) > 0);
        assert(s.contains(r[i]) && s.contains(r[j]));
        assert(r[i].index <= r[j].index);
    }
    assert(sorted_by(r, key_order::<EntityKey>()));
    vstd::seq_lib::lemma_sorted_unique(r, s.sort_by(key_order::<EntityKey>()), key_order::<EntityKey>());
}

/// `t` with `x` inserted after every entry whose index is at most its own.
fn insert_entity(t: &Vec<EntityKey>, x: EntityKey) -> (r: Vec<EntityKey>)
    ensures
        r@ == insert_by_index(t@, x),
{
    let n = t.len();
    let mut p: usize = 0;
    while p < n && t[p].index <= x.index
        invariant
            n == t@.len(),
            p <= n,
            insert_pos(t@, x, p as nat) == insert_pos(t@, x, 0),
        decreases n - p,
    {
        p += 1;
    }
    let mut out: Vec<EntityKey> = Vec::new();
    let mut i: usize = 0;
    while i < p
        invariant
            n == t@.len(),
            p <= n,
            i <= p,
            out@ == t@.take(i as int),
        decreases p - i,
    {
        out.push(t[i]);
        i += 1;
        proof {
            assert(out@ =~= t@.take(i as int));
        }
    }
    out.push(x);
    let mut j: usize = p;
    while j < n
        invariant
            n == t@.len(),
            p <= j <= n,
            out@ == t@.take(p as int) + seq![x] + t@.subrange(p as int, j as int),
        decreases n - j,
    {
        out.push(t[j]);
        j += 1;
        proof {
            assert(out@ =~= t@.take(p as int) + seq![x] + t@.subrange(p as int, j as int));
        }
    }
    proof {
        assert(t@.subrange(p as int, n as int) =~= t@.skip(p as int));
    }
    out
}

/// The entities of `s` sorted by index; entries with equal indices keep
/// their order.
pub fn sort_entities_by_index(s: &Vec<EntityKey>) -> (r: Vec<EntityKey>)
    ensures
        r@ == sort_by_index(s@),
{
    let mut out: Vec<EntityKey> = Vec::new();
    let n = s.len();
    let mut i: usize = 0;
    while i < n
        invariant
            n == s@.len(),
            i <= n,
            out@ == sort_by_index(s@.take(i as int)),
        decreases n - i,
    {
        proof {
            assert(s@.take(i + 1).drop_last() =~= s@.take(i as int));
        }
        out = insert_entity(&out, s[i]);
        i += 1;
    }
    proof {
        assert(s@.take(n as int) =~= s@);
    }
    out
}

} // verus!
