//! Totally ordered keys: grid cells in row-major order and entity handles in
//! index order.  Every list the library publishes is kept in one of these
//! orders.

use vstd::prelude::*;
use vstd::relations::total_ordering;

use crate::geometry::{cell_lt, strictly_sorted, IVec2};

verus! {

/// A copyable key with a total order that executable code can decide.
pub trait OrderedKey: Copy + Sized {
    /// The non-strict order.
    spec fn key_le(self, other: Self) -> bool;

    /// `key_le` is reflexive, total, antisymmetric and transitive.
    proof fn lemma_key_order(a: Self, b: Self, c: Self)
        ensures
            a.key_le(a),
            a.key_le(b) || b.key_le(a),
            a.key_le(b) && b.key_le(a) ==> a == b,
            a.key_le(b) && b.key_le(c) ==> a.key_le(c),
    ;

    fn le(&self, other: &Self) -> (r: bool)
        ensures
            r == self.key_le(*other),
    ;

    fn same(&self, other: &Self) -> (r: bool)
        ensures
            r == (*self == *other),
    ;
}

/// The order of `K` as a relation.
pub open spec fn key_order<K: OrderedKey>() -> spec_fn(K, K) -> bool {
    |a: K, b: K| a.key_le(b)
}

/// `s` strictly increases, hence holds no key twice.
pub open spec fn strictly_ascending<K: OrderedKey>(s: Seq<K>) -> bool {
    forall|i: int, j: int|
        0 <= i < j < s.len() ==> (#[trigger] s[i]).key_le(#[trigger] s[j]) && s[i] != s[j]
}

pub proof fn lemma_key_order_total<K: OrderedKey>()
    ensures
        total_ordering(key_order::<K>()),
{
    let r = key_order::<K>();
    assert forall|x: K| #[trigger] r(x, x) by {
        K::lemma_key_order(x, x, x);
    }
    assert forall|x: K, y: K| #[trigger] r(x, y) && #[trigger] r(y, x) implies x == y by {
        K::lemma_key_order(x, y, x);
    }
    assert forall|x: K, y: K, z: K| #[trigger] r(x, y) && #[trigger] r(y, z) implies r(x, z) by {
        K::lemma_key_order(x, y, z);
    }
    assert forall|x: K, y: K| #[trigger] r(x, y) || #[trigger] r(y, x) by {
        K::lemma_key_order(x, y, x);
    }
}

/// Row-major order, non-strict: by `y`, then by `x`.
pub open spec fn cell_le(a: IVec2, b: IVec2) -> bool {
    a.y < b.y || (a.y == b.y && a.x <= b.x)
}

impl OrderedKey for IVec2 {
    open spec fn key_le(self, other: Self) -> bool {
        cell_le(self, other)
    }

    proof fn lemma_key_order(a: Self, b: Self, c: Self) {
    }

    fn le(&self, other: &Self) -> (r: bool) {
        self.y < other.y || (self.y == other.y && self.x <= other.x)
    }

    fn same(&self, other: &Self) -> (r: bool) {
        self.x == other.x && self.y == other.y
    }
}

/// For cells, ascending in key order is ascending in row-major order.
pub proof fn lemma_ascending_cells(s: Seq<IVec2>)
    ensures
        strictly_ascending(s) <==> strictly_sorted(s),
{
    assert(forall|a: IVec2, b: IVec2| (a.key_le(b) && a != b) <==> cell_lt(a, b));
}

/// A handle on an entity of the host world: its slot index and the
/// generation of that slot.
#[derive(Clone, Copy, Debug, PartialEq, Eq, Hash, Structural)]
pub struct EntityKey {
    pub index: u32,
    pub generation: u32,
}

impl EntityKey {
    pub fn new(index: u32, generation: u32) -> (r: Self)
        ensures
            r.index == index,
            r.generation == generation,
    {
        EntityKey { index, generation }
    }
}

/// Entity order: by index, then by generation.
pub open spec fn entity_le(a: EntityKey, b: EntityKey) -> bool {
    a.index < b.index || (a.index == b.index && a.generation <= b.generation)
}

impl OrderedKey for EntityKey {
    open spec fn key_le(self, other: Self) -> bool {
        entity_le(self, other)
    }

    proof fn lemma_key_order(a: Self, b: Self, c: Self) {
    }

    fn le(&self, other: &Self) -> (r: bool) {
        self.index < other.index || (self.index == other.index && self.generation
            <= other.generation)
    }

    fn same(&self, other: &Self) -> (r: bool) {
        self.index == other.index && self.generation == other.generation
    }
}

} // verus!
