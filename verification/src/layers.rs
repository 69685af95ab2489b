//! Visibility layers: a viewer only perceives targets, and is only blocked by
//! occluders, that share one of its layers.

use vstd::prelude::*;

verus! {

/// One of the 64 visibility layers, by number.  Numbers from 64 up name no
/// layer.
#[derive(Clone, Copy, Debug, PartialEq, Eq, Hash, Structural)]
pub struct VisibilityLayer(pub u8);

impl VisibilityLayer {
    /// Layer number zero.
    pub fn zero() -> (r: Self)
        ensures
            r.0 == 0,
    {
        VisibilityLayer(0)
    }
}

/// A set of layers, one bit per layer.
#[derive(Clone, Copy, Debug, PartialEq, Eq, Hash, Structural)]
pub struct VisibilityLayerMask(pub u64);

/// Whether bit `layer` of `bits` is set (never, for `layer >= 64`).
pub open spec fn has_layer(bits: u64, layer: u8) -> bool {
    layer < 64 && (bits >> (layer as u64)) & 1 == 1
}

impl VisibilityLayerMask {
    /// No layer.
    pub fn empty() -> (r: Self)
        ensures
            r.0 == 0,
    {
        VisibilityLayerMask(0)
    }

    /// Every layer.
    pub fn all() -> (r: Self)
        ensures
            r.0 == u64::MAX,
    {
        VisibilityLayerMask(u64::MAX)
    }

    /// The mask holding just `layer`; empty when `layer` names no layer.
    pub fn from_layer(layer: VisibilityLayer) -> (r: Self)
        ensures
            layer.0 >= 64 ==> r.0 == 0,
            layer.0 < 64 ==> r.0 == 1u64 << (layer.0 as u64),
    {
        if layer.0 >= 64 {
            return Self::empty();
        }
        VisibilityLayerMask(1u64 << (layer.0 as u64))
    }

    /// Whether the mask holds `layer`.
    pub fn contains(self, layer: VisibilityLayer) -> (r: bool)
        ensures
            r == has_layer(self.0, layer.0),
    {
        let probe = Self::from_layer(layer);
        let r = self.overlaps(probe);
        proof {
            let bits = self.0;
            let l = layer.0 as u64;
            if layer.0 < 64 {
                assert((bits & (1u64 << l) != 0) == ((bits >> l) & 1 == 1)) by (bit_vector)
                    requires
                        l < 64,
                ;
            } else {
                assert(bits & 0 == 0) by (bit_vector);
            }
        }
        r
    }

    /// Whether the two masks share a layer.
    pub fn overlaps(self, other: Self) -> (r: bool)
        ensures
            r == (self.0 & other.0 != 0),
    {
        (self.0 & other.0) != 0
    }

    /// Every layer of either mask.
    pub fn union(self, other: Self) -> (r: Self)
        ensures
            r.0 == self.0 | other.0,
    {
        VisibilityLayerMask(self.0 | other.0)
    }
}

impl Default for VisibilityLayerMask {
    /// Every layer.
    fn default() -> (r: Self)
        ensures
            r.0 == u64::MAX,
    {
        Self::all()
    }
}

/// A union holds a layer exactly when one of its parts does.
pub proof fn lemma_union_has_layer(a: VisibilityLayerMask, b: VisibilityLayerMask, layer: u8)
    ensures
        has_layer(a.0 | b.0, layer) == (has_layer(a.0, layer) || has_layer(b.0, layer)),
{
    let l = layer as u64;
    let x = a.0;
    let y = b.0;
    assert((((x | y) >> l) & 1 == 1) == (((x >> l) & 1 == 1) || ((y >> l) & 1 == 1)))
        by (bit_vector);
}

/// Sharing a layer is symmetric, and two masks that hold the same layer
/// share it.
pub proof fn lemma_overlap_symmetric(a: VisibilityLayerMask, b: VisibilityLayerMask, layer: u8)
    ensures
        (a.0 & b.0 != 0) == (b.0 & a.0 != 0),
        has_layer(a.0, layer) && has_layer(b.0, layer) ==> a.0 & b.0 != 0,
{
    let l = layer as u64;
    let x = a.0;
    let y = b.0;
    assert((x & y != 0) == (y & x != 0)) by (bit_vector);
    assert(((x >> l) & 1 == 1 && (y >> l) & 1 == 1) ==> x & y != 0) by (bit_vector);
}

/// The mask of one layer holds that layer and no other; the full mask holds every
/// layer and the empty mask none.
pub proof fn lemma_single_layer(layer: u8, other: u8)
    requires
        layer < 64,
    ensures
        has_layer(1u64 << (layer as u64), other) == (other == layer),
        has_layer(u64::MAX, layer),
        !has_layer(0u64, other),
{
    let l = layer as u64;
    let k = other as u64;
    assert(k < 64 ==> ((((1u64 << l) >> k) & 1 == 1) == (k == l))) by (bit_vector)
        requires
            l < 64,
    ;
    assert((0xffff_ffff_ffff_ffffu64 >> l) & 1 == 1) by (bit_vector)
        requires
            l < 64,
    ;
    assert((0u64 >> k) & 1 == 0) by (bit_vector);
}

} // verus!
