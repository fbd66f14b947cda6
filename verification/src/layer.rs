//! Identifiers of the layers of a multi-layer navigation mesh.

use vstd::prelude::*;

verus! {

/// The index of a layer.
#[derive(Clone, Copy, Debug, PartialEq, Eq, PartialOrd, Ord, Hash, Structural)]
pub struct LayerId(pub u32);

impl View for LayerId {
    type V = nat;

    open spec fn view(&self) -> nat {
        self.0 as nat
    }
}

impl LayerId {
    /// The lowest layer.
    pub fn min_layer() -> (r: LayerId)
        ensures
            r@ == 0,
    {
        LayerId(0)
    }

    /// The highest layer.
    pub fn max_layer() -> (r: LayerId)
        ensures
            r@ == u32::MAX,
    {
        LayerId(u32::MAX)
    }

    /// The layer with the given index.
    pub fn new(index: u32) -> (r: LayerId)
        ensures
            r@ == index,
    {
        LayerId(index)
    }

    /// The layer `delta` above `self`, if it exists.
    pub fn checked_add(self, delta: usize) -> (r: Option<LayerId>)
        ensures
            r is Some <==> self@ + delta <= u32::MAX,
            r matches Some(l) ==> l@ == self@ + delta,
    {
        if delta > u32::MAX as usize {
            return None;
        }
        match self.0.checked_add(delta as u32) {
            Some(x) => Some(LayerId(x)),
            None => None,
        }
    }

    /// The layer just above `self`, if it exists.
    pub(crate) fn checked_add_one(self) -> (r: Option<LayerId>)
        ensures
            r is Some <==> self@ < u32::MAX,
            r matches Some(l) ==> l@ == self@ + 1,
    {
        match self.0.checked_add(1) {
            Some(x) => Some(LayerId(x)),
            None => None,
        }
    }

    /// The layer `delta` below `self`, if it exists.
    pub fn checked_sub(self, delta: usize) -> (r: Option<LayerId>)
        ensures
            r is Some <==> delta <= self@,
            r matches Some(l) ==> l@ == self@ - delta,
    {
        if delta > u32::MAX as usize {
            return None;
        }
        match self.0.checked_sub(delta as u32) {
            Some(x) => Some(LayerId(x)),
            None => None,
        }
    }

    /// The layer just below `self`, if it exists.
    pub(crate) fn checked_sub_one(self) -> (r: Option<LayerId>)
        ensures
            r is Some <==> self@ > 0,
            r matches Some(l) ==> l@ == self@ - 1,
    {
        match self.0.checked_sub(1) {
            Some(x) => Some(LayerId(x)),
            None => None,
        }
    }

    /// The layer with index `x`; the index must fit in a `u32`.
    pub fn from_usize(x: usize) -> (r: LayerId)
        requires
            x <= u32::MAX,
        ensures
            r@ == x,
    {
        LayerId(x as u32)
    }

    /// The index of this layer as a `usize`.
    pub fn to_usize(self) -> (r: usize)
        ensures
            r == self@,
    {
        self.0 as usize
    }
}

} // verus!
