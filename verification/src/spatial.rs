//! A spatial index of boxes, kept in an `rstar` R*-tree: it finds which of a list of boxes
//! share a point with a given box.

use vstd::prelude::*;

use rstar::primitives::{GeomWithData, Rectangle};

verus! {

/// Whether two boxes (closed, given by their low and high corners) share a point.
pub open spec fn boxes_overlap(a: ([i32; 2], [i32; 2]), b: ([i32; 2], [i32; 2])) -> bool {
    &&& a.0[0] <= b.1[0] && a.0[1] <= b.1[1]
    &&& a.1[0] >= b.0[0] && a.1[1] >= b.0[1]
}

/// Whether the low corner of the box is below and left of its high corner.
pub open spec fn box_ordered(b: ([i32; 2], [i32; 2])) -> bool {
    b.0[0] <= b.1[0] && b.0[1] <= b.1[1]
}

/// An `rstar::RTree` of boxes, each tagged with its index in the list it was loaded from,
/// held opaquely (Verus does not take a declaration of the tree type, whose parameters
/// are bounded by outside traits).
#[verifier::external_body]
#[derive(Debug)]
pub struct BoxIndex {
    tree: rstar::RTree<GeomWithData<Rectangle<[i32; 2]>, usize>>,
}

/// The boxes of the tree: box `j` is tagged with the index `j`.
pub uninterp spec fn box_index_items(t: BoxIndex) -> Seq<([i32; 2], [i32; 2])>;

/// `RTree::bulk_load` of `rstar` on the boxes, box `j` tagged with `j`.
#[verifier::external_body]
pub(crate) fn box_index_load(boxes: &Vec<([i32; 2], [i32; 2])>) -> (r: BoxIndex)
    requires
        forall|j: int| 0 <= j < boxes@.len() ==> box_ordered(#[trigger] boxes@[j]),
    ensures
        box_index_items(r) == boxes@,
{
    let items = boxes.iter().enumerate().map(|(j, b)| GeomWithData::new(Rectangle::from_corners(b.0, b.1), j));
    BoxIndex { tree: rstar::RTree::bulk_load(items.collect()) }
}

/// `RTree::locate_in_envelope_intersecting` of `rstar`: the tags of the boxes that share a
/// point with the box `lo..=hi`, each once, in an order the documentation leaves open.
#[verifier::external_body]
pub(crate) fn box_index_locate(t: &BoxIndex, lo: [i32; 2], hi: [i32; 2]) -> (r: Vec<usize>)
    requires
        box_ordered((lo, hi)),
    ensures
        r@.no_duplicates(),
        forall|j: usize| r@.contains(j) <==> (j < box_index_items(*t).len() && boxes_overlap(
            box_index_items(*t)[j as int],
            (lo, hi),
        )),
{
    let envelope = rstar::AABB::from_corners(lo, hi);
    t.tree.locate_in_envelope_intersecting(envelope).map(|g| g.data).collect()
}

impl BoxIndex {
    /// The boxes of the index, in the order they were loaded.
    pub open spec fn spec_items(&self) -> Seq<([i32; 2], [i32; 2])> {
        box_index_items(*self)
    }

    /// The indices of the boxes that share a point with the box `lo..=hi`, each once, in
    /// no particular order.
    pub fn locate(&self, lo: [i32; 2], hi: [i32; 2]) -> (r: Vec<usize>)
        requires
            box_ordered((lo, hi)),
        ensures
            r@.no_duplicates(),
            forall|j: usize| r@.contains(j) <==> (j < self.spec_items().len() && boxes_overlap(self.spec_items()[j as int], (lo, hi))),
    {
        box_index_locate(self, lo, hi)
    }
}

/// For each of the `n` boxes of the index, whether it shares a point with the box
/// `lo..=hi`.
pub(crate) fn located_mask(t: &BoxIndex, n: usize, lo: [i32; 2], hi: [i32; 2]) -> (r: Vec<bool>)
    requires
        box_index_items(*t).len() == n,
        box_ordered((lo, hi)),
    ensures
        r@.len() == n,
        forall|i: int| 0 <= i < n ==> (#[trigger] r@[i] <==> boxes_overlap(box_index_items(*t)[i], (lo, hi))),
{
    let ids = box_index_locate(t, lo, hi);
    let mut mask: Vec<bool> = Vec::new();
    let mut k: usize = 0;
    while k < n
        invariant
            k <= n,
            mask@.len() == k,
            forall|i: int| 0 <= i < k ==> !(#[trigger] mask@[i]),
        decreases n - k,
    {
        mask.push(false);
        k = k + 1;
    }
    let mut j: usize = 0;
    while j < ids.len()
        invariant
            mask@.len() == n,
            box_index_items(*t).len() == n,
            j <= ids@.len(),
            forall|x: usize| ids@.contains(x) <==> (x < box_index_items(*t).len() && boxes_overlap(box_index_items(*t)[x as int], (lo, hi))),
            forall|i: int| 0 <= i < n ==> (#[trigger] mask@[i] <==> exists|p: int| 0 <= p < j && ids@[p] == i),
        decreases ids@.len() - j,
    {
        let x = ids[j];
        assert(ids@.contains(x));
        let ghost m0 = mask@;
        mask.set(x, true);
        proof {
            assert forall|i: int| 0 <= i < n implies (#[trigger] mask@[i] <==> exists|p: int| 0 <= p < j + 1 && ids@[p] == i) by {
                if i == x {
                    assert(ids@[j as int] == i);
                } else {
                    assert(mask@[i] == m0[i]);
                    if exists|p: int| 0 <= p < j + 1 && ids@[p] == i {
                        let p = choose|p: int| 0 <= p < j + 1 && ids@[p] == i;
                        assert(p < j);
                    }
                }
            }
        }
        j = j + 1;
    }
    proof {
        assert forall|i: int| 0 <= i < n implies (#[trigger] mask@[i] <==> boxes_overlap(box_index_items(*t)[i], (lo, hi))) by {
            if boxes_overlap(box_index_items(*t)[i], (lo, hi)) {
                assert(ids@.contains(i as usize));
                let p = choose|p: int| 0 <= p < ids@.len() && ids@[p] == i as usize;
            }
            if mask@[i] {
                let p = choose|p: int| 0 <= p < j && ids@[p] == i;
                assert(ids@.contains(ids@[p]));
            }
        }
    }
    mask
}

} // verus!
