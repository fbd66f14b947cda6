//! Sets of layers, stored as bit sets.

use vstd::prelude::*;

use crate::layer::LayerId;

verus! {

/// A `bit_set::BitSet`, held opaquely (Verus does not take a declaration of the type
/// itself, whose parameter is bounded by an outside trait).
#[verifier::external_body]
#[derive(Debug, PartialEq, Eq, PartialOrd, Ord, Hash)]
pub struct LayerBits {
    bits: bit_set::BitSet<u32>,
}

/// The numbers that a bit set holds.
pub uninterp spec fn bitset_contents(s: LayerBits) -> Set<usize>;

/// `BitSet::new`: a set that holds nothing.
#[verifier::external_body]
fn bitset_new() -> (r: LayerBits)
    ensures
        bitset_contents(r) == Set::<usize>::empty(),
{
    LayerBits { bits: bit_set::BitSet::new() }
}

/// `BitSet::clone`: a set with the same contents.
#[verifier::external_body]
fn bitset_clone(s: &LayerBits) -> (r: LayerBits)
    ensures
        bitset_contents(r) == bitset_contents(*s),
{
    LayerBits { bits: s.bits.clone() }
}

/// `BitSet::eq`: whether the two sets hold the same numbers (it compares their iterations).
#[verifier::external_body]
fn bitset_eq(a: &LayerBits, b: &LayerBits) -> (r: bool)
    ensures
        r <==> bitset_contents(*a) == bitset_contents(*b),
{
    a.bits == b.bits
}

/// `BitSet::insert`: adds `value`, returns whether it was absent. It grows the storage to
/// `value + 1` bits, which overflows for `usize::MAX`.
#[verifier::external_body]
fn bitset_insert(s: &mut LayerBits, value: usize) -> (r: bool)
    requires
        value < usize::MAX,
    ensures
        bitset_contents(*final(s)) == bitset_contents(*old(s)).insert(value),
        r <==> !bitset_contents(*old(s)).contains(value),
    no_unwind
{
    s.bits.insert(value)
}

/// `BitSet::remove`: removes `value`, returns whether it was present.
#[verifier::external_body]
fn bitset_remove(s: &mut LayerBits, value: usize) -> (r: bool)
    ensures
        bitset_contents(*final(s)) == bitset_contents(*old(s)).remove(value),
        r <==> bitset_contents(*old(s)).contains(value),
    no_unwind
{
    s.bits.remove(value)
}

/// `BitSet::contains`.
#[verifier::external_body]
fn bitset_contains(s: &LayerBits, value: usize) -> (r: bool)
    ensures
        r <==> bitset_contents(*s).contains(value),
{
    s.bits.contains(value)
}

/// `BitSet::is_empty`.
#[verifier::external_body]
fn bitset_is_empty(s: &LayerBits) -> (r: bool)
    ensures
        r <==> bitset_contents(*s) == Set::<usize>::empty(),
{
    s.bits.is_empty()
}

/// `BitSet::union_with`.
#[verifier::external_body]
fn bitset_union_with(s: &mut LayerBits, other: &LayerBits)
    ensures
        bitset_contents(*final(s)) == bitset_contents(*old(s)).union(bitset_contents(*other)),
    no_unwind
{
    s.bits.union_with(&other.bits)
}

/// `BitSet::intersect_with`.
#[verifier::external_body]
fn bitset_intersect_with(s: &mut LayerBits, other: &LayerBits)
    ensures
        bitset_contents(*final(s)) == bitset_contents(*old(s)).intersect(bitset_contents(*other)),
    no_unwind
{
    s.bits.intersect_with(&other.bits)
}

/// `BitSet::difference_with`.
#[verifier::external_body]
fn bitset_difference_with(s: &mut LayerBits, other: &LayerBits)
    ensures
        bitset_contents(*final(s)) == bitset_contents(*old(s)).difference(bitset_contents(*other)),
    no_unwind
{
    s.bits.difference_with(&other.bits)
}

/// `BitSet::symmetric_difference_with`.
#[verifier::external_body]
fn bitset_symmetric_difference_with(s: &mut LayerBits, other: &LayerBits)
    ensures
        bitset_contents(*final(s)) == bitset_contents(*old(s)).difference(bitset_contents(*other)).union(
            bitset_contents(*other).difference(bitset_contents(*old(s))),
        ),
    no_unwind
{
    s.bits.symmetric_difference_with(&other.bits)
}

/// `BitSet::iter`, collected: the numbers of the set in increasing order.
#[verifier::external_body]
fn bitset_elements(s: &LayerBits) -> (r: Vec<usize>)
    ensures
        forall|i: int, j: int| 0 <= i < j < r@.len() ==> r@[i] < r@[j],
        forall|x: usize| bitset_contents(*s).contains(x) <==> r@.contains(x),
{
    s.bits.iter().collect()
}

/// A set of layers.
#[derive(Debug, PartialOrd, Ord)]
pub struct LayerIds(LayerBits);

impl View for LayerIds {
    type V = Set<usize>;

    closed spec fn view(&self) -> Set<usize> {
        bitset_contents(self.0)
    }
}

/// Whether every number of `s` is a layer index (and leaves room for a successor in `usize`).
pub open spec fn all_layer_indices(s: Set<usize>) -> bool {
    forall|x: usize| s.contains(x) ==> x <= u32::MAX && x < usize::MAX
}

/// Whether the integer `n` is one of the numbers of `s`.
pub open spec fn contains_index(s: Set<usize>, n: int) -> bool {
    0 <= n <= usize::MAX && s.contains(n as usize)
}

/// The layers of `v`, as numbers.
pub open spec fn layer_indices(v: Seq<LayerId>) -> Set<usize> {
    Set::new(|x: usize| exists|i: int| 0 <= i < v.len() && v[i]@ == x)
}

/// The union of the views of `v`.
pub open spec fn union_of(v: Seq<Set<usize>>) -> Set<usize> {
    Set::new(|x: usize| exists|i: int| 0 <= i < v.len() && v[i].contains(x))
}

impl LayerIds {
    /// What every set of layers keeps: each of its numbers is a layer index.
    #[verifier::type_invariant]
    pub open spec fn inv(self) -> bool {
        all_layer_indices(self@)
    }

    /// The empty set of layers.
    pub fn new() -> (r: LayerIds)
        ensures
            r@ == Set::<usize>::empty(),
    {
        LayerIds(bitset_new())
    }

    /// Adds the layer `i`.
    pub fn insert(&mut self, i: LayerId)
        requires
            i@ < usize::MAX,
        ensures
            final(self)@ == old(self)@.insert(i@ as usize),
    {
        proof {
            use_type_invariant(&*self);
        }
        bitset_insert(&mut self.0, i.to_usize());
    }

    /// Removes the layer `i`.
    pub fn remove(&mut self, i: LayerId)
        ensures
            final(self)@ == old(self)@.remove(i@ as usize),
    {
        proof {
            use_type_invariant(&*self);
        }
        bitset_remove(&mut self.0, i.to_usize());
    }

    /// Whether the layer `l` belongs to the set.
    pub fn is_on_layer(&self, l: LayerId) -> (r: bool)
        ensures
            r <==> self@.contains(l@ as usize),
    {
        bitset_contains(&self.0, l.to_usize())
    }

    /// Whether the set holds no layer.
    pub fn is_empty(&self) -> (r: bool)
        ensures
            r <==> self@ == Set::<usize>::empty(),
    {
        bitset_is_empty(&self.0)
    }

    /// The layers of the set, in increasing order.
    pub fn iter(&self) -> (r: Vec<LayerId>)
        ensures
            forall|i: int, j: int| 0 <= i < j < r@.len() ==> r@[i]@ < r@[j]@,
            layer_indices(r@) == self@,
    {
        proof {
            use_type_invariant(self);
        }
        let elems = bitset_elements(&self.0);
        let mut ret: Vec<LayerId> = Vec::new();
        let mut k: usize = 0;
        while k < elems.len()
            invariant
                k <= elems@.len(),
                ret@.len() == k,
                all_layer_indices(self@),
                forall|x: usize| self@.contains(x) <==> elems@.contains(x),
                forall|i: int, j: int| 0 <= i < j < elems@.len() ==> elems@[i] < elems@[j],
                forall|i: int| 0 <= i < k ==> ret@[i]@ == elems@[i],
            decreases elems@.len() - k,
        {
            assert(self@.contains(elems@[k as int]));
            ret.push(LayerId::from_usize(elems[k]));
            k = k + 1;
        }
        assert forall|x: usize| layer_indices(ret@).contains(x) <==> self@.contains(x) by {
            if self@.contains(x) {
                assert(elems@.contains(x));
                let i = choose|i: int| 0 <= i < elems@.len() && #[trigger] elems@[i] == x;
                assert(ret@[i]@ == x);
            }
            if layer_indices(ret@).contains(x) {
                let i = choose|i: int| 0 <= i < ret@.len() && #[trigger] ret@[i]@ == x;
                assert(elems@[i] == x);
                assert(elems@.contains(x));
            }
        }
        assert forall|i: int, j: int| 0 <= i < j < ret@.len() implies ret@[i]@ < ret@[j]@ by {
            assert(elems@[i] < elems@[j]);
        }
        assert(layer_indices(ret@) =~= self@);
        ret
    }

    /// The smallest range of numbers that holds every layer of the set, if any.
    pub fn bounding_range(&self) -> (r: Option<core::ops::Range<usize>>)
        ensures
            r is None <==> self@ == Set::<usize>::empty(),
            r matches Some(range) ==> {
                &&& self@.contains(range.start)
                &&& range.end >= 1
                &&& self@.contains((range.end - 1) as usize)
                &&& forall|x: usize| self@.contains(x) ==> range.start <= x < range.end
            },
    {
        proof {
            use_type_invariant(self);
        }
        if bitset_is_empty(&self.0) {
            None
        } else {
            let ret = bitset_elements(&self.0);
            assert(ret@.len() > 0) by {
                assert(!(self@ =~= Set::<usize>::empty()));
                let x = choose|x: usize| self@.contains(x);
                assert(ret@.contains(x));
            }
            let first = ret[0];
            let last = ret[ret.len() - 1];
            assert(ret@.contains(last));
            assert(self@.contains(last));
            assert(ret@.contains(first));
            assert forall|x: usize| self@.contains(x) implies first <= x <= last by {
                assert(ret@.contains(x));
                let i = choose|i: int| 0 <= i < ret@.len() && #[trigger] ret@[i] == x;
                if i > 0 {
                    assert(ret@[0] < ret@[i]);
                }
                if i < ret@.len() - 1 {
                    assert(ret@[i] < ret@[ret@.len() - 1]);
                }
            }
            Some(first..last + 1)
        }
    }

    /// The layers of the set that are directly below and directly above `i`, in this order.
    pub fn adjacent_layers_to(&self, i: LayerId) -> (r: Vec<LayerId>)
        ensures
            r@ == (if contains_index(self@, i@ - 1) {
                seq![LayerId((i@ - 1) as u32)]
            } else {
                Seq::<LayerId>::empty()
            }) + (if contains_index(self@, i@ + 1int) {
                seq![LayerId((i@ + 1) as u32)]
            } else {
                Seq::<LayerId>::empty()
            }),
    {
        proof {
            use_type_invariant(self);
        }
        let mut ret: Vec<LayerId> = Vec::new();
        let iu: usize = i.to_usize();

        let below = iu >= 1 && bitset_contains(&self.0, iu - 1);
        if below {
            ret.push(LayerId::from_usize(iu - 1));
        }
        let above = iu < usize::MAX && bitset_contains(&self.0, iu + 1);
        if above {
            ret.push(LayerId::from_usize(iu + 1));
        }
        let ghost s1 = if contains_index(self@, i@ - 1) {
            seq![LayerId((i@ - 1) as u32)]
        } else {
            Seq::<LayerId>::empty()
        };
        let ghost s2 = if contains_index(self@, i@ + 1int) {
            seq![LayerId((i@ + 1) as u32)]
        } else {
            Seq::<LayerId>::empty()
        };
        assert(below == contains_index(self@, i@ - 1));
        assert(above == contains_index(self@, i@ + 1int));
        assert(ret@ =~= s1 + s2);
        ret
    }

    /// The closest layers of the set strictly below and strictly above `l`, in this order.
    pub fn closest_contained_layer_to(&self, l: LayerId) -> (r: [Option<LayerId>; 2])
        ensures
            r[0] is None <==> (forall|x: usize| self@.contains(x) ==> x >= l@),
            r[0] matches Some(b) ==> b@ < l@ && self@.contains(b@ as usize) && (forall|x: usize|
                self@.contains(x) && x < l@ ==> x <= b@),
            r[1] is None <==> (forall|x: usize| self@.contains(x) ==> x <= l@),
            r[1] matches Some(a) ==> a@ > l@ && self@.contains(a@ as usize) && (forall|x: usize|
                self@.contains(x) && x > l@ ==> x >= a@),
    {
        proof {
            use_type_invariant(self);
        }
        let elems = bitset_elements(&self.0);
        let mut below: Option<LayerId> = None;
        let mut above: Option<LayerId> = None;
        let lu = l.to_usize();
        let mut k: usize = 0;
        while k < elems.len()
            invariant
                k <= elems@.len(),
                all_layer_indices(self@),
                lu == l@,
                forall|x: usize| self@.contains(x) <==> elems@.contains(x),
                forall|i: int, j: int| 0 <= i < j < elems@.len() ==> elems@[i] < elems@[j],
                below is None <==> (forall|i: int| 0 <= i < k ==> elems@[i] >= l@),
                below matches Some(b) ==> b@ < l@ && self@.contains(b@ as usize) && (forall|i: int|
                    0 <= i < k && elems@[i] < l@ ==> elems@[i] <= b@),
                above is None <==> (forall|i: int| 0 <= i < k ==> elems@[i] <= l@),
                above matches Some(a) ==> a@ > l@ && self@.contains(a@ as usize) && (forall|i: int|
                    0 <= i < k ==> elems@[i] <= l@ || elems@[i] >= a@),
            decreases elems@.len() - k,
        {
            let x = elems[k];
            assert(elems@.contains(x));
            if x < lu {
                below = Some(LayerId::from_usize(x));
            } else if x > lu && above.is_none() {
                above = Some(LayerId::from_usize(x));
            }
            k = k + 1;
        }
        proof {
            assert forall|x: usize| self@.contains(x) && x < l@ implies below matches Some(b) && x <= b@ by {
                let i = choose|i: int| 0 <= i < elems@.len() && elems@[i] == x;
            }
            assert forall|x: usize| self@.contains(x) && x > l@ implies above matches Some(a) && x >= a@ by {
                let i = choose|i: int| 0 <= i < elems@.len() && elems@[i] == x;
            }
            assert(below is None ==> forall|x: usize| self@.contains(x) ==> x >= l@);
            assert(above is None ==> forall|x: usize| self@.contains(x) ==> x <= l@);
        }
        [below, above]
    }

    /// Adds every layer of `other`.
    pub fn union_with(&mut self, other: &LayerIds)
        ensures
            final(self)@ == old(self)@.union(other@),
    {
        proof {
            use_type_invariant(&*self);
            use_type_invariant(other);
        }
        bitset_union_with(&mut self.0, &other.0);
    }

    /// Keeps only the layers that `other` holds too.
    pub fn intersect_with(&mut self, other: &LayerIds)
        ensures
            final(self)@ == old(self)@.intersect(other@),
    {
        proof {
            use_type_invariant(&*self);
        }
        bitset_intersect_with(&mut self.0, &other.0);
    }

    /// Removes every layer of `other`.
    pub fn difference_with(&mut self, other: &LayerIds)
        ensures
            final(self)@ == old(self)@.difference(other@),
    {
        proof {
            use_type_invariant(&*self);
        }
        bitset_difference_with(&mut self.0, &other.0);
    }

    /// Keeps the layers that exactly one of `self` and `other` holds.
    pub fn symmetric_difference_with(&mut self, other: &LayerIds)
        ensures
            final(self)@ == old(self)@.difference(other@).union(other@.difference(old(self)@)),
    {
        proof {
            use_type_invariant(&*self);
            use_type_invariant(other);
        }
        bitset_symmetric_difference_with(&mut self.0, &other.0);
    }

    /// The layers that both sets hold (`&`).
    pub fn intersection(&self, rhs: &LayerIds) -> (r: LayerIds)
        ensures
            r@ == self@.intersect(rhs@),
    {
        let mut r = self.clone();
        r.intersect_with(rhs);
        r
    }

    /// The layers that either set holds (`|`).
    pub fn union(&self, rhs: &LayerIds) -> (r: LayerIds)
        ensures
            r@ == self@.union(rhs@),
    {
        let mut r = self.clone();
        r.union_with(rhs);
        r
    }

    /// The layers that exactly one of the sets holds (`^`).
    pub fn symmetric_difference(&self, rhs: &LayerIds) -> (r: LayerIds)
        ensures
            r@ == self@.difference(rhs@).union(rhs@.difference(self@)),
    {
        let mut r = self.clone();
        r.symmetric_difference_with(rhs);
        r
    }

    /// Adds every layer of `layers`.
    pub fn extend_layers(&mut self, layers: &Vec<LayerId>)
        requires
            forall|i: int| 0 <= i < layers@.len() ==> layers@[i]@ < usize::MAX,
        ensures
            final(self)@ == old(self)@.union(layer_indices(layers@)),
    {
        let mut k: usize = 0;
        while k < layers.len()
            invariant
                k <= layers@.len(),
                forall|i: int| 0 <= i < layers@.len() ==> layers@[i]@ < usize::MAX,
                self@ == old(self)@.union(layer_indices(layers@.take(k as int))),
            decreases layers@.len() - k,
        {
            self.insert(layers[k]);
            proof {
                let t0 = layers@.take(k as int);
                let t1 = layers@.take(k + 1);
                let y = layers@[k as int]@ as usize;
                assert forall|x: usize| layer_indices(t1).contains(x) implies layer_indices(t0).insert(y).contains(x) by {
                    let i = choose|i: int| 0 <= i < t1.len() && #[trigger] t1[i]@ == x;
                    if i < k {
                        assert(t0[i]@ == x);
                    }
                }
                assert forall|x: usize| layer_indices(t0).insert(y).contains(x) implies layer_indices(t1).contains(x) by {
                    if x == y {
                        assert(t1[k as int]@ == x);
                    } else {
                        let i = choose|i: int| 0 <= i < t0.len() && #[trigger] t0[i]@ == x;
                        assert(t1[i]@ == x);
                    }
                }
                assert(layer_indices(t1) =~= layer_indices(t0).insert(y));
            }
            k = k + 1;
        }
        assert(layers@.take(layers@.len() as int) =~= layers@);
        assert(self@ =~= old(self)@.union(layer_indices(layers@)));
    }

    /// Adds every layer of every set of `sets`.
    pub fn extend_sets(&mut self, sets: &Vec<LayerIds>)
        ensures
            final(self)@ == old(self)@.union(union_of(sets@.map_values(|s: LayerIds| s@))),
    {
        let mut k: usize = 0;
        while k < sets.len()
            invariant
                k <= sets@.len(),
                self@ == old(self)@.union(union_of(sets@.take(k as int).map_values(|s: LayerIds| s@))),
            decreases sets@.len() - k,
        {
            self.union_with(&sets[k]);
            assert(union_of(sets@.take(k + 1).map_values(|s: LayerIds| s@)) =~= union_of(
                sets@.take(k as int).map_values(|s: LayerIds| s@),
            ).union(sets@[k as int]@)) by {
                let a = sets@.take(k + 1).map_values(|s: LayerIds| s@);
                let b = sets@.take(k as int).map_values(|s: LayerIds| s@);
                assert forall|x: usize| union_of(a).contains(x) implies union_of(b).union(sets@[k as int]@).contains(x) by {
                    let i = choose|i: int| 0 <= i < a.len() && a[i].contains(x);
                    if i < k {
                        assert(b[i] == a[i]);
                    }
                }
                assert forall|x: usize| union_of(b).union(sets@[k as int]@).contains(x) implies union_of(a).contains(x) by {
                    if sets@[k as int]@.contains(x) {
                        assert(a[k as int].contains(x));
                    } else {
                        let i = choose|i: int| 0 <= i < b.len() && b[i].contains(x);
                        assert(a[i] == b[i]);
                    }
                }
            }
            k = k + 1;
        }
        assert(sets@.take(sets@.len() as int) =~= sets@);
        assert(self@ =~= old(self)@.union(union_of(sets@.map_values(|s: LayerIds| s@))));
    }

    /// The set of the layers of `layers`.
    pub fn from_layers(layers: &Vec<LayerId>) -> (r: LayerIds)
        requires
            forall|i: int| 0 <= i < layers@.len() ==> layers@[i]@ < usize::MAX,
        ensures
            r@ == layer_indices(layers@),
    {
        let mut this = LayerIds::new();
        this.extend_layers(layers);
        assert(this@ =~= layer_indices(layers@));
        this
    }

    /// The union of the sets of `sets`.
    pub fn from_sets(sets: &Vec<LayerIds>) -> (r: LayerIds)
        ensures
            r@ == union_of(sets@.map_values(|s: LayerIds| s@)),
    {
        let mut this = LayerIds::new();
        this.extend_sets(sets);
        assert(this@ =~= union_of(sets@.map_values(|s: LayerIds| s@)));
        this
    }
}

impl Clone for LayerIds {
    fn clone(&self) -> (r: Self)
        ensures
            r@ == self@,
    {
        proof {
            use_type_invariant(self);
        }
        LayerIds(bitset_clone(&self.0))
    }
}

impl Default for LayerIds {
    fn default() -> (r: Self)
        ensures
            r@ == Set::<usize>::empty(),
    {
        LayerIds::new()
    }
}

impl PartialEq for LayerIds {
    fn eq(&self, other: &Self) -> (r: bool) {
        bitset_eq(&self.0, &other.0)
    }
}

impl Eq for LayerIds {}

impl vstd::std_specs::cmp::PartialEqSpecImpl for LayerIds {
    open spec fn obeys_eq_spec() -> bool {
        true
    }

    open spec fn eq_spec(&self, other: &Self) -> bool {
        self@ == other@
    }
}

/// Something that stands on a set of layers.
pub trait GetLayerIds {
    /// The layers, as numbers.
    spec fn spec_layers(&self) -> Set<usize>;

    /// Whether the layers can be collected into a [`LayerIds`].
    spec fn layers_ok(&self) -> bool;

    fn layers(&self) -> (r: LayerIds)
        requires
            self.layers_ok(),
        ensures
            r@ == self.spec_layers(),
    ;
}

impl GetLayerIds for LayerId {
    open spec fn spec_layers(&self) -> Set<usize> {
        set![self@ as usize]
    }

    open spec fn layers_ok(&self) -> bool {
        self@ < usize::MAX
    }

    fn layers(&self) -> (r: LayerIds) {
        let mut ret = LayerIds::new();
        ret.insert(*self);
        ret
    }
}

impl GetLayerIds for LayerIds {
    open spec fn spec_layers(&self) -> Set<usize> {
        self@
    }

    open spec fn layers_ok(&self) -> bool {
        true
    }

    fn layers(&self) -> (r: LayerIds) {
        self.clone()
    }
}

/// The set operations agree with each other: `a & b` is in `a | b`, `a ^ b` is `a | b`
/// without `a & b`, and each operation is commutative.
pub proof fn lemma_set_operations(a: Set<usize>, b: Set<usize>)
    ensures
        a.intersect(b).subset_of(a.union(b)),
        a.difference(b).union(b.difference(a)) == a.union(b).difference(a.intersect(b)),
        a.intersect(b) == b.intersect(a),
        a.union(b) == b.union(a),
        a.difference(b).union(b.difference(a)) == b.difference(a).union(a.difference(b)),
{
    assert(a.difference(b).union(b.difference(a)) =~= a.union(b).difference(a.intersect(b)));
    assert(a.intersect(b) =~= b.intersect(a));
    assert(a.union(b) =~= b.union(a));
    assert(a.difference(b).union(b.difference(a)) =~= b.difference(a).union(a.difference(b)));
}

} // verus!
