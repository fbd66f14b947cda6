//! A* search over the faces of a multi-layer navigation mesh, with the funnel algorithm
//! giving the any-angle path through the faces found.
//!
//! The search visits nodes (a face on a layer). The score of a node is the length of the
//! funnelled path from a start vertex to it, plus a penalty for each change of layer;
//! lengths are measured with a [`PointNorm`] and compared exactly.

use vstd::prelude::*;
use vstd::multiset::Multiset;

use crate::flat::layer::{all_layer_indices, contains_index};
use crate::flat::tesselation::strictly_increasing;
use crate::flat::{LayerIds, MultiLayerNavmesh, Topo2DComplex};
use crate::funnel::{
    abs, funnel_fpoints, funnel_points, funnel_ready, funnel_state, funnel_wf, lemma_run_bounded, spec_run, within_span,
    FPoint, FState, SimpleFunnel,
};
use crate::math::diagonal_taxicab::{
    add_in_range, lemma_norm_order_antisymmetric, lemma_norm_order_transitive, norm_lt, spec_add, spec_norm,
    DiagonalTaxicabNorm,
};
use crate::math::{isqrt, spec_isqrt, CheckedAdd};
use crate::LayerId;

verus! {

/// A node of a path from source to sink: a vertex or a face, on a layer.
#[derive(Clone, Copy, Debug, PartialEq, Eq, PartialOrd, Ord, Hash, Structural)]
pub struct Node<T> {
    pub fixed: T,
    pub layer: LayerId,
}

/// The start or the end of a search: a set of vertices, usable on a set of layers. The
/// search takes the vertices in increasing order, without repeats (see [`astar`]).
#[derive(Clone, Debug, PartialEq, Eq)]
pub struct Endpoint<T> {
    pub fixed: Vec<T>,
    pub layers: LayerIds,
}

/// One step of a path from source to sink, with explicit layer transitions.
#[derive(Clone, Copy, Debug, PartialEq, Eq, Structural)]
pub enum FunnelEntry<V> {
    Point(Node<V>),
    LayerTransition(LayerId, LayerId),
}

/// A length, as measured by a [`PointNorm`].
pub type Score = DiagonalTaxicabNorm<i32>;

/// How the length of a segment is measured, from the difference of its end points.
pub trait PointNorm {
    /// The length of a segment whose end points differ by `v`.
    spec fn spec_point_norm(&self, v: [i32; 2]) -> Score;

    /// The length of a segment whose end points differ by `v`.
    fn point_norm(&self, v: &[i32; 2]) -> (r: Score)
        requires
            v[0] != i32::MIN,
            v[1] != i32::MIN,
        ensures
            r == self.spec_point_norm(*v),
    ;
}

/// Lengths measured with the diagonal taxicab norm.
#[derive(Clone, Copy, Debug, Default, PartialEq, Eq)]
pub struct DiagonalTaxicab;

impl PointNorm for DiagonalTaxicab {
    open spec fn spec_point_norm(&self, v: [i32; 2]) -> Score {
        spec_norm(v)
    }

    fn point_norm(&self, v: &[i32; 2]) -> (r: Score) {
        match DiagonalTaxicabNorm::new(*v) {
            Some(n) => n,
            None => DiagonalTaxicabNorm::zero(),
        }
    }
}

/// Lengths measured with the Euclidean norm, rounded down to an integer (at most
/// `i32::MAX`) and counted along the axes.
#[derive(Clone, Copy, Debug, Default, PartialEq, Eq)]
pub struct Euclidean;

/// The Euclidean length of `v` rounded down, at most `i32::MAX`.
pub open spec fn spec_euclidean_length(v: [i32; 2]) -> int {
    let s = spec_isqrt((v[0] * v[0] + v[1] * v[1]) as nat);
    if s <= i32::MAX {
        s as int
    } else {
        i32::MAX as int
    }
}

impl PointNorm for Euclidean {
    open spec fn spec_point_norm(&self, v: [i32; 2]) -> Score {
        DiagonalTaxicabNorm { along_axis: spec_euclidean_length(v) as i32, diagonal: 0 }
    }

    fn point_norm(&self, v: &[i32; 2]) -> (r: Score) {
        let (x, y) = (v[0] as i64, v[1] as i64);
        assert(0 <= x * x <= 0x3fff_ffff_0000_0001) by (nonlinear_arith)
            requires -0x8000_0000 < x < 0x8000_0000;
        assert(0 <= y * y <= 0x3fff_ffff_0000_0001) by (nonlinear_arith)
            requires -0x8000_0000 < y < 0x8000_0000;
        let s = isqrt((x * x + y * y) as u64);
        let along_axis: i32 = if s <= 0x7fff_ffff { s as i32 } else { i32::MAX };
        DiagonalTaxicabNorm { along_axis, diagonal: 0 }
    }
}

/// What the best paths are keyed by: a face, or (for the first node of a path) a vertex.
#[derive(Clone, Copy, Debug, PartialEq, Eq, PartialOrd, Ord, Structural)]
pub enum BestPathKey<F, V> {
    Face(F),
    Vertex(V),
}

/// A node of the best paths.
pub type PathNode = Node<BestPathKey<u32, u32>>;

/// A node with a score: in the best paths, the node it was reached from; in the open
/// set, the node to visit.
#[derive(Clone, Copy, Debug)]
pub struct Entry<K> {
    pub score: Score,
    pub key: Node<K>,
}

/// The face node `n` as a node of the best paths.
pub open spec fn face_node(n: Node<u32>) -> PathNode {
    Node { fixed: BestPathKey::Face(n.fixed), layer: n.layer }
}

/// Whether `a` comes before `b` in the order of nodes (by face, then by layer).
pub open spec fn node_lt(a: Node<u32>, b: Node<u32>) -> bool {
    a.fixed < b.fixed || (a.fixed == b.fixed && a.layer@ < b.layer@)
}

/// Whether the open-set entry `a` is visited before `b`: it has the lower score, or the
/// same score and the greater node.
pub open spec fn entry_gt(a: Entry<u32>, b: Entry<u32>) -> bool {
    norm_lt(a.score, b.score) || (a.score == b.score && node_lt(b.key, a.key))
}

/// The order of visits is a strict total order on entries.
pub proof fn lemma_entry_order(a: Entry<u32>, b: Entry<u32>, c: Entry<u32>)
    ensures
        !entry_gt(a, a),
        entry_gt(a, b) ==> !entry_gt(b, a),
        a != b ==> entry_gt(a, b) || entry_gt(b, a),
        entry_gt(a, b) && entry_gt(b, c) ==> entry_gt(a, c),
{
    lemma_norm_order_antisymmetric(a.score, b.score);
    lemma_norm_order_antisymmetric(b.score, c.score);
    lemma_norm_order_antisymmetric(a.score, c.score);
    lemma_norm_order_antisymmetric(a.score, a.score);
    if norm_lt(a.score, b.score) && norm_lt(b.score, c.score) {
        lemma_norm_order_transitive(a.score, b.score, c.score);
    }
    if a != b && a.score == b.score {
        assert(a.key != b.key);
        assert(node_lt(a.key, b.key) || node_lt(b.key, a.key));
    }
}

// ---------------------------------------------------------------------------------------
// Best paths: for each node reached, the node it was best reached from, with the score.

/// The map of the association list `s` (a later pair overrides an earlier one).
pub open spec fn assoc_map<K, V>(s: Seq<(K, V)>) -> Map<K, V>
    decreases s.len(),
{
    if s.len() == 0 {
        Map::empty()
    } else {
        assoc_map(s.drop_last()).insert(s.last().0, s.last().1)
    }
}

/// Whether no key occurs twice in `s`.
pub open spec fn keys_unique<K, V>(s: Seq<(K, V)>) -> bool {
    forall|i: int, j: int| 0 <= i < j < s.len() ==> #[trigger] s[i].0 != #[trigger] s[j].0
}

/// With unique keys, the map of an association list holds exactly its pairs.
proof fn lemma_assoc_map<K, V>(s: Seq<(K, V)>)
    requires
        keys_unique(s),
    ensures
        forall|k: K| #[trigger] assoc_map(s).contains_key(k) <==> exists|i: int| 0 <= i < s.len() && s[i].0 == k,
        forall|i: int| 0 <= i < s.len() ==> #[trigger] assoc_map(s)[s[i].0] == s[i].1,
        assoc_map(s).dom().finite(),
        assoc_map(s).dom().len() == s.len(),
    decreases s.len(),
{
    if s.len() > 0 {
        let t = s.drop_last();
        assert(keys_unique(t));
        lemma_assoc_map(t);
        assert forall|k: K| #[trigger] assoc_map(s).contains_key(k) <==> exists|i: int| 0 <= i < s.len() && s[i].0 == k by {
            if assoc_map(s).contains_key(k) && k != s.last().0 {
                let i = choose|i: int| 0 <= i < t.len() && t[i].0 == k;
                assert(s[i].0 == k);
            }
            if exists|i: int| 0 <= i < s.len() && s[i].0 == k {
                let i = choose|i: int| 0 <= i < s.len() && s[i].0 == k;
                if i < t.len() {
                    assert(t[i].0 == k);
                }
            }
        }
        assert forall|i: int| 0 <= i < s.len() implies #[trigger] assoc_map(s)[s[i].0] == s[i].1 by {
            if i < t.len() {
                assert(t[i] == s[i]);
                assert(s[i].0 != s.last().0);
            }
        }
        assert(!assoc_map(t).contains_key(s.last().0)) by {
            if assoc_map(t).contains_key(s.last().0) {
                let i = choose|i: int| 0 <= i < t.len() && t[i].0 == s.last().0;
                assert(s[i].0 == s[s.len() - 1].0);
            }
        }
    }
}

/// The best paths found so far.
pub struct BestPaths {
    pub entries: Vec<(PathNode, Entry<BestPathKey<u32, u32>>)>,
}

impl BestPaths {
    /// The map from each node reached to the node it was best reached from.
    pub open spec fn map(&self) -> Map<PathNode, Entry<BestPathKey<u32, u32>>> {
        assoc_map(self.entries@)
    }

    /// Whether no node occurs twice.
    pub open spec fn wf(&self) -> bool {
        keys_unique(self.entries@)
    }

    /// No best paths.
    pub fn new() -> (r: Self)
        ensures
            r.wf(),
            r.map() == Map::<PathNode, Entry<BestPathKey<u32, u32>>>::empty(),
    {
        BestPaths { entries: Vec::new() }
    }

    /// The position of node `k` in the list, if it is there.
    fn position(&self, k: &PathNode) -> (r: Option<usize>)
        requires
            self.wf(),
        ensures
            r is None <==> !self.map().contains_key(*k),
            r matches Some(i) ==> i < self.entries@.len() && self.entries@[i as int].0 == *k,
    {
        proof {
            lemma_assoc_map(self.entries@);
        }
        let mut i: usize = 0;
        while i < self.entries.len()
            invariant
                self.wf(),
                i <= self.entries@.len(),
                forall|j: int| 0 <= j < i ==> self.entries@[j].0 != *k,
            decreases self.entries@.len() - i,
        {
            if self.entries[i].0 == *k {
                proof {
                    lemma_assoc_map(self.entries@);
                    assert(self.entries@[i as int].0 == *k);
                }
                return Some(i);
            }
            i = i + 1;
        }
        None
    }

    /// The entry of node `k`, if any.
    pub fn get(&self, k: &PathNode) -> (r: Option<Entry<BestPathKey<u32, u32>>>)
        requires
            self.wf(),
        ensures
            r == (if self.map().contains_key(*k) { Some(self.map()[*k]) } else { None }),
    {
        proof {
            lemma_assoc_map(self.entries@);
        }
        match self.position(k) {
            Some(i) => Some(self.entries[i].1),
            None => None,
        }
    }

    /// Sets the entry of node `k`.
    pub fn insert(&mut self, k: PathNode, v: Entry<BestPathKey<u32, u32>>)
        requires
            old(self).wf(),
        ensures
            final(self).wf(),
            final(self).map() == old(self).map().insert(k, v),
    {
        proof {
            lemma_assoc_map(self.entries@);
        }
        match self.position(&k) {
            Some(i) => {
                let ghost s0 = self.entries@;
                self.entries.set(i, (k, v));
                proof {
                    let s1 = self.entries@;
                    assert(keys_unique(s1)) by {
                        assert forall|a: int, b: int| 0 <= a < b < s1.len() implies #[trigger] s1[a].0 != #[trigger] s1[b].0 by {
                            assert(s1[a].0 == s0[a].0);
                            assert(s1[b].0 == s0[b].0);
                        }
                    }
                    lemma_assoc_map(s1);
                    assert forall|q: PathNode| #[trigger] assoc_map(s1).contains_key(q) <==> assoc_map(s0).insert(k, v).contains_key(q) by {
                        if exists|j: int| 0 <= j < s1.len() && s1[j].0 == q {
                            let j = choose|j: int| 0 <= j < s1.len() && s1[j].0 == q;
                            assert(s0[j].0 == q);
                        }
                        if exists|j: int| 0 <= j < s0.len() && s0[j].0 == q {
                            let j = choose|j: int| 0 <= j < s0.len() && s0[j].0 == q;
                            assert(s1[j].0 == q);
                        }
                    }
                    assert forall|q: PathNode| #[trigger] assoc_map(s1).contains_key(q) implies assoc_map(s1)[q] == assoc_map(s0).insert(k, v)[q] by {
                        let j = choose|j: int| 0 <= j < s1.len() && s1[j].0 == q;
                        assert(assoc_map(s1)[s1[j].0] == s1[j].1);
                        if j != i {
                            assert(s0[j] == s1[j]);
                            assert(assoc_map(s0)[s0[j].0] == s0[j].1);
                        }
                    }
                    assert(assoc_map(s1) =~= assoc_map(s0).insert(k, v));
                }
            },
            None => {
                let ghost s0 = self.entries@;
                self.entries.push((k, v));
                proof {
                    let s1 = self.entries@;
                    assert(s1.drop_last() == s0);
                    assert forall|a: int, b: int| 0 <= a < b < s1.len() implies #[trigger] s1[a].0 != #[trigger] s1[b].0 by {
                        if b == s0.len() {
                            assert(s0[a].0 == s1[a].0);
                            assert(assoc_map(s0).contains_key(s0[a].0));
                        } else {
                            assert(s0[a] == s1[a]);
                            assert(s0[b] == s1[b]);
                        }
                    }
                }
            },
        }
    }

    /// The nodes from the start of the best path to `current` down to `current`: each node
    /// is where the next one was reached from, and the first has no entry (see
    /// [`up_chain`]).
    pub fn reconstruct_path(&self, current: &PathNode) -> (r: Vec<PathNode>)
        requires
            self.wf(),
        ensures
            r@ == up_chain(self.map(), *current, self.entries@.len() as nat).reverse(),
    {
        let ghost m = self.map();
        let ghost fuel0 = self.entries@.len() as nat;
        let mut cur: PathNode = *current;
        let mut ret: Vec<PathNode> = Vec::new();
        ret.push(cur);
        let mut fuel: usize = self.entries.len();
        assert(ret@ + up_chain(m, cur, fuel as nat).drop_first() =~= up_chain(m, *current, fuel0));
        loop
            invariant
                self.wf(),
                m == self.map(),
                ret@.len() >= 1,
                ret@.last() == cur,
                ret@ + up_chain(m, cur, fuel as nat).drop_first() == up_chain(m, *current, fuel0),
            ensures
                ret@ == up_chain(m, *current, fuel0),
            decreases fuel,
        {
            if fuel == 0 {
                assert(up_chain(m, cur, 0).drop_first() =~= Seq::<PathNode>::empty());
                assert(ret@ =~= ret@ + Seq::<PathNode>::empty());
                break;
            }
            match self.get(&cur) {
                None => {
                    assert(up_chain(m, cur, fuel as nat).drop_first() =~= Seq::<PathNode>::empty());
                    assert(ret@ =~= ret@ + Seq::<PathNode>::empty());
                    break;
                },
                Some(e) => {
                    let ghost before = ret@;
                    let ghost rest = up_chain(m, e.key, (fuel - 1) as nat);
                    assert(up_chain(m, cur, fuel as nat) == seq![cur] + rest);
                    assert(rest[0] == e.key);
                    cur = e.key;
                    ret.push(cur);
                    fuel = fuel - 1;
                    assert(ret@ + up_chain(m, cur, fuel as nat).drop_first() =~= before + (seq![cur] + rest).drop_first().drop_first().insert(0, cur));
                    assert((seq![cur] + rest).drop_first() =~= rest);
                    assert(rest =~= seq![e.key] + rest.drop_first());
                },
            }
        }
        let mut out: Vec<PathNode> = Vec::new();
        let mut k: usize = ret.len();
        while k > 0
            invariant
                k <= ret@.len(),
                out@ == ret@.subrange(k as int, ret@.len() as int).reverse(),
            decreases k,
        {
            k = k - 1;
            out.push(ret[k]);
            assert(out@ =~= ret@.subrange(k as int, ret@.len() as int).reverse());
        }
        assert(ret@.subrange(0, ret@.len() as int) =~= ret@);
        out
    }
}

/// The chain of nodes from `cur` up through the nodes each was reached from, following at
/// most `fuel` entries.
pub open spec fn up_chain(m: Map<PathNode, Entry<BestPathKey<u32, u32>>>, cur: PathNode, fuel: nat) -> Seq<PathNode>
    decreases fuel,
{
    if fuel == 0 || !m.contains_key(cur) {
        seq![cur]
    } else {
        seq![cur] + up_chain(m, m[cur].key, (fuel - 1) as nat)
    }
}

// ---------------------------------------------------------------------------------------
// The open set: the nodes still to visit, the one with the lowest score first.

/// The open set, as a list in no particular order.
pub struct OpenSet {
    pub items: Vec<Entry<u32>>,
}

impl OpenSet {
    /// The empty open set.
    pub fn new() -> (r: Self)
        ensures
            r.items@ == Seq::<Entry<u32>>::empty(),
    {
        OpenSet { items: Vec::new() }
    }

    /// Adds an entry.
    pub fn push(&mut self, e: Entry<u32>)
        ensures
            final(self).items@ == old(self).items@.push(e),
    {
        self.items.push(e);
    }

    /// Removes and returns the entry visited first: the one that no other entry is
    /// visited before (see [`entry_gt`]).
    pub fn pop(&mut self) -> (r: Option<Entry<u32>>)
        ensures
            r is None <==> old(self).items@.len() == 0,
            r is None ==> final(self).items@ == old(self).items@,
            r matches Some(e) ==> {
                &&& old(self).items@.contains(e)
                &&& final(self).items@.to_multiset() == old(self).items@.to_multiset().remove(e)
                &&& forall|x: Entry<u32>| old(self).items@.contains(x) ==> !entry_gt(x, e)
            },
    {
        if self.items.len() == 0 {
            return None;
        }
        let mut best: usize = 0;
        let mut i: usize = 1;
        while i < self.items.len()
            invariant
                1 <= i <= self.items@.len(),
                best < i,
                forall|j: int| 0 <= j < i ==> !entry_gt(#[trigger] self.items@[j], self.items@[best as int]),
            decreases self.items@.len() - i,
        {
            let a = self.items[i];
            let b = self.items[best];
            let better = if a.score.less_than(&b.score) {
                true
            } else if a.score == b.score {
                b.key.fixed < a.key.fixed || (b.key.fixed == a.key.fixed && b.key.layer.0 < a.key.layer.0)
            } else {
                false
            };
            if better {
                proof {
                    assert forall|j: int| 0 <= j < i + 1 implies !entry_gt(#[trigger] self.items@[j], self.items@[i as int]) by {
                        lemma_entry_order(self.items@[j], self.items@[i as int], self.items@[best as int]);
                        lemma_entry_order(self.items@[i as int], self.items@[i as int], self.items@[i as int]);
                    }
                }
                best = i;
            } else {
                proof {
                    lemma_entry_order(a, b, b);
                }
            }
            i = i + 1;
        }
        let ghost s0 = self.items@;
        let e = self.items.remove(best);
        proof {
            broadcast use vstd::seq_lib::group_to_multiset_ensures;
            assert(s0.remove(best as int).to_multiset() == s0.to_multiset().remove(s0[best as int]));
            assert forall|x: Entry<u32>| s0.contains(x) implies !entry_gt(x, e) by {
                let j = choose|j: int| 0 <= j < s0.len() && s0[j] == x;
                assert(!entry_gt(s0[j], s0[best as int]));
            }
            assert(s0.contains(e)) by {
                assert(s0[best as int] == e);
            }
        }
        Some(e)
    }
}

// ---------------------------------------------------------------------------------------
// The environment of a search, and the funnelled path to a node.

/// What stays the same during a search.
pub struct Environment<'a, T, N> {
    pub mesh: &'a T,
    pub point_norm: N,
    pub final_end: Endpoint<u32>,
    pub epsilon: i32,
    pub layer_transition_penality: Score,
}

/// The positions of the vertices of `mesh`.
pub open spec fn mesh_points<T: Topo2DComplex>(mesh: &T) -> Set<[i32; 2]> {
    Set::new(|p: [i32; 2]| exists|v: u32| v < mesh.num_vertices() && #[trigger] mesh.spec_vertex_position(v) == p)
}

/// Whether the point `p` is a vertex of `mesh`, at its position.
pub open spec fn vertex_fpoint<T: Topo2DComplex>(mesh: &T, p: FPoint<Node<u32>>) -> bool {
    p.1.fixed < mesh.num_vertices() && p.0 == mesh.spec_vertex_position(p.1.fixed)
}

/// Whether every point of the funnel `st` is a vertex of `mesh`, at its position.
pub open spec fn fpoints_valid<T: Topo2DComplex>(mesh: &T, st: FState<Node<u32>>) -> bool {
    forall|p: FPoint<Node<u32>>| #[trigger] funnel_fpoints(st).contains(p) ==> vertex_fpoint(mesh, p)
}

/// Whether the node `n` names a vertex or a face of `mesh`.
pub open spec fn valid_path_node<T: Topo2DComplex>(mesh: &T, n: PathNode) -> bool {
    match n.fixed {
        BestPathKey::Face(f) => f < mesh.num_faces(),
        BestPathKey::Vertex(v) => v < mesh.num_vertices(),
    }
}

/// Whether the best paths name only vertices and faces of `mesh`.
pub open spec fn paths_valid<T: Topo2DComplex>(mesh: &T, m: Map<PathNode, Entry<BestPathKey<u32, u32>>>) -> bool {
    forall|k: PathNode| #[trigger] m.contains_key(k) ==> valid_path_node(mesh, k) && valid_path_node(mesh, m[k].key)
}

/// The zero score.
pub open spec fn zero_score() -> Score {
    DiagonalTaxicabNorm { along_axis: 0, diagonal: 0 }
}

/// The sum of `terms` added one by one to `acc` from the first on, or `None` as soon as a
/// sum leaves the range of `i32`.
pub open spec fn checked_sum(acc: Option<Score>, terms: Seq<Score>) -> Option<Score>
    decreases terms.len(),
{
    if terms.len() == 0 {
        acc
    } else {
        match checked_sum(acc, terms.drop_last()) {
            None => None,
            Some(s) => if add_in_range(s, terms.last()) {
                Some(spec_add(s, terms.last()))
            } else {
                None
            },
        }
    }
}

/// The difference `a - b` of two points, in `i32`.
pub open spec fn spec_delta32(a: [i32; 2], b: [i32; 2]) -> [i32; 2] {
    [(a[0] - b[0]) as i32, (a[1] - b[1]) as i32]
}

/// The steps `Point` of the data of the points `s`.
pub open spec fn points_of(s: Seq<FPoint<Node<u32>>>) -> Seq<FunnelEntry<u32>> {
    s.map_values(|a: FPoint<Node<u32>>| FunnelEntry::Point(a.1))
}

/// The best path to `end`: the nodes from a start to `end`. With `intermed`, the best path
/// to `intermed` followed by `end`, or `None` when that path already passes `end`.
pub open spec fn spec_best_path(
    m: Map<PathNode, Entry<BestPathKey<u32, u32>>>,
    intermed: Option<Node<u32>>,
    end: Node<u32>,
) -> Option<Seq<PathNode>> {
    match intermed {
        None => Some(up_chain(m, face_node(end), m.dom().len()).reverse()),
        Some(i) => {
            let p = up_chain(m, face_node(i), m.dom().len()).reverse();
            if p.contains(face_node(end)) {
                None
            } else {
                Some(p.push(face_node(end)))
            }
        },
    }
}

/// The node `n` without the tag that says whether it is a vertex or a face.
pub open spec fn untag(n: PathNode) -> Node<u32> {
    match n.fixed {
        BestPathKey::Face(f) => Node { fixed: f, layer: n.layer },
        BestPathKey::Vertex(v) => Node { fixed: v, layer: n.layer },
    }
}

/// Whether `n` is a vertex node.
pub open spec fn is_vertex_node(n: PathNode) -> bool {
    n.fixed is Vertex
}

/// A best path split into its start vertex and the faces after it; `None` unless it starts
/// at a vertex, goes on through faces only, and does not change layer on its first step.
pub open spec fn split_path(p: Seq<PathNode>) -> Option<(Node<u32>, Seq<Node<u32>>)> {
    if p.len() < 2 || !is_vertex_node(p[0]) || p[0].layer != p[1].layer {
        None
    } else if exists|i: int| 1 <= i < p.len() && #[trigger] is_vertex_node(p[i]) {
        None
    } else {
        Some((untag(p[0]), p.drop_first().map_values(|n: PathNode| untag(n))))
    }
}

/// The portal `p` of `mesh` as funnel points on layer `layer`.
pub open spec fn portal_fpoints<T: Topo2DComplex>(mesh: &T, p: [u32; 2], layer: LayerId) -> [FPoint<Node<u32>>; 2] {
    [
        (mesh.spec_vertex_position(p[0]), Node { fixed: p[0], layer }),
        (mesh.spec_vertex_position(p[1]), Node { fixed: p[1], layer }),
    ]
}

/// The portals and the layer transitions met along the faces `faces` from step `k` on
/// (a step goes from `faces[k]` to `faces[k + 1]`); `None` if a step changes both face and
/// layer, or neither, or goes between faces without a portal.
pub open spec fn spec_walk<T: Topo2DComplex>(mesh: &T, faces: Seq<Node<u32>>, k: int) -> Option<
    (Seq<[FPoint<Node<u32>>; 2]>, Seq<FunnelEntry<u32>>),
>
    decreases faces.len() - k,
{
    if k < 0 || k + 1 >= faces.len() {
        Some((Seq::empty(), Seq::empty()))
    } else {
        let i = faces[k];
        let j = faces[k + 1];
        let rest = spec_walk(mesh, faces, k + 1);
        if (i.layer == j.layer) == (i.fixed == j.fixed) {
            None
        } else if i.layer != j.layer {
            match rest {
                Some((ps, es)) => Some((ps, seq![FunnelEntry::LayerTransition(i.layer, j.layer)] + es)),
                None => None,
            }
        } else {
            match (mesh.spec_portal_between(i.fixed, j.fixed), rest) {
                (Some(p), Some((ps, es))) => Some((seq![portal_fpoints(mesh, p, j.layer)] + ps, es)),
                _ => None,
            }
        }
    }
}

/// A new funnel at the vertex `start`, with the portals `portals` to pass.
pub open spec fn start_state<T: Topo2DComplex>(mesh: &T, start: Node<u32>, portals: Seq<[FPoint<Node<u32>>; 2]>) -> FState<Node<u32>> {
    let a = mesh.spec_vertex_position(start.fixed);
    ((a, start), (a, start, 0usize), (a, start, 0usize), portals)
}

/// Whether `b` is the closest layer of `s` strictly below layer `l`.
pub open spec fn closest_below(s: Set<usize>, l: nat, b: usize) -> bool {
    s.contains(b) && b < l && forall|x: usize| s.contains(x) && x < l ==> x <= b
}

/// Whether `a` is the closest layer of `s` strictly above layer `l`.
pub open spec fn closest_above(s: Set<usize>, l: nat, a: usize) -> bool {
    s.contains(a) && a > l && forall|x: usize| s.contains(x) && x > l ==> x >= a
}

/// The layer transitions going down one layer at a time from `from` to `to`.
pub open spec fn steps_down(from: int, to: int) -> Seq<FunnelEntry<u32>>
    decreases from - to,
{
    if from <= to {
        Seq::empty()
    } else {
        seq![FunnelEntry::LayerTransition(LayerId(from as u32), LayerId((from - 1) as u32))] + steps_down(from - 1, to)
    }
}

/// The layer transitions going up one layer at a time from `from` to `to`.
pub open spec fn steps_up(from: int, to: int) -> Seq<FunnelEntry<u32>>
    decreases to - from,
{
    if from >= to {
        Seq::empty()
    } else {
        seq![FunnelEntry::LayerTransition(LayerId(from as u32), LayerId((from + 1) as u32))] + steps_up(from + 1, to)
    }
}

/// How a path ending on layer `l` reaches a layer of `s`: nothing to do if `l` is in `s`;
/// else down to the closest layer below, or else up to the closest layer above; `None` if
/// `s` is empty.
pub open spec fn spec_layer_walk(s: Set<usize>, l: LayerId) -> Option<(Seq<FunnelEntry<u32>>, LayerId)> {
    if s.contains(l@ as usize) {
        Some((Seq::empty(), l))
    } else if exists|b: usize| closest_below(s, l@, b) {
        let b = choose|b: usize| closest_below(s, l@, b);
        Some((steps_down(l@ as int, b as int), LayerId(b as u32)))
    } else if exists|a: usize| closest_above(s, l@, a) {
        let a = choose|a: usize| closest_above(s, l@, a);
        Some((steps_up(l@ as int, a as int), LayerId(a as u32)))
    } else {
        None
    }
}

/// The lengths of the segments of the polyline `ps`, measured with `norm`.
pub open spec fn path_terms<N: PointNorm>(norm: N, ps: Seq<[i32; 2]>) -> Seq<Score> {
    Seq::new((if ps.len() == 0 { 0 } else { ps.len() - 1 }) as nat, |i: int| norm.spec_point_norm(spec_delta32(ps[i], ps[i + 1])))
}

/// The better of two candidate ends: the second only when it is strictly shorter.
pub open spec fn better_end(
    b: Option<(Score, Seq<FPoint<Node<u32>>>, Node<u32>)>,
    c: Option<(Score, Seq<FPoint<Node<u32>>>, Node<u32>)>,
) -> Option<(Score, Seq<FPoint<Node<u32>>>, Node<u32>)> {
    match (b, c) {
        (None, c) => c,
        (Some(b), None) => Some(b),
        (Some(b), Some(c)) => if norm_lt(c.0, b.0) {
            Some(c)
        } else {
            Some(b)
        },
    }
}

/// The positions of the points `s`.
pub open spec fn positions_of(s: Seq<FPoint<Node<u32>>>) -> Seq<[i32; 2]> {
    s.map_values(|a: FPoint<Node<u32>>| a.0)
}

/// The positions of the data of the steps `Point` of `s`, in order.
pub open spec fn entry_points(s: Seq<FunnelEntry<u32>>) -> Seq<Node<u32>>
    decreases s.len(),
{
    if s.len() == 0 {
        Seq::empty()
    } else {
        match s.last() {
            FunnelEntry::Point(n) => entry_points(s.drop_last()).push(n),
            FunnelEntry::LayerTransition(_, _) => entry_points(s.drop_last()),
        }
    }
}

/// The number of layer transitions of `s`.
pub open spec fn transition_count(s: Seq<FunnelEntry<u32>>) -> nat
    decreases s.len(),
{
    if s.len() == 0 {
        0
    } else {
        match s.last() {
            FunnelEntry::Point(_) => transition_count(s.drop_last()),
            FunnelEntry::LayerTransition(_, _) => transition_count(s.drop_last()) + 1,
        }
    }
}

/// The field-wise sums of `terms`, as integers: along the axes, then along the diagonals.
pub open spec fn terms_sum(terms: Seq<Score>) -> (int, int)
    decreases terms.len(),
{
    if terms.len() == 0 {
        (0, 0)
    } else {
        let (a, d) = terms_sum(terms.drop_last());
        (a + terms.last().along_axis, d + terms.last().diagonal)
    }
}

/// The length, field by field, of the first `k` stretches of the polyline `ps` (stretch
/// `i` going from `ps[i]` to `ps[i + 1]`), each measured by `norm`.
pub open spec fn stretches_len<N: PointNorm>(norm: N, ps: Seq<[i32; 2]>, k: int) -> (int, int)
    decreases k,
{
    if k <= 0 {
        (0, 0)
    } else {
        let (a, d) = stretches_len(norm, ps, k - 1);
        let v = norm.spec_point_norm(spec_delta32(ps[k - 1], ps[k]));
        (a + v.along_axis, d + v.diagonal)
    }
}

/// The number of layer transitions among the entries of a funnelled path.
pub open spec fn layer_changes(f: Seq<FunnelEntry<u32>>) -> nat {
    f.filter(|e: FunnelEntry<u32>| e is LayerTransition).len()
}

/// A sum that stays in range adds up field by field.
proof fn lemma_checked_sum_fields(acc: Score, terms: Seq<Score>)
    ensures
        checked_sum(Some(acc), terms) matches Some(s) ==> s.along_axis == acc.along_axis + terms_sum(terms).0
            && s.diagonal == acc.diagonal + terms_sum(terms).1,
    decreases terms.len(),
{
    if terms.len() > 0 {
        lemma_checked_sum_fields(acc, terms.drop_last());
    }
}

/// The sums of two sequences put end to end add up.
proof fn lemma_terms_sum_add(a: Seq<Score>, b: Seq<Score>)
    ensures
        terms_sum(a + b).0 == terms_sum(a).0 + terms_sum(b).0,
        terms_sum(a + b).1 == terms_sum(a).1 + terms_sum(b).1,
    decreases b.len(),
{
    if b.len() == 0 {
        assert(a + b =~= a);
    } else {
        assert((a + b).drop_last() =~= a + b.drop_last());
        lemma_terms_sum_add(a, b.drop_last());
    }
}

/// Copies of `p` add up to their number times `p`.
proof fn lemma_terms_sum_copies(q: Seq<Score>, p: Score)
    requires
        forall|i: int| 0 <= i < q.len() ==> q[i] == p,
    ensures
        terms_sum(q).0 == q.len() * p.along_axis,
        terms_sum(q).1 == q.len() * p.diagonal,
    decreases q.len(),
{
    if q.len() > 0 {
        let c = q.len() as int;
        lemma_terms_sum_copies(q.drop_last(), p);
        assert(q.last() == p);
        assert((c - 1) * p.along_axis + p.along_axis == c * p.along_axis) by (nonlinear_arith);
        assert((c - 1) * p.diagonal + p.diagonal == c * p.diagonal) by (nonlinear_arith);
    }
}

/// The first `k` terms of [`path_terms`] add up to the length of the first `k` stretches.
proof fn lemma_path_terms_sum<N: PointNorm>(norm: N, ps: Seq<[i32; 2]>, k: int)
    requires
        0 <= k <= path_terms(norm, ps).len(),
    ensures
        terms_sum(path_terms(norm, ps).take(k)) == stretches_len(norm, ps, k),
    decreases k,
{
    if k > 0 {
        assert(path_terms(norm, ps).take(k).drop_last() =~= path_terms(norm, ps).take(k - 1));
        lemma_path_terms_sum(norm, ps, k - 1);
    } else {
        assert(path_terms(norm, ps).take(0) =~= Seq::<Score>::empty());
    }
}

/// Counting layer transitions one entry at a time counts them all.
proof fn lemma_transition_count(f: Seq<FunnelEntry<u32>>)
    ensures
        transition_count(f) == layer_changes(f),
    decreases f.len(),
{
    reveal(Seq::filter);
    if f.len() > 0 {
        lemma_transition_count(f.drop_last());
    }
}

impl<'a, T: MultiLayerNavmesh, N: PointNorm> Environment<'a, T, N> {
    /// Whether a search can run in this environment: a well-formed mesh whose vertex
    /// coordinates differ by at most `i32::MAX`, a tolerance of at least zero, and a
    /// non-empty end made of vertices of the mesh.
    pub open spec fn wf(&self) -> bool {
        &&& self.mesh.topo_wf()
        &&& within_span(mesh_points(self.mesh))
        &&& self.epsilon >= 0
        &&& self.final_end.fixed@.len() > 0
        &&& forall|i: int| 0 <= i < self.final_end.fixed@.len() ==> #[trigger] self.final_end.fixed@[i] < self.mesh.num_vertices()
    }

    /// The length of the segment from `a` to `b`.
    pub open spec fn spec_distance(&self, a: [i32; 2], b: [i32; 2]) -> Score {
        self.point_norm.spec_point_norm(spec_delta32(a, b))
    }

    /// The way to the end vertex `e` from the funnel `st1` that has passed all the faces: the
    /// length of the last stretch, its apices, and the end node; `None` if a sum of lengths
    /// leaves the range of `i32`.
    pub open spec fn spec_end_choice(&self, st1: FState<Node<u32>>, e: u32) -> Option<(Score, Seq<FPoint<Node<u32>>>, Node<u32>)> {
        let fend: FPoint<Node<u32>> = (self.mesh.spec_vertex_position(e), Node { fixed: e, layer: st1.0.1.layer });
        let ste = (st1.0, st1.1, st1.2, st1.3.push([fend, fend]));
        let stretch = spec_run(ste, self.epsilon as int).1;
        let ps = seq![st1.0.0] + positions_of(stretch) + seq![fend.0];
        match checked_sum(Some(zero_score()), path_terms(self.point_norm, ps)) {
            None => None,
            Some(len) => Some((len, stretch, fend.1)),
        }
    }

    /// The shortest way to one of the first `k` end vertices (the first of the shortest).
    pub open spec fn spec_choose_end(&self, st1: FState<Node<u32>>, k: int) -> Option<(Score, Seq<FPoint<Node<u32>>>, Node<u32>)>
        decreases k,
    {
        if k <= 0 {
            None
        } else {
            better_end(self.spec_choose_end(st1, k - 1), self.spec_end_choice(st1, self.final_end.fixed@[k - 1]))
        }
    }

    /// The funnelled path to `end` (through `intermed` when given) and the faces it passes;
    /// both empty when there is no valid path.
    pub open spec fn spec_funnel(
        &self,
        m: Map<PathNode, Entry<BestPathKey<u32, u32>>>,
        intermed: Option<Node<u32>>,
        end: Node<u32>,
    ) -> (Seq<FunnelEntry<u32>>, Seq<Node<u32>>) {
        let none = (Seq::<FunnelEntry<u32>>::empty(), Seq::<Node<u32>>::empty());
        match spec_best_path(m, intermed, end) {
            None => none,
            Some(p) => match split_path(p) {
                None => none,
                Some((start, faces)) => match spec_walk(self.mesh, faces, 0) {
                    None => none,
                    Some((portals, entries)) => {
                        let (st1, apices) = spec_run(start_state(self.mesh, start, portals), self.epsilon as int);
                        match self.spec_choose_end(st1, self.final_end.fixed@.len() as int) {
                            None => none,
                            Some((_, stretch, fnode)) => {
                                let layer = if stretch.len() > 0 { stretch.last().1.layer } else { fnode.layer };
                                match spec_layer_walk(self.final_end.layers@, layer) {
                                    None => none,
                                    Some((trans, l)) => (
                                        seq![FunnelEntry::Point(start)] + entries + points_of(apices) + points_of(stretch) + trans
                                            + seq![FunnelEntry::Point(Node { fixed: fnode.fixed, layer: l })],
                                        faces,
                                    ),
                                }
                            },
                        }
                    },
                },
            },
        }
    }

    /// The score of a funnelled path: a penalty per layer transition, then the lengths of
    /// the segments between its points, all added up in this order.
    pub open spec fn score_terms(&self, f: Seq<FunnelEntry<u32>>) -> Seq<Score> {
        Seq::new(transition_count(f), |i: int| self.layer_transition_penality) + path_terms(
            self.point_norm,
            entry_points(f).map_values(|n: Node<u32>| self.mesh.spec_vertex_position(n.fixed)),
        )
    }

    /// The score of the path to `end` (through `intermed`), with the path and its faces;
    /// `None` when there is no valid path, or when the score leaves the range of `i32`.
    pub open spec fn spec_calculate_score(
        &self,
        m: Map<PathNode, Entry<BestPathKey<u32, u32>>>,
        intermed: Option<Node<u32>>,
        end: Node<u32>,
    ) -> Option<(Score, Seq<FunnelEntry<u32>>, Seq<Node<u32>>)> {
        let (f, faces) = self.spec_funnel(m, intermed, end);
        if f.len() == 0 {
            None
        } else {
            match checked_sum(Some(zero_score()), self.score_terms(f)) {
                None => None,
                Some(s) => Some((s, f, faces)),
            }
        }
    }
}

impl<'a, T: MultiLayerNavmesh, N: PointNorm> Environment<'a, T, N> {
    /// The score of a funnelled path is the layer-transition penalty once for each layer
    /// transition of the path, plus the length, measured by the point norm, of every
    /// stretch between consecutive points of the path: two paths through the same points
    /// that differ by one layer transition differ in score by exactly the penalty.
    pub proof fn lemma_score_counts_transitions(
        &self,
        m: Map<PathNode, Entry<BestPathKey<u32, u32>>>,
        intermed: Option<Node<u32>>,
        end: Node<u32>,
    )
        ensures
            self.spec_calculate_score(m, intermed, end) matches Some((s, f, _)) ==> {
                let ps = entry_points(f).map_values(|n: Node<u32>| self.mesh.spec_vertex_position(n.fixed));
                let k = if ps.len() == 0 { 0 } else { ps.len() - 1 };
                &&& s.along_axis == layer_changes(f) * self.layer_transition_penality.along_axis
                    + stretches_len(self.point_norm, ps, k).0
                &&& s.diagonal == layer_changes(f) * self.layer_transition_penality.diagonal
                    + stretches_len(self.point_norm, ps, k).1
            },
    {
        let (f, faces) = self.spec_funnel(m, intermed, end);
        let ps = entry_points(f).map_values(|n: Node<u32>| self.mesh.spec_vertex_position(n.fixed));
        let pen = Seq::new(transition_count(f), |i: int| self.layer_transition_penality);
        let pt = path_terms(self.point_norm, ps);
        lemma_checked_sum_fields(zero_score(), self.score_terms(f));
        lemma_terms_sum_add(pen, pt);
        lemma_terms_sum_copies(pen, self.layer_transition_penality);
        lemma_path_terms_sum(self.point_norm, ps, pt.len() as int);
        assert(pt.take(pt.len() as int) =~= pt);
        lemma_transition_count(f);
    }
}

/// Every node of the chain up from a node of `mesh` names a vertex or face of `mesh`.
proof fn lemma_up_chain_valid<T: Topo2DComplex>(mesh: &T, m: Map<PathNode, Entry<BestPathKey<u32, u32>>>, cur: PathNode, fuel: nat)
    requires
        paths_valid(mesh, m),
        valid_path_node(mesh, cur),
    ensures
        forall|i: int| 0 <= i < up_chain(m, cur, fuel).len() ==> valid_path_node(mesh, #[trigger] up_chain(m, cur, fuel)[i]),
        up_chain(m, cur, fuel).len() >= 1,
        up_chain(m, cur, fuel)[0] == cur,
    decreases fuel,
{
    if fuel > 0 && m.contains_key(cur) {
        lemma_up_chain_valid(mesh, m, m[cur].key, (fuel - 1) as nat);
        let rest = up_chain(m, m[cur].key, (fuel - 1) as nat);
        assert forall|i: int| 0 <= i < up_chain(m, cur, fuel).len() implies valid_path_node(mesh, #[trigger] up_chain(m, cur, fuel)[i]) by {
            if i > 0 {
                assert(up_chain(m, cur, fuel)[i] == rest[i - 1]);
            }
        }
    }
}

/// The best path to `end` (see [`spec_best_path`]).
fn best_path(bp: &BestPaths, intermed: Option<Node<u32>>, end: Node<u32>) -> (r: Option<Vec<PathNode>>)
    requires
        bp.wf(),
    ensures
        r is None <==> spec_best_path(bp.map(), intermed, end) is None,
        r matches Some(v) ==> spec_best_path(bp.map(), intermed, end) == Some(v@),
{
    proof {
        lemma_assoc_map(bp.entries@);
    }
    let e: PathNode = Node { fixed: BestPathKey::Face(end.fixed), layer: end.layer };
    match intermed {
        None => Some(bp.reconstruct_path(&e)),
        Some(i) => {
            let mut p = bp.reconstruct_path(&Node { fixed: BestPathKey::Face(i.fixed), layer: i.layer });
            let ghost chain = up_chain(bp.map(), face_node(i), bp.map().dom().len()).reverse();
            assert(p@ == chain);
            let mut k: usize = 0;
            while k < p.len()
                invariant
                    p@ == chain,
                    chain == up_chain(bp.map(), face_node(i), bp.map().dom().len()).reverse(),
                    e == face_node(end),
                    intermed == Some(i),
                    bp.wf(),
                    k <= p@.len(),
                    forall|j: int| 0 <= j < k ==> p@[j] != e,
                decreases p@.len() - k,
            {
                if p[k] == e {
                    assert(p@[k as int] == e);
                    assert(chain.contains(face_node(end)));
                    return None;
                }
                k = k + 1;
            }
            assert(!p@.contains(e));
            p.push(e);
            Some(p)
        },
    }
}

/// The best path `p` split into its start vertex and its faces (see [`split_path`]).
fn split_best_path(p: &Vec<PathNode>) -> (r: Option<(Node<u32>, Vec<Node<u32>>)>)
    ensures
        r is None <==> split_path(p@) is None,
        r matches Some((s, f)) ==> split_path(p@) == Some((s, f@)),
{
    if p.len() < 2 {
        return None;
    }
    let start = match p[0].fixed {
        BestPathKey::Vertex(v) => Node { fixed: v, layer: p[0].layer },
        BestPathKey::Face(_) => return None,
    };
    if p[0].layer != p[1].layer {
        return None;
    }
    let mut faces: Vec<Node<u32>> = Vec::new();
    let mut k: usize = 1;
    while k < p.len()
        invariant
            1 <= k <= p@.len(),
            faces@.len() == k - 1,
            forall|j: int| 1 <= j < k ==> !is_vertex_node(#[trigger] p@[j]),
            forall|j: int| 0 <= j < k - 1 ==> faces@[j] == untag(#[trigger] p@[j + 1]),
        decreases p@.len() - k,
    {
        match p[k].fixed {
            BestPathKey::Face(f) => faces.push(Node { fixed: f, layer: p[k].layer }),
            BestPathKey::Vertex(_) => {
                assert(is_vertex_node(p@[k as int]));
                return None;
            },
        }
        k = k + 1;
    }
    assert(faces@ =~= p@.drop_first().map_values(|n: PathNode| untag(n)));
    Some((start, faces))
}

impl<'a, T: MultiLayerNavmesh, N: PointNorm> Environment<'a, T, N> {
    /// The portals and layer transitions along the faces `faces` (see [`spec_walk`]).
    fn walk(&self, faces: &Vec<Node<u32>>) -> (r: Option<(Vec<[FPoint<Node<u32>>; 2]>, Vec<FunnelEntry<u32>>)>)
        requires
            self.mesh.topo_wf(),
            forall|i: int| 0 <= i < faces@.len() ==> (#[trigger] faces@[i]).fixed < self.mesh.num_faces(),
        ensures
            r is None <==> spec_walk(self.mesh, faces@, 0) is None,
            r matches Some((ps, es)) ==> spec_walk(self.mesh, faces@, 0) == Some((ps@, es@)),
    {
        let ghost mesh = self.mesh;
        proof {
            self.mesh.lemma_topo_wf();
        }
        let mut ps: Vec<[FPoint<Node<u32>>; 2]> = Vec::new();
        let mut es: Vec<FunnelEntry<u32>> = Vec::new();
        let mut k: usize = 0;
        while faces.len() > 0 && k < faces.len() - 1
            invariant
                self.mesh.topo_wf(),
                mesh == self.mesh,
                forall|i: int| 0 <= i < faces@.len() ==> (#[trigger] faces@[i]).fixed < self.mesh.num_faces(),
                forall|f: u32, g: u32| f < self.mesh.num_faces() && (#[trigger] self.mesh.spec_portal_between(f, g)) is Some
                    ==> self.mesh.spec_portal_between(f, g).unwrap()[0] < self.mesh.num_vertices()
                    && self.mesh.spec_portal_between(f, g).unwrap()[1] < self.mesh.num_vertices(),
                k < faces@.len() || (k == 0 && faces@.len() == 0),
                spec_walk(mesh, faces@, 0) == match spec_walk(mesh, faces@, k as int) {
                    None => None,
                    Some((a, b)) => Some((ps@ + a, es@ + b)),
                },
            decreases faces@.len() - k,
        {
            let i = faces[k];
            let j = faces[k + 1];
            let same_layer = i.layer == j.layer;
            let same_face = i.fixed == j.fixed;
            let ghost rest = spec_walk(mesh, faces@, k + 1);
            if same_layer == same_face {
                return None;
            } else if !same_layer {
                let ghost es0 = es@;
                es.push(FunnelEntry::LayerTransition(i.layer, j.layer));
                proof {
                    if let Some((a, b)) = rest {
                        assert(es0 + (seq![FunnelEntry::LayerTransition(i.layer, j.layer)] + b) =~= es@ + b);
                    }
                }
            } else {
                match self.mesh.portal_between(i.fixed, j.fixed) {
                    None => return None,
                    Some(portal) => {
                        let l = Node { fixed: portal[0], layer: j.layer };
                        let r = Node { fixed: portal[1], layer: j.layer };
                        let pp = [(self.mesh.vertex_position(portal[0]), l), (self.mesh.vertex_position(portal[1]), r)];
                        let ghost ps0 = ps@;
                        ps.push(pp);
                        proof {
                            assert(pp == portal_fpoints(mesh, portal, j.layer));
                            if let Some((a, b)) = rest {
                                assert(ps0 + (seq![pp] + a) =~= ps@ + a);
                            }
                        }
                    },
                }
            }
            k = k + 1;
        }
        assert(spec_walk(mesh, faces@, k as int) == Some((Seq::<[FPoint<Node<u32>>; 2]>::empty(), Seq::<FunnelEntry<u32>>::empty())));
        assert(ps@ + Seq::<[FPoint<Node<u32>>; 2]>::empty() =~= ps@);
        assert(es@ + Seq::<FunnelEntry<u32>>::empty() =~= es@);
        Some((ps, es))
    }
}

/// The portals found along valid faces are made of vertices of the mesh.
proof fn lemma_walk_valid<T: Topo2DComplex>(mesh: &T, faces: Seq<Node<u32>>, k: int)
    requires
        mesh.topo_wf(),
        forall|i: int| 0 <= i < faces.len() ==> (#[trigger] faces[i]).fixed < mesh.num_faces(),
        spec_walk(mesh, faces, k) is Some,
    ensures
        forall|i: int, j: int| 0 <= i < spec_walk(mesh, faces, k).unwrap().0.len() && 0 <= j < 2
            ==> vertex_fpoint(mesh, #[trigger] spec_walk(mesh, faces, k).unwrap().0[i][j]),
        k >= 0 ==> spec_walk(mesh, faces, k).unwrap().0.len() == 0 || spec_walk(mesh, faces, k).unwrap().0.len() + k + 1 <= faces.len(),
    decreases faces.len() - k,
{
    mesh.lemma_topo_wf();
    if !(k < 0 || k + 1 >= faces.len()) {
        lemma_walk_valid(mesh, faces, k + 1);
        let fi = faces[k];
        let fj = faces[k + 1];
        if fi.layer == fj.layer {
            let p = mesh.spec_portal_between(fi.fixed, fj.fixed).unwrap();
            let ps = spec_walk(mesh, faces, k).unwrap().0;
            let rest = spec_walk(mesh, faces, k + 1).unwrap().0;
            assert forall|i: int, j: int| 0 <= i < ps.len() && 0 <= j < 2 implies vertex_fpoint(mesh, #[trigger] ps[i][j]) by {
                if i > 0 {
                    assert(ps[i] == rest[i - 1]);
                }
            }
        }
    }
}

/// The layer transitions from layer `l` to the closest layer of `layers` (see
/// [`spec_layer_walk`]).
fn layer_walk(layers: &LayerIds, l: LayerId) -> (r: Option<(Vec<FunnelEntry<u32>>, LayerId)>)
    ensures
        r is None <==> spec_layer_walk(layers@, l) is None,
        r matches Some((t, m)) ==> spec_layer_walk(layers@, l) == Some((t@, m)),
{
    if layers.is_on_layer(l) {
        return Some((Vec::new(), l));
    }
    let closest = layers.closest_contained_layer_to(l);
    let mut ret: Vec<FunnelEntry<u32>> = Vec::new();
    let mut current = l;
    match closest[0] {
        Some(b) => {
            proof {
                assert(closest_below(layers@, l@, b@ as usize));
                let c = choose|c: usize| closest_below(layers@, l@, c);
                assert(c == b@);
            }
            while current != b
                invariant
                    b@ <= current@ <= l@,
                    ret@ + steps_down(current@ as int, b@ as int) == steps_down(l@ as int, b@ as int),
                decreases current@,
            {
                let prev = current;
                current = match prev.checked_sub_one() {
                    Some(c) => c,
                    None => b,
                };
                let ghost r0 = ret@;
                ret.push(FunnelEntry::LayerTransition(prev, current));
                proof {
                    assert(prev == LayerId(prev@ as u32));
                    assert(current == LayerId((prev@ - 1) as u32));
                    assert(r0 + steps_down(prev@ as int, b@ as int) =~= ret@ + steps_down(current@ as int, b@ as int));
                }
            }
            assert(ret@ + steps_down(current@ as int, b@ as int) =~= ret@);
            Some((ret, b))
        },
        None => match closest[1] {
            Some(a) => {
                proof {
                    assert(closest_above(layers@, l@, a@ as usize));
                    let c = choose|c: usize| closest_above(layers@, l@, c);
                    assert(c == a@);
                    assert(!exists|c: usize| closest_below(layers@, l@, c));
                }
                while current != a
                    invariant
                        l@ <= current@ <= a@,
                        ret@ + steps_up(current@ as int, a@ as int) == steps_up(l@ as int, a@ as int),
                    decreases a@ - current@,
                {
                    let prev = current;
                    current = match prev.checked_add_one() {
                        Some(c) => c,
                        None => a,
                    };
                    let ghost r0 = ret@;
                    ret.push(FunnelEntry::LayerTransition(prev, current));
                    proof {
                        assert(prev == LayerId(prev@ as u32));
                        assert(current == LayerId((prev@ + 1) as u32));
                        assert(r0 + steps_up(prev@ as int, a@ as int) =~= ret@ + steps_up(current@ as int, a@ as int));
                    }
                }
                assert(ret@ + steps_up(current@ as int, a@ as int) =~= ret@);
                Some((ret, a))
            },
            None => None,
        },
    }
}

/// The view of a candidate end.
pub open spec fn end_view(o: Option<(Score, Vec<FPoint<Node<u32>>>, Node<u32>)>) -> Option<(Score, Seq<FPoint<Node<u32>>>, Node<u32>)> {
    match o {
        None => None,
        Some((l, s, n)) => Some((l, s@, n)),
    }
}

/// A funnel whose points are vertices of `mesh` has its points among those of the mesh,
/// so that their coordinates differ by at most `i32::MAX`.
proof fn lemma_fpoints_span<T: Topo2DComplex>(mesh: &T, st: FState<Node<u32>>)
    requires
        fpoints_valid(mesh, st),
        within_span(mesh_points(mesh)),
    ensures
        funnel_points(st).subset_of(mesh_points(mesh)),
        within_span(funnel_points(st)),
{
    assert forall|p: [i32; 2]| funnel_points(st).contains(p) implies mesh_points(mesh).contains(p) by {
        let q: FPoint<Node<u32>> = if p == st.0.0 {
            st.0
        } else if p == st.1.0 {
            (st.1.0, st.1.1)
        } else if p == st.2.0 {
            (st.2.0, st.2.1)
        } else {
            let (i, k) = choose|i: int, k: int| 0 <= i < st.3.len() && 0 <= k < 2 && #[trigger] st.3[i][k].0 == p;
            st.3[i][k]
        };
        assert(funnel_fpoints(st).contains(q));
        assert(vertex_fpoint(mesh, q));
        assert(mesh.spec_vertex_position(q.1.fixed) == p);
    }
    assert forall|p: [i32; 2], q: [i32; 2]| #![trigger funnel_points(st).contains(p), funnel_points(st).contains(q)]
        funnel_points(st).contains(p) && funnel_points(st).contains(q) implies abs(p[0] - q[0]) <= i32::MAX && abs(p[1] - q[1]) <= i32::MAX by {
        assert(mesh_points(mesh).contains(p));
        assert(mesh_points(mesh).contains(q));
    }
}

/// Pushing a portal of two vertex points keeps the points of a funnel vertices.
proof fn lemma_push_valid<T: Topo2DComplex>(mesh: &T, st: FState<Node<u32>>, x: [FPoint<Node<u32>>; 2])
    requires
        fpoints_valid(mesh, st),
        vertex_fpoint(mesh, x[0]),
        vertex_fpoint(mesh, x[1]),
    ensures
        fpoints_valid(mesh, (st.0, st.1, st.2, st.3.push(x))),
{
    let st2 = (st.0, st.1, st.2, st.3.push(x));
    assert forall|p: FPoint<Node<u32>>| #[trigger] funnel_fpoints(st2).contains(p) implies vertex_fpoint(mesh, p) by {
        if p != st2.0 && p != (st2.1.0, st2.1.1) && p != (st2.2.0, st2.2.1) {
            let (i, k) = choose|i: int, k: int| 0 <= i < st2.3.len() && 0 <= k < 2 && #[trigger] st2.3[i][k] == p;
            if i < st.3.len() {
                assert(st.3[i][k] == p);
                assert(funnel_fpoints(st).contains(p));
            }
        } else {
            assert(funnel_fpoints(st).contains(p));
        }
    }
}

impl<'a, T: MultiLayerNavmesh, N: PointNorm> Environment<'a, T, N> {
    /// The length of the segment from `a` to `b`.
    fn point_distance(&self, a: &[i32; 2], b: &[i32; 2]) -> (r: Score)
        requires
            abs(a[0] - b[0]) <= i32::MAX,
            abs(a[1] - b[1]) <= i32::MAX,
        ensures
            r == self.spec_distance(*a, *b),
    {
        let d = [a[0] - b[0], a[1] - b[1]];
        assert(d == spec_delta32(*a, *b));
        self.point_norm.point_norm(&d)
    }

    /// Adds the lengths of the segments of the polyline `ps` to `acc`, the sum of `pre`.
    fn add_path_lengths(&self, acc: Option<Score>, ps: &Vec<[i32; 2]>, Ghost(pre): Ghost<Seq<Score>>) -> (r: Option<Score>)
        requires
            acc == checked_sum(Some(zero_score()), pre),
            within_span(mesh_points(self.mesh)),
            forall|i: int| 0 <= i < ps@.len() ==> mesh_points(self.mesh).contains(#[trigger] ps@[i]),
        ensures
            r == checked_sum(Some(zero_score()), pre + path_terms(self.point_norm, ps@)),
    {
        let ghost terms = path_terms(self.point_norm, ps@);
        if ps.len() == 0 {
            assert(pre + terms =~= pre);
            return acc;
        }
        let mut acc = acc;
        let mut i: usize = 0;
        assert(pre + terms.take(0) =~= pre);
        while i < ps.len() - 1
            invariant
                ps@.len() >= 1,
                i <= ps@.len() - 1,
                terms == path_terms(self.point_norm, ps@),
                within_span(mesh_points(self.mesh)),
                forall|j: int| 0 <= j < ps@.len() ==> mesh_points(self.mesh).contains(#[trigger] ps@[j]),
                acc == checked_sum(Some(zero_score()), pre + terms.take(i as int)),
            decreases ps@.len() - i,
        {
            let a = ps[i];
            let b = ps[i + 1];
            assert(mesh_points(self.mesh).contains(a));
            assert(mesh_points(self.mesh).contains(b));
            let d = self.point_distance(&a, &b);
            acc = match acc {
                None => None,
                Some(s) => s.checked_add(&d),
            };
            proof {
                let t1 = pre + terms.take(i + 1);
                assert(t1.drop_last() =~= pre + terms.take(i as int));
                assert(t1.last() == d);
            }
            i = i + 1;
        }
        assert(terms.take(i as int) =~= terms);
        acc
    }

    /// The way to the end vertex `e` (see [`Self::spec_end_choice`]).
    fn end_choice(&self, fun: &SimpleFunnel<i32, Node<u32>>, e: u32) -> (r: Option<(Score, Vec<FPoint<Node<u32>>>, Node<u32>)>)
        requires
            self.wf(),
            e < self.mesh.num_vertices(),
            funnel_ready(funnel_state(*fun), self.epsilon as int),
            fpoints_valid(self.mesh, funnel_state(*fun)),
        ensures
            end_view(r) == self.spec_end_choice(funnel_state(*fun), e),
    {
        let ghost st1 = funnel_state(*fun);
        let fend: FPoint<Node<u32>> = (self.mesh.vertex_position(e), Node { fixed: e, layer: fun.apex.1.layer });
        let mut f2 = fun.clone();
        f2.push([fend, fend]);
        let ghost ste = funnel_state(f2);
        proof {
            assert(ste == (st1.0, st1.1, st1.2, st1.3.push([fend, fend])));
            lemma_push_valid(self.mesh, st1, [fend, fend]);
            lemma_fpoints_span(self.mesh, ste);
            lemma_run_bounded(ste, self.epsilon as int);
        }
        let stretch = f2.collect_apices(self.epsilon);
        let mut ps: Vec<[i32; 2]> = Vec::new();
        ps.push(fun.apex.0);
        let mut k: usize = 0;
        while k < stretch.len()
            invariant
                k <= stretch@.len(),
                ps@ == seq![st1.0.0] + positions_of(stretch@).take(k as int),
            decreases stretch@.len() - k,
        {
            ps.push(stretch[k].0);
            k = k + 1;
            assert(ps@ =~= seq![st1.0.0] + positions_of(stretch@).take(k as int));
        }
        ps.push(fend.0);
        assert(positions_of(stretch@).take(k as int) =~= positions_of(stretch@));
        proof {
            assert forall|i: int| 0 <= i < ps@.len() implies mesh_points(self.mesh).contains(#[trigger] ps@[i]) by {
                if i == 0 {
                    assert(funnel_fpoints(st1).contains(st1.0));
                    assert(vertex_fpoint(self.mesh, st1.0));
                    assert(self.mesh.spec_vertex_position(st1.0.1.fixed) == ps@[i]);
                } else if i == ps@.len() - 1 {
                    assert(self.mesh.spec_vertex_position(e) == ps@[i]);
                } else {
                    assert(funnel_fpoints(ste).contains(stretch@[i - 1]));
                    assert(vertex_fpoint(self.mesh, stretch@[i - 1]));
                    assert(ps@[i] == stretch@[i - 1].0);
                    assert(self.mesh.spec_vertex_position(stretch@[i - 1].1.fixed) == ps@[i]);
                }
            }
        }
        assert(Seq::<Score>::empty() + path_terms(self.point_norm, ps@) =~= path_terms(self.point_norm, ps@));
        let len = self.add_path_lengths(Some(DiagonalTaxicabNorm::zero()), &ps, Ghost(Seq::empty()));
        assert(stretch@ == spec_run(ste, self.epsilon as int).1);
        assert(ps@ =~= seq![st1.0.0] + positions_of(stretch@) + seq![fend.0]);
        assert(len == checked_sum(Some(zero_score()), path_terms(self.point_norm, ps@)));
        match len {
            None => None,
            Some(l) => Some((l, stretch, fend.1)),
        }
    }

    /// The shortest way to an end vertex (see [`Self::spec_choose_end`]).
    fn choose_end(&self, fun: &SimpleFunnel<i32, Node<u32>>) -> (r: Option<(Score, Vec<FPoint<Node<u32>>>, Node<u32>)>)
        requires
            self.wf(),
            funnel_ready(funnel_state(*fun), self.epsilon as int),
            fpoints_valid(self.mesh, funnel_state(*fun)),
        ensures
            end_view(r) == self.spec_choose_end(funnel_state(*fun), self.final_end.fixed@.len() as int),
    {
        let mut best: Option<(Score, Vec<FPoint<Node<u32>>>, Node<u32>)> = None;
        let mut k: usize = 0;
        while k < self.final_end.fixed.len()
            invariant
                self.wf(),
                funnel_ready(funnel_state(*fun), self.epsilon as int),
                fpoints_valid(self.mesh, funnel_state(*fun)),
                k <= self.final_end.fixed@.len(),
                end_view(best) == self.spec_choose_end(funnel_state(*fun), k as int),
            decreases self.final_end.fixed@.len() - k,
        {
            let c = self.end_choice(fun, self.final_end.fixed[k]);
            best = match (best, c) {
                (None, c) => c,
                (Some(b), None) => Some(b),
                (Some(b), Some(c)) => if c.0.less_than(&b.0) {
                    Some(c)
                } else {
                    Some(b)
                },
            };
            k = k + 1;
        }
        best
    }
}

/// Appends the steps `Point` of the data of `ps` to `ret`.
fn push_points(ret: &mut Vec<FunnelEntry<u32>>, ps: &Vec<FPoint<Node<u32>>>)
    ensures
        final(ret)@ == old(ret)@ + points_of(ps@),
{
    let ghost r0 = ret@;
    let mut k: usize = 0;
    while k < ps.len()
        invariant
            k <= ps@.len(),
            ret@ == r0 + points_of(ps@).take(k as int),
        decreases ps@.len() - k,
    {
        ret.push(FunnelEntry::Point(ps[k].1));
        k = k + 1;
        assert(ret@ =~= r0 + points_of(ps@).take(k as int));
    }
    assert(points_of(ps@).take(k as int) =~= points_of(ps@));
}

impl<'a, T: MultiLayerNavmesh, N: PointNorm> Environment<'a, T, N> {
    /// The funnelled path to `end` (through `intermed` when given) and the faces it passes
    /// (see [`Self::spec_funnel`]).
    fn funnel(&self, bp: &BestPaths, intermed: Option<Node<u32>>, end: Node<u32>) -> (r: (Vec<FunnelEntry<u32>>, Vec<Node<u32>>))
        requires
            self.wf(),
            bp.wf(),
            paths_valid(self.mesh, bp.map()),
            intermed matches Some(i) ==> i.fixed < self.mesh.num_faces(),
            end.fixed < self.mesh.num_faces(),
        ensures
            (r.0@, r.1@) == self.spec_funnel(bp.map(), intermed, end),
            points_valid(self.mesh, r.0@),
    {
        let ghost m = bp.map();
        let ghost mesh = self.mesh;
        let ghost eps = self.epsilon as int;
        let path = match best_path(bp, intermed, end) {
            None => return (Vec::new(), Vec::new()),
            Some(p) => p,
        };
        proof {
            match intermed {
                None => {
                    lemma_up_chain_valid(mesh, m, face_node(end), m.dom().len());
                    let c = up_chain(m, face_node(end), m.dom().len());
                    assert forall|i: int| 0 <= i < path@.len() implies valid_path_node(mesh, #[trigger] path@[i]) by {
                        assert(path@[i] == c[c.len() - 1 - i]);
                    }
                },
                Some(im) => {
                    lemma_up_chain_valid(mesh, m, face_node(im), m.dom().len());
                    let c = up_chain(m, face_node(im), m.dom().len());
                    assert forall|i: int| 0 <= i < path@.len() implies valid_path_node(mesh, #[trigger] path@[i]) by {
                        if i < c.len() {
                            assert(path@[i] == c[c.len() - 1 - i]);
                        }
                    }
                },
            }
        }
        let (start, faces) = match split_best_path(&path) {
            None => return (Vec::new(), Vec::new()),
            Some(x) => x,
        };
        proof {
            assert(valid_path_node(mesh, path@[0]));
            assert forall|i: int| 0 <= i < faces@.len() implies (#[trigger] faces@[i]).fixed < mesh.num_faces() by {
                assert(faces@[i] == untag(path@[i + 1]));
                assert(valid_path_node(mesh, path@[i + 1]));
                assert(!is_vertex_node(path@[i + 1]));
            }
        }
        let (portals, mut entries) = match self.walk(&faces) {
            None => return (Vec::new(), Vec::new()),
            Some(x) => x,
        };
        let _nf = faces.len();
        let ghost walk_entries = entries@;
        let ghost entries_len = entries@.len() as int;
        proof {
            lemma_walk_valid(mesh, faces@, 0);
        }
        let apex: FPoint<Node<u32>> = (self.mesh.vertex_position(start.fixed), start);
        let mut fun = SimpleFunnel::new(apex);
        fun.past_portals = portals;
        let _n = fun.past_portals.len();
        let ghost st0 = funnel_state(fun);
        proof {
            assert(st0 == start_state(mesh, start, portals@));
            assert forall|p: FPoint<Node<u32>>| #[trigger] funnel_fpoints(st0).contains(p) implies vertex_fpoint(mesh, p) by {
                if p != st0.0 && p != (st0.1.0, st0.1.1) && p != (st0.2.0, st0.2.1) {
                    let (i, k) = choose|i: int, k: int| 0 <= i < st0.3.len() && 0 <= k < 2 && #[trigger] st0.3[i][k] == p;
                    assert(portals@[i][k] == p);
                }
            }
            lemma_fpoints_span(mesh, st0);
            lemma_run_bounded(st0, eps);
        }
        let mut ret: Vec<FunnelEntry<u32>> = Vec::new();
        ret.push(FunnelEntry::Point(start));
        ret.append(&mut entries);
        let apices = fun.collect_apices(self.epsilon);
        let ghost st1 = funnel_state(fun);
        proof {
            assert(fpoints_valid(mesh, st1)) by {
                assert forall|p: FPoint<Node<u32>>| #[trigger] funnel_fpoints(st1).contains(p) implies vertex_fpoint(mesh, p) by {
                    assert(funnel_fpoints(st0).contains(p));
                }
            }
        }
        push_points(&mut ret, &apices);
        proof {
            lemma_walk_transitions(mesh, faces@, 0);
            assert(st0.3.len() < usize::MAX);
            assert(st1.3.len() < usize::MAX);
            self.lemma_choose_end_valid(st1, self.final_end.fixed@.len() as int);
        }
        let ghost a1 = ret@;
        let choice = self.choose_end(&fun);
        let (_, stretch, fnode) = match choice {
            None => return (Vec::new(), Vec::new()),
            Some(c) => c,
        };
        let mut final_end = fnode;
        if stretch.len() > 0 {
            final_end.layer = stretch[stretch.len() - 1].1.layer;
        }
        push_points(&mut ret, &stretch);
        let ghost a2 = ret@;
        let ghost layer = final_end.layer;
        match layer_walk(&self.final_end.layers, final_end.layer) {
            None => return (Vec::new(), Vec::new()),
            Some((mut trans, l)) => {
                proof {
                    if self.final_end.layers@.contains(layer@ as usize) {
                    } else if exists|b: usize| closest_below(self.final_end.layers@, layer@, b) {
                        let b = choose|b: usize| closest_below(self.final_end.layers@, layer@, b);
                        lemma_steps_transitions(layer@ as int, b as int);
                    } else {
                        let a = choose|a: usize| closest_above(self.final_end.layers@, layer@, a);
                        lemma_steps_transitions(layer@ as int, a as int);
                    }
                }
                ret.append(&mut trans);
                final_end.layer = l;
            },
        }
        let ghost a3 = ret@;
        ret.push(FunnelEntry::Point(final_end));
        proof {
            let f = ret@;
            assert forall|i: int| 0 <= i < f.len() implies match #[trigger] f[i] {
                FunnelEntry::Point(n) => n.fixed < mesh.num_vertices(),
                FunnelEntry::LayerTransition(_, _) => true,
            } by {
                if i == 0 {
                    assert(f[i] == FunnelEntry::Point(start));
                } else if i < 1 + entries_len {
                    assert(f[i] == walk_entries[i - 1]);
                } else if i < a1.len() {
                    assert(f[i] == FunnelEntry::Point(apices@[i - 1 - entries_len].1));
                    assert(funnel_fpoints(st0).contains(apices@[i - 1 - entries_len]));
                } else if i < a2.len() {
                    assert(f[i] == FunnelEntry::Point(stretch@[i - a1.len()].1));
                    assert(vertex_fpoint(mesh, stretch@[i - a1.len()]));
                } else if i < a3.len() {
                } else {
                    assert(f[i] == FunnelEntry::Point(final_end));
                }
            }
        }
        (ret, faces)
    }

    /// The score of the path to `end` (through `intermed`), with the path and its faces
    /// (see [`Self::spec_calculate_score`]).
    fn calculate_score(&self, bp: &BestPaths, intermed: Option<Node<u32>>, end: Node<u32>) -> (r: Option<
        (Score, Vec<FunnelEntry<u32>>, Vec<Node<u32>>),
    >)
        requires
            self.wf(),
            bp.wf(),
            paths_valid(self.mesh, bp.map()),
            intermed matches Some(i) ==> i.fixed < self.mesh.num_faces(),
            end.fixed < self.mesh.num_faces(),
        ensures
            r is None <==> self.spec_calculate_score(bp.map(), intermed, end) is None,
            r matches Some((s, f, b)) ==> self.spec_calculate_score(bp.map(), intermed, end) == Some((s, f@, b@)),
    {
        let (funneled, best_path) = self.funnel(bp, intermed, end);
        if funneled.len() == 0 {
            return None;
        }
        proof {
            lemma_entry_points_valid(self.mesh, funneled@);
        }
        let ghost f = funneled@;
        let mut score: Option<Score> = Some(DiagonalTaxicabNorm::zero());
        let mut points: Vec<Node<u32>> = Vec::new();
        let mut k: usize = 0;
        assert(f.take(0) =~= Seq::<FunnelEntry<u32>>::empty());
        assert(Seq::new(0, |i: int| self.layer_transition_penality) =~= Seq::<Score>::empty());
        while k < funneled.len()
            invariant
                f == funneled@,
                k <= f.len(),
                points@ == entry_points(f.take(k as int)),
                score == checked_sum(Some(zero_score()), Seq::new(transition_count(f.take(k as int)), |i: int| self.layer_transition_penality)),
            decreases f.len() - k,
        {
            let ghost c = transition_count(f.take(k as int));
            assert(f.take(k + 1).drop_last() =~= f.take(k as int));
            match funneled[k] {
                FunnelEntry::LayerTransition(_, _) => {
                    score = match score {
                        None => None,
                        Some(s) => s.checked_add(&self.layer_transition_penality),
                    };
                    assert(Seq::new(c + 1, |i: int| self.layer_transition_penality).drop_last() =~= Seq::new(c, |i: int| self.layer_transition_penality));
                },
                FunnelEntry::Point(n) => {
                    points.push(n);
                },
            }
            k = k + 1;
        }
        assert(f.take(k as int) =~= f);
        let mut ps: Vec<[i32; 2]> = Vec::new();
        let mut j: usize = 0;
        while j < points.len()
            invariant
                self.wf(),
                j <= points@.len(),
                points@ == entry_points(f),
                forall|i: int| 0 <= i < points@.len() ==> (#[trigger] points@[i]).fixed < self.mesh.num_vertices(),
                ps@ == points@.take(j as int).map_values(|n: Node<u32>| self.mesh.spec_vertex_position(n.fixed)),
            decreases points@.len() - j,
        {
            assert(points@[j as int].fixed < self.mesh.num_vertices());
            ps.push(self.mesh.vertex_position(points[j].fixed));
            j = j + 1;
            assert(ps@ =~= points@.take(j as int).map_values(|n: Node<u32>| self.mesh.spec_vertex_position(n.fixed)));
        }
        assert(points@.take(j as int) =~= points@);
        proof {
            assert forall|i: int| 0 <= i < ps@.len() implies mesh_points(self.mesh).contains(#[trigger] ps@[i]) by {
                assert(points@[i].fixed < self.mesh.num_vertices());
                assert(self.mesh.spec_vertex_position(points@[i].fixed) == ps@[i]);
            }
        }
        let total = self.add_path_lengths(
            score,
            &ps,
            Ghost(Seq::new(transition_count(f), |i: int| self.layer_transition_penality)),
        );
        assert(self.score_terms(f) == Seq::new(transition_count(f), |i: int| self.layer_transition_penality) + path_terms(self.point_norm, ps@));
        match total {
            None => None,
            Some(s) => Some((s, funneled, best_path)),
        }
    }
}

/// Whether every step `Point` of `f` is at a vertex of `mesh`.
pub open spec fn points_valid<T: Topo2DComplex>(mesh: &T, f: Seq<FunnelEntry<u32>>) -> bool {
    forall|i: int| 0 <= i < f.len() ==> match #[trigger] f[i] {
        FunnelEntry::Point(n) => n.fixed < mesh.num_vertices(),
        FunnelEntry::LayerTransition(_, _) => true,
    }
}

/// Whether every step of `f` is a layer transition.
pub open spec fn transitions_only(f: Seq<FunnelEntry<u32>>) -> bool {
    forall|i: int| 0 <= i < f.len() ==> (#[trigger] f[i]) is LayerTransition
}

proof fn lemma_entry_points_valid<T: Topo2DComplex>(mesh: &T, f: Seq<FunnelEntry<u32>>)
    requires
        points_valid(mesh, f),
    ensures
        forall|i: int| 0 <= i < entry_points(f).len() ==> (#[trigger] entry_points(f)[i]).fixed < mesh.num_vertices(),
    decreases f.len(),
{
    if f.len() > 0 {
        let g = f.drop_last();
        assert forall|i: int| 0 <= i < g.len() implies match #[trigger] g[i] {
            FunnelEntry::Point(n) => n.fixed < mesh.num_vertices(),
            FunnelEntry::LayerTransition(_, _) => true,
        } by {
            assert(g[i] == f[i]);
        }
        lemma_entry_points_valid(mesh, g);
        assert(g =~= f.drop_last());
        assert(match f[f.len() - 1] {
            FunnelEntry::Point(n) => n.fixed < mesh.num_vertices(),
            FunnelEntry::LayerTransition(_, _) => true,
        });
        let eg = entry_points(g);
        assert forall|i: int| 0 <= i < entry_points(f).len() implies (#[trigger] entry_points(f)[i]).fixed < mesh.num_vertices() by {
            if i < eg.len() {
                assert(entry_points(f)[i] == eg[i]);
            }
        }
    }
}

proof fn lemma_walk_transitions<T: Topo2DComplex>(mesh: &T, faces: Seq<Node<u32>>, k: int)
    requires
        spec_walk(mesh, faces, k) is Some,
    ensures
        transitions_only(spec_walk(mesh, faces, k).unwrap().1),
    decreases faces.len() - k,
{
    if !(k < 0 || k + 1 >= faces.len()) {
        lemma_walk_transitions(mesh, faces, k + 1);
        let es = spec_walk(mesh, faces, k).unwrap().1;
        let rest = spec_walk(mesh, faces, k + 1).unwrap().1;
        assert forall|i: int| 0 <= i < es.len() implies (#[trigger] es[i]) is LayerTransition by {
            if faces[k].layer != faces[k + 1].layer && i > 0 {
                assert(es[i] == rest[i - 1]);
            }
        }
    }
}

proof fn lemma_steps_transitions(from: int, to: int)
    ensures
        transitions_only(steps_down(from, to)),
        transitions_only(steps_up(from, to)),
    decreases (if from > to { from - to } else { to - from }),
{
    if from > to {
        lemma_steps_transitions(from - 1, to);
        let s = steps_down(from, to);
        assert forall|i: int| 0 <= i < s.len() implies (#[trigger] s[i]) is LayerTransition by {
            if i > 0 {
                assert(s[i] == steps_down(from - 1, to)[i - 1]);
            }
        }
    }
    if from < to {
        lemma_steps_transitions(from + 1, to);
        let s = steps_up(from, to);
        assert forall|i: int| 0 <= i < s.len() implies (#[trigger] s[i]) is LayerTransition by {
            if i > 0 {
                assert(s[i] == steps_up(from + 1, to)[i - 1]);
            }
        }
    }
}

impl<'a, T: MultiLayerNavmesh, N: PointNorm> Environment<'a, T, N> {
    /// The way to an end vertex goes through vertices of the mesh, to that end vertex.
    proof fn lemma_end_choice_valid(&self, st1: FState<Node<u32>>, e: u32)
        requires
            self.wf(),
            e < self.mesh.num_vertices(),
            funnel_ready(st1, self.epsilon as int),
            fpoints_valid(self.mesh, st1),
            st1.3.len() < usize::MAX,
        ensures
            self.spec_end_choice(st1, e) matches Some((l, s, n)) ==> n.fixed == e && forall|i: int|
                0 <= i < s.len() ==> vertex_fpoint(self.mesh, #[trigger] s[i]),
    {
        let fend: FPoint<Node<u32>> = (self.mesh.spec_vertex_position(e), Node { fixed: e, layer: st1.0.1.layer });
        let ste = (st1.0, st1.1, st1.2, st1.3.push([fend, fend]));
        lemma_push_valid(self.mesh, st1, [fend, fend]);
        lemma_fpoints_span(self.mesh, ste);
        lemma_run_bounded(ste, self.epsilon as int);
        let stretch = spec_run(ste, self.epsilon as int).1;
        assert forall|i: int| 0 <= i < stretch.len() implies vertex_fpoint(self.mesh, #[trigger] stretch[i]) by {
            assert(funnel_fpoints(ste).contains(stretch[i]));
        }
    }

    /// The chosen way ends at one of the end vertices, through vertices of the mesh.
    proof fn lemma_choose_end_valid(&self, st1: FState<Node<u32>>, k: int)
        requires
            self.wf(),
            k <= self.final_end.fixed@.len(),
            funnel_ready(st1, self.epsilon as int),
            fpoints_valid(self.mesh, st1),
            st1.3.len() < usize::MAX,
        ensures
            self.spec_choose_end(st1, k) matches Some((l, s, n)) ==> n.fixed < self.mesh.num_vertices() && forall|i: int|
                0 <= i < s.len() ==> vertex_fpoint(self.mesh, #[trigger] s[i]),
        decreases k,
    {
        if k > 0 {
            self.lemma_choose_end_valid(st1, k - 1);
            assert(self.final_end.fixed@[k - 1] < self.mesh.num_vertices());
            self.lemma_end_choice_valid(st1, self.final_end.fixed@[k - 1]);
        }
    }
}

// ---------------------------------------------------------------------------------------
// The search.

/// The state of an A* search; each call of [`Astar::next`] visits one node.
pub struct Astar<'a, T, N> {
    best_paths: BestPaths,
    heap: OpenSet,
    env: Environment<'a, T, N>,
    starts: Ghost<Seq<u32>>,
}

/// What a step of the search gives.
#[derive(Clone, Debug)]
pub enum Output {
    /// A successful result: the path from a start vertex to an end vertex.
    Result(Vec<FunnelEntry<u32>>),
    /// The node visited, and the nodes reached from it with their scores.
    IntermediateStep(Node<u32>, Vec<(Node<u32>, Score)>),
}

/// The faces of `fs` that can be traversed on layer `l`, as nodes on that layer, in order.
pub open spec fn faces_on_layer<T: MultiLayerNavmesh>(mesh: &T, fs: Seq<u32>, l: LayerId) -> Seq<Node<u32>>
    decreases fs.len(),
{
    if fs.len() == 0 {
        Seq::empty()
    } else {
        let rest = faces_on_layer(mesh, fs.drop_last(), l);
        if mesh.spec_face_layers(fs.last()).contains(l@ as usize) {
            rest.push(Node { fixed: fs.last(), layer: l })
        } else {
            rest
        }
    }
}

/// The layers of `s` directly below and directly above `i`, in this order.
pub open spec fn spec_adjacent_layers(s: Set<usize>, i: LayerId) -> Seq<LayerId> {
    (if contains_index(s, i@ - 1) {
        seq![LayerId((i@ - 1) as u32)]
    } else {
        Seq::<LayerId>::empty()
    }) + (if contains_index(s, i@ + 1int) {
        seq![LayerId((i@ + 1) as u32)]
    } else {
        Seq::<LayerId>::empty()
    })
}

/// The nodes reachable from `cur`: its neighbour faces that can be traversed on its
/// layer, then its own face on the layers directly below and above.
pub open spec fn spec_candidates<T: MultiLayerNavmesh>(mesh: &T, cur: Node<u32>) -> Seq<Node<u32>> {
    faces_on_layer(mesh, mesh.spec_face_adjacent_faces(cur.fixed), cur.layer) + spec_adjacent_layers(
        mesh.spec_face_layers(cur.fixed),
        cur.layer,
    ).map_values(|l: LayerId| Node { fixed: cur.fixed, layer: l })
}

/// The open set and the best paths after offering the nodes `nexts` reached from `cur`:
/// a node is taken when it has no best path yet or its new score is strictly lower.
pub open spec fn spec_relax(
    m: Map<PathNode, Entry<BestPathKey<u32, u32>>>,
    h: Multiset<Entry<u32>>,
    cur: Node<u32>,
    nexts: Seq<(Node<u32>, Score)>,
) -> (Map<PathNode, Entry<BestPathKey<u32, u32>>>, Multiset<Entry<u32>>)
    decreases nexts.len(),
{
    if nexts.len() == 0 {
        (m, h)
    } else {
        let (m1, h1) = spec_relax(m, h, cur, nexts.drop_last());
        let (n, s) = nexts.last();
        if m1.contains_key(face_node(n)) && !norm_lt(s, m1[face_node(n)].score) {
            (m1, h1)
        } else {
            (m1.insert(face_node(n), Entry { score: s, key: face_node(cur) }), h1.insert(Entry { score: s, key: n }))
        }
    }
}

/// Relaxing forgets no node, and the score stored for a node only goes down: it stays, or
/// is replaced by a strictly shorter one.
pub proof fn lemma_relax_scores_decrease(
    m: Map<PathNode, Entry<BestPathKey<u32, u32>>>,
    h: Multiset<Entry<u32>>,
    cur: Node<u32>,
    nexts: Seq<(Node<u32>, Score)>,
)
    ensures
        forall|k: PathNode| #[trigger] m.contains_key(k) ==> {
            let m2 = spec_relax(m, h, cur, nexts).0;
            &&& m2.contains_key(k)
            &&& (m2[k].score == m[k].score || norm_lt(m2[k].score, m[k].score))
        },
    decreases nexts.len(),
{
    if nexts.len() > 0 {
        lemma_relax_scores_decrease(m, h, cur, nexts.drop_last());
        let (m1, h1) = spec_relax(m, h, cur, nexts.drop_last());
        let (n, s) = nexts.last();
        assert forall|k: PathNode| #[trigger] m.contains_key(k) implies {
            let m2 = spec_relax(m, h, cur, nexts).0;
            &&& m2.contains_key(k)
            &&& (m2[k].score == m[k].score || norm_lt(m2[k].score, m[k].score))
        } by {
            if k == face_node(n) && !(m1.contains_key(face_node(n)) && !norm_lt(s, m1[face_node(n)].score)) {
                if m1[k].score != m[k].score {
                    lemma_norm_order_transitive(s, m1[k].score, m[k].score);
                }
            }
        }
    }
}

/// Every entry that relaxing adds to the open set is of a node that the relaxed best
/// paths hold, reached from `cur`.
pub proof fn lemma_relax_pushes_known(
    m: Map<PathNode, Entry<BestPathKey<u32, u32>>>,
    h: Multiset<Entry<u32>>,
    cur: Node<u32>,
    nexts: Seq<(Node<u32>, Score)>,
)
    ensures
        forall|e: Entry<u32>| #[trigger] spec_relax(m, h, cur, nexts).1.count(e) > h.count(e) ==> {
            let m2 = spec_relax(m, h, cur, nexts).0;
            m2.contains_key(face_node(e.key))
        },
    decreases nexts.len(),
{
    broadcast use vstd::multiset::group_multiset_axioms;
    if nexts.len() > 0 {
        lemma_relax_pushes_known(m, h, cur, nexts.drop_last());
        lemma_relax_scores_decrease(m, h, cur, nexts.drop_last());
        let (m1, h1) = spec_relax(m, h, cur, nexts.drop_last());
        lemma_relax_scores_decrease(m1, h1, cur, seq![nexts.last()]);
        let (n, s) = nexts.last();
        assert forall|e: Entry<u32>| #[trigger] spec_relax(m, h, cur, nexts).1.count(e) > h.count(e) implies
            spec_relax(m, h, cur, nexts).0.contains_key(face_node(e.key)) by {
            if h1.count(e) > h.count(e) {
                assert(m1.contains_key(face_node(e.key)));
            }
        }
    }
}

/// Whether every best path in `m` comes from a vertex of `starts`, or from a node that
/// has a best path itself.
pub open spec fn preds_known(m: Map<PathNode, Entry<BestPathKey<u32, u32>>>, starts: Seq<u32>) -> bool {
    forall|k: PathNode| #[trigger] m.contains_key(k) ==> match m[k].key.fixed {
        BestPathKey::Vertex(v) => starts.contains(v),
        BestPathKey::Face(_) => m.contains_key(m[k].key),
    }
}

/// Relaxing from a node that has a best path keeps every best path coming from a start
/// vertex or from a node with a best path, and adds best paths of faces only.
pub proof fn lemma_relax_preds_known(
    m: Map<PathNode, Entry<BestPathKey<u32, u32>>>,
    h: Multiset<Entry<u32>>,
    cur: Node<u32>,
    nexts: Seq<(Node<u32>, Score)>,
    starts: Seq<u32>,
)
    requires
        preds_known(m, starts),
        face_keys(m),
        m.contains_key(face_node(cur)),
    ensures
        preds_known(spec_relax(m, h, cur, nexts).0, starts),
        face_keys(spec_relax(m, h, cur, nexts).0),
    decreases nexts.len(),
{
    if nexts.len() > 0 {
        lemma_relax_preds_known(m, h, cur, nexts.drop_last(), starts);
        lemma_relax_scores_decrease(m, h, cur, nexts.drop_last());
        let (m1, h1) = spec_relax(m, h, cur, nexts.drop_last());
        let m2 = spec_relax(m, h, cur, nexts).0;
        let (n, s) = nexts.last();
        assert(m1.contains_key(face_node(cur)));
        assert forall|k: PathNode| #[trigger] m2.contains_key(k) implies match m2[k].key.fixed {
            BestPathKey::Vertex(v) => starts.contains(v),
            BestPathKey::Face(_) => m2.contains_key(m2[k].key),
        } by {
            if k != face_node(n) || m2 == m1 {
                assert(m1.contains_key(k));
            }
        }
        assert forall|k: PathNode| #[trigger] m2.contains_key(k) implies !is_vertex_node(k) by {
            if k != face_node(n) || m2 == m1 {
                assert(m1.contains_key(k));
            }
        }
    }
}

/// Whether every node of the open set `items` has a best path in `m`.
pub open spec fn open_nodes_known(items: Seq<Entry<u32>>, m: Map<PathNode, Entry<BestPathKey<u32, u32>>>) -> bool {
    forall|i: int| 0 <= i < items.len() ==> m.contains_key(face_node(#[trigger] items[i].key))
}

/// The entry that the open set `h` visits first.
pub open spec fn first_entry(h: Multiset<Entry<u32>>) -> Entry<u32> {
    choose|e: Entry<u32>| h.contains(e) && forall|x: Entry<u32>| h.contains(x) ==> !entry_gt(x, e)
}

impl<'a, T: MultiLayerNavmesh, N: PointNorm> Environment<'a, T, N> {
    /// The candidates `cands` that have a score, with it, in order.
    pub open spec fn spec_weigh(
        &self,
        m: Map<PathNode, Entry<BestPathKey<u32, u32>>>,
        cur: Node<u32>,
        cands: Seq<Node<u32>>,
    ) -> Seq<(Node<u32>, Score)>
        decreases cands.len(),
    {
        if cands.len() == 0 {
            Seq::empty()
        } else {
            let rest = self.spec_weigh(m, cur, cands.drop_last());
            match self.spec_calculate_score(m, Some(cur), cands.last()) {
                Some((s, _, _)) => rest.push((cands.last(), s)),
                None => rest,
            }
        }
    }

    /// Whether the face `f` has an end vertex among its vertices.
    pub open spec fn touches_end(&self, f: u32) -> bool {
        exists|i: int, j: int|
            0 <= i < self.mesh.spec_face_adjacent_vertices(f).len() && 0 <= j < self.final_end.fixed@.len()
                && #[trigger] self.mesh.spec_face_adjacent_vertices(f)[i] == #[trigger] self.final_end.fixed@[j]
    }

    /// Whether a search reaching node `n` has arrived.
    pub open spec fn arrived(&self, n: Node<u32>) -> bool {
        self.final_end.layers@.contains(n.layer@ as usize) && self.touches_end(n.fixed)
    }

    /// Whether the face `f` has an end vertex among its vertices.
    fn face_touches_end(&self, f: u32) -> (r: bool)
        requires
            self.mesh.topo_wf(),
            f < self.mesh.num_faces(),
        ensures
            r == self.touches_end(f),
    {
        let vs = self.mesh.face_adjacent_vertices(f);
        let mut i: usize = 0;
        while i < vs.len()
            invariant
                vs@ == self.mesh.spec_face_adjacent_vertices(f),
                i <= vs@.len(),
                forall|a: int, b: int| 0 <= a < i && 0 <= b < self.final_end.fixed@.len() ==> vs@[a] != self.final_end.fixed@[b],
            decreases vs@.len() - i,
        {
            let mut j: usize = 0;
            while j < self.final_end.fixed.len()
                invariant
                    vs@ == self.mesh.spec_face_adjacent_vertices(f),
                    i < vs@.len(),
                    j <= self.final_end.fixed@.len(),
                    forall|b: int| 0 <= b < j ==> vs@[i as int] != self.final_end.fixed@[b],
                decreases self.final_end.fixed@.len() - j,
            {
                if vs[i] == self.final_end.fixed[j] {
                    assert(self.mesh.spec_face_adjacent_vertices(f)[i as int] == self.final_end.fixed@[j as int]);
                    return true;
                }
                j = j + 1;
            }
            i = i + 1;
        }
        false
    }
}

impl<'a, T: MultiLayerNavmesh, N: PointNorm> Astar<'a, T, N> {
    /// The best paths found so far.
    pub closed spec fn paths(&self) -> Map<PathNode, Entry<BestPathKey<u32, u32>>> {
        self.best_paths.map()
    }

    /// The nodes still to visit, with their scores.
    pub closed spec fn open_entries(&self) -> Multiset<Entry<u32>> {
        self.heap.items@.to_multiset()
    }

    /// The environment of the search.
    pub closed spec fn env(&self) -> Environment<'a, T, N> {
        self.env
    }

    /// Whether the search state is consistent: a searchable environment, best paths and
    /// open nodes naming vertices and faces of the mesh.
    pub closed spec fn wf(&self) -> bool {
        &&& self.env.wf()
        &&& self.best_paths.wf()
        &&& paths_valid(self.env.mesh, self.best_paths.map())
        &&& forall|i: int| 0 <= i < self.heap.items@.len() ==> (#[trigger] self.heap.items@[i]).key.fixed < self.env.mesh.num_faces()
        &&& open_nodes_known(self.heap.items@, self.best_paths.map())
        &&& face_keys(self.best_paths.map())
        &&& preds_known(self.best_paths.map(), self.starts@)
    }

    /// The vertices the search started from.
    pub closed spec fn start_vertices(&self) -> Seq<u32> {
        self.starts@
    }

    /// Every node waiting in the open set has a best path: a node is only ever pushed
    /// together with the best path that reaches it, and best paths are never forgotten.
    pub proof fn lemma_open_nodes_have_paths(&self)
        requires
            self.wf(),
        ensures
            forall|e: Entry<u32>| #[trigger] self.open_entries().count(e) > 0 ==> self.paths().contains_key(face_node(e.key)),
    {
        reveal(Astar::wf);
        broadcast use vstd::seq_lib::group_to_multiset_ensures;
        assert forall|e: Entry<u32>| #[trigger] self.open_entries().count(e) > 0 implies self.paths().contains_key(face_node(e.key)) by {
            assert(self.heap.items@.to_multiset().contains(e));
            let i = choose|i: int| 0 <= i < self.heap.items@.len() && self.heap.items@[i] == e;
        }
    }

    /// Best paths never dangle: only faces have best paths, and each comes from a start
    /// vertex or from a node that has a best path itself, so following predecessors stays
    /// among the best paths until it reaches a start vertex.
    pub proof fn lemma_paths_rooted(&self)
        requires
            self.wf(),
        ensures
            face_keys(self.paths()),
            preds_known(self.paths(), self.start_vertices()),
    {
        reveal(Astar::wf);
    }

    /// The candidate nodes reachable from `cur` (see [`spec_candidates`]).
    fn candidates(&self, cur: Node<u32>) -> (r: Vec<Node<u32>>)
        requires
            self.wf(),
            cur.fixed < self.env.mesh.num_faces(),
        ensures
            r@ == spec_candidates(self.env.mesh, cur),
            forall|i: int| 0 <= i < r@.len() ==> (#[trigger] r@[i]).fixed < self.env.mesh.num_faces(),
    {
        proof {
            reveal(Astar::wf);
            self.env.mesh.lemma_topo_wf();
        }
        let mesh = self.env.mesh;
        let adj = mesh.face_adjacent_faces(cur.fixed);
        let mut ret: Vec<Node<u32>> = Vec::new();
        let mut k: usize = 0;
        while k < adj.len()
            invariant
                mesh.topo_wf(),
                adj@ == mesh.spec_face_adjacent_faces(cur.fixed),
                cur.fixed < mesh.num_faces(),
                forall|i: int| 0 <= i < adj@.len() ==> (#[trigger] adj@[i]) < mesh.num_faces(),
                k <= adj@.len(),
                ret@ == faces_on_layer(mesh, adj@.take(k as int), cur.layer),
                forall|i: int| 0 <= i < ret@.len() ==> (#[trigger] ret@[i]).fixed < mesh.num_faces(),
            decreases adj@.len() - k,
        {
            assert(adj@.take(k + 1).drop_last() =~= adj@.take(k as int));
            let f = adj[k];
            if mesh.face_layers(f).is_on_layer(cur.layer) {
                ret.push(Node { fixed: f, layer: cur.layer });
            }
            k = k + 1;
        }
        assert(adj@.take(k as int) =~= adj@);
        let ghost part1 = ret@;
        let ls = mesh.face_layers(cur.fixed).adjacent_layers_to(cur.layer);
        let mut j: usize = 0;
        while j < ls.len()
            invariant
                j <= ls@.len(),
                cur.fixed < mesh.num_faces(),
                ret@ == part1 + ls@.take(j as int).map_values(|l: LayerId| Node { fixed: cur.fixed, layer: l }),
                forall|i: int| 0 <= i < ret@.len() ==> (#[trigger] ret@[i]).fixed < mesh.num_faces(),
            decreases ls@.len() - j,
        {
            ret.push(Node { fixed: cur.fixed, layer: ls[j] });
            j = j + 1;
            assert(ret@ =~= part1 + ls@.take(j as int).map_values(|l: LayerId| Node { fixed: cur.fixed, layer: l }));
        }
        assert(ls@.take(j as int) =~= ls@);
        ret
    }

    /// Visits the next node of the open set: the one with the lowest score (and, among
    /// equal scores, the greatest node). If the end is reached there, the result is the
    /// funnelled path to it; otherwise its neighbours are scored, those improving on their
    /// best path are added to the open set, and the step is returned. `None` when there is
    /// nothing left to visit.
    pub fn next(&mut self) -> (r: Option<Output>)
        requires
            old(self).wf(),
        ensures
            final(self).wf(),
            final(self).env() == old(self).env(),
            final(self).start_vertices() == old(self).start_vertices(),
            old(self).open_entries().len() == 0 ==> r is None && final(self).paths() == old(self).paths()
                && final(self).open_entries() == old(self).open_entries(),
            old(self).open_entries().len() > 0 ==> ({
                let cur = first_entry(old(self).open_entries());
                let env = old(self).env();
                let m = old(self).paths();
                let h = old(self).open_entries().remove(cur);
                if env.arrived(cur.key) {
                    &&& r matches Some(Output::Result(v)) && v@ == env.spec_funnel(m, None, cur.key).0
                    &&& final(self).paths() == m
                    &&& final(self).open_entries() == h
                } else {
                    let nexts = env.spec_weigh(m, cur.key, spec_candidates(env.mesh, cur.key));
                    &&& r matches Some(Output::IntermediateStep(n, v)) && n == cur.key && v@ == nexts
                    &&& (final(self).paths(), final(self).open_entries()) == spec_relax(m, h, cur.key, nexts)
                }
            }),
            forall|k: PathNode| #[trigger] old(self).paths().contains_key(k) ==> {
                &&& final(self).paths().contains_key(k)
                &&& (final(self).paths()[k].score == old(self).paths()[k].score
                    || norm_lt(final(self).paths()[k].score, old(self).paths()[k].score))
            },
    {
        proof {
            broadcast use vstd::seq_lib::group_to_multiset_ensures;
            reveal(Astar::wf);
        }
        let ghost h0 = self.heap.items@;
        let ghost env0 = self.env;
        let cur = match self.heap.pop() {
            None => return None,
            Some(c) => c,
        };
        proof {
            let ms = h0.to_multiset();
            assert(ms.contains(cur));
            let fe = first_entry(ms);
            assert(ms.contains(fe) && forall|x: Entry<u32>| ms.contains(x) ==> !entry_gt(x, fe));
            lemma_entry_order(cur, fe, fe);
            assert(!entry_gt(cur, fe));
            assert(!entry_gt(fe, cur));
            assert(cur == fe);
            let j = choose|j: int| 0 <= j < h0.len() && h0[j] == cur;
            assert(self.best_paths.map().contains_key(face_node(h0[j].key)));
            assert(cur.key.fixed < self.env.mesh.num_faces());
            assert forall|i: int| 0 <= i < self.heap.items@.len() implies (#[trigger] self.heap.items@[i]).key.fixed < self.env.mesh.num_faces() by {
                let x = self.heap.items@[i];
                assert(self.heap.items@.to_multiset().contains(x));
                assert(h0.to_multiset().contains(x));
                let k = choose|k: int| 0 <= k < h0.len() && h0[k] == x;
            }
            assert forall|i: int| 0 <= i < self.heap.items@.len() implies self.best_paths.map().contains_key(
                face_node(#[trigger] self.heap.items@[i].key),
            ) by {
                let x = self.heap.items@[i];
                assert(self.heap.items@.to_multiset().contains(x));
                assert(h0.to_multiset().contains(x));
                let k = choose|k: int| 0 <= k < h0.len() && h0[k] == x;
            }
        }
        if self.env.final_end.layers.is_on_layer(cur.key.layer) && self.env.face_touches_end(cur.key.fixed) {
            let ret = self.env.funnel(&self.best_paths, None, cur.key);
            return Some(Output::Result(ret.0));
        }
        let cands = self.candidates(cur.key);
        let ghost m = self.best_paths.map();
        let mut next_nodes: Vec<(Node<u32>, Score)> = Vec::new();
        let mut k: usize = 0;
        while k < cands.len()
            invariant
                self.wf(),
                self.env == env0,
                m == self.best_paths.map(),
                cur.key.fixed < self.env.mesh.num_faces(),
                forall|i: int| 0 <= i < cands@.len() ==> (#[trigger] cands@[i]).fixed < self.env.mesh.num_faces(),
                k <= cands@.len(),
                next_nodes@ == self.env.spec_weigh(m, cur.key, cands@.take(k as int)),
                forall|i: int| 0 <= i < next_nodes@.len() ==> (#[trigger] next_nodes@[i]).0.fixed < self.env.mesh.num_faces(),
            decreases cands@.len() - k,
        {
            assert(cands@.take(k + 1).drop_last() =~= cands@.take(k as int));
            assert(cands@.take(k + 1).last() == cands@[k as int]);
            match self.env.calculate_score(&self.best_paths, Some(cur.key), cands[k]) {
                Some((s, _, _)) => next_nodes.push((cands[k], s)),
                None => {},
            }
            k = k + 1;
        }
        assert(cands@.take(k as int) =~= cands@);
        let ghost hm = self.heap.items@.to_multiset();
        let cur_bp: PathNode = Node { fixed: BestPathKey::Face(cur.key.fixed), layer: cur.key.layer };
        let ghost starts0 = self.starts;
        let mut j: usize = 0;
        while j < next_nodes.len()
            invariant
                self.env.wf(),
                self.env == env0,
                self.starts == starts0,
                self.best_paths.wf(),
                paths_valid(self.env.mesh, self.best_paths.map()),
                forall|i: int| 0 <= i < self.heap.items@.len() ==> (#[trigger] self.heap.items@[i]).key.fixed < self.env.mesh.num_faces(),
                open_nodes_known(self.heap.items@, self.best_paths.map()),
                cur.key.fixed < self.env.mesh.num_faces(),
                cur_bp == face_node(cur.key),
                forall|i: int| 0 <= i < next_nodes@.len() ==> (#[trigger] next_nodes@[i]).0.fixed < self.env.mesh.num_faces(),
                j <= next_nodes@.len(),
                (self.best_paths.map(), self.heap.items@.to_multiset()) == spec_relax(m, hm, cur.key, next_nodes@.take(j as int)),
            decreases next_nodes@.len() - j,
        {
            assert(next_nodes@.take(j + 1).drop_last() =~= next_nodes@.take(j as int));
            assert(next_nodes@.take(j + 1).last() == next_nodes@[j as int]);
            let (n, s) = next_nodes[j];
            let key: PathNode = Node { fixed: BestPathKey::Face(n.fixed), layer: n.layer };
            let skip = match self.best_paths.get(&key) {
                Some(old) => !s.less_than(&old.score),
                None => false,
            };
            if !skip {
                let ghost m0 = self.best_paths.map();
                let ghost hs0 = self.heap.items@;
                self.best_paths.insert(key, Entry { score: s, key: cur_bp });
                self.heap.push(Entry { score: s, key: n });
                proof {
                    broadcast use vstd::seq_lib::group_to_multiset_ensures;
                    assert(self.heap.items@.to_multiset() =~= hs0.to_multiset().insert(Entry { score: s, key: n }));
                    assert(key == face_node(n));
                    assert forall|q: PathNode| #[trigger] self.best_paths.map().contains_key(q) implies valid_path_node(self.env.mesh, q)
                        && valid_path_node(self.env.mesh, self.best_paths.map()[q].key) by {
                        if q != key {
                            assert(m0.contains_key(q));
                        }
                    }
                    let hs = self.heap.items@;
                    assert forall|i: int| 0 <= i < hs.len() implies (#[trigger] hs[i]).key.fixed < self.env.mesh.num_faces() by {
                        if i < hs.len() - 1 {
                            assert(hs[i] == hs.drop_last()[i]);
                        }
                    }
                    assert forall|i: int| 0 <= i < hs.len() implies self.best_paths.map().contains_key(face_node(#[trigger] hs[i].key)) by {
                        if i < hs.len() - 1 {
                            assert(hs[i] == hs.drop_last()[i]);
                            assert(hs.drop_last() == hs0);
                            assert(m0.contains_key(face_node(hs0[i].key)));
                        }
                    }
                }
            }
            j = j + 1;
        }
        assert(next_nodes@.take(j as int) =~= next_nodes@);
        proof {
            lemma_relax_scores_decrease(m, hm, cur.key, next_nodes@);
            lemma_relax_preds_known(m, hm, cur.key, next_nodes@, starts0@);
        }
        Some(Output::IntermediateStep(cur.key, next_nodes))
    }
}

// ---------------------------------------------------------------------------------------
// The start of a search.

/// Whether `x` is one of the first `n` elements of `s`.
pub open spec fn in_prefix<A>(s: Seq<A>, n: int, x: A) -> bool {
    exists|j: int| 0 <= j < n && j < s.len() && #[trigger] s[j] == x
}

/// Whether a search from vertex `v` starts at node `n`: a face of `v`, on a layer of that
/// face that is also in `layers`.
pub open spec fn starts_at<T: MultiLayerNavmesh>(mesh: &T, layers: Set<usize>, v: u32, n: Node<u32>) -> bool {
    &&& mesh.spec_vertex_adjacent_faces(v).contains(n.fixed)
    &&& mesh.spec_face_layers(n.fixed).contains(n.layer@ as usize)
    &&& layers.contains(n.layer@ as usize)
}

/// The best-path entry of a start node `n` of vertex `v`: reached from `v`, with score zero.
pub open spec fn start_entry(v: u32, n: Node<u32>) -> Entry<BestPathKey<u32, u32>> {
    Entry { score: zero_score(), key: Node { fixed: BestPathKey::Vertex(v), layer: n.layer } }
}

/// The start entries of vertex `v` for the nodes that satisfy `done`.
pub open spec fn start_map(v: u32, done: spec_fn(Node<u32>) -> bool) -> Map<PathNode, Entry<BestPathKey<u32, u32>>> {
    Map::new(|key: PathNode| key.fixed is Face && done(untag(key)), |key: PathNode| start_entry(v, untag(key)))
}

/// The best paths after starting from the first `k` vertices of `vs`: each start node is
/// reached from the last of those vertices that starts at it.
pub open spec fn start_paths<T: MultiLayerNavmesh>(mesh: &T, layers: Set<usize>, vs: Seq<u32>, k: int) -> Map<
    PathNode,
    Entry<BestPathKey<u32, u32>>,
>
    decreases k,
{
    if k <= 0 {
        Map::empty()
    } else {
        start_paths(mesh, layers, vs, k - 1).union_prefer_right(
            start_map(vs[k - 1], |n: Node<u32>| starts_at(mesh, layers, vs[k - 1], n)),
        )
    }
}

/// Whether every node of the best paths `m` is a face node.
pub open spec fn face_keys(m: Map<PathNode, Entry<BestPathKey<u32, u32>>>) -> bool {
    forall|key: PathNode| #[trigger] m.contains_key(key) ==> !is_vertex_node(key)
}

/// A layer reached by [`spec_layer_walk`] belongs to the set walked to.
proof fn lemma_layer_walk_in(s: Set<usize>, l: LayerId)
    requires
        all_layer_indices(s),
    ensures
        spec_layer_walk(s, l) matches Some((_, m)) ==> s.contains(m@ as usize),
{
    if !s.contains(l@ as usize) {
        if exists|b: usize| closest_below(s, l@, b) {
            let b = choose|b: usize| closest_below(s, l@, b);
            assert(LayerId(b as u32)@ == b);
        } else if exists|a: usize| closest_above(s, l@, a) {
            let a = choose|a: usize| closest_above(s, l@, a);
            assert(a <= u32::MAX);
            assert(LayerId(a as u32)@ == a);
        }
    }
}

/// Whether the way `c` to end vertex `i` lets the way of length `best` to end vertex `j`
/// be the first of the shortest: `best` is strictly shorter when `i` comes before `j`, and
/// no longer when `i` comes after.
pub open spec fn first_shortest(best: Score, j: int, i: int, c: Option<(Score, Seq<FPoint<Node<u32>>>, Node<u32>)>) -> bool {
    match c {
        Some(c) => (i < j ==> norm_lt(best, c.0)) && (j < i ==> !norm_lt(c.0, best)),
        None => true,
    }
}

impl<'a, T: MultiLayerNavmesh, N: PointNorm> Environment<'a, T, N> {
    /// The end chosen among the first `k` end vertices is one of them.
    proof fn lemma_choose_end_in(&self, st1: FState<Node<u32>>, k: int)
        ensures
            self.spec_choose_end(st1, k) matches Some((_, _, n)) ==> exists|i: int|
                0 <= i < k && #[trigger] self.final_end.fixed@[i] == n.fixed,
        decreases k,
    {
        if k > 0 {
            self.lemma_choose_end_in(st1, k - 1);
            let c = self.spec_end_choice(st1, self.final_end.fixed@[k - 1]);
            if let Some((_, _, n)) = self.spec_choose_end(st1, k) {
                if self.spec_choose_end(st1, k) == c {
                    assert(self.final_end.fixed@[k - 1] == n.fixed);
                }
            }
        }
    }

    /// Among the first `k` end vertices, the end chosen is the first of the shortest ways
    /// (see [`first_shortest`]); with the end vertices in increasing order, as [`astar`]
    /// takes them, ties go to the smallest vertex. No end is chosen only when none can be
    /// reached.
    pub proof fn lemma_choose_end_first(&self, st1: FState<Node<u32>>, k: int)
        requires
            0 <= k <= self.final_end.fixed@.len(),
        ensures
            self.spec_choose_end(st1, k) is None ==> forall|i: int|
                0 <= i < k ==> (#[trigger] self.spec_end_choice(st1, self.final_end.fixed@[i])) is None,
            self.spec_choose_end(st1, k) matches Some(best) ==> exists|j: int| {
                &&& 0 <= j < k
                &&& self.spec_end_choice(st1, self.final_end.fixed@[j]) == Some(best)
                &&& forall|i: int| 0 <= i < k ==> first_shortest(best.0, j, i, #[trigger] self.spec_end_choice(st1, self.final_end.fixed@[i]))
            },
        decreases k,
    {
        if k > 0 {
            self.lemma_choose_end_first(st1, k - 1);
            let fx = self.final_end.fixed@;
            let b = self.spec_choose_end(st1, k - 1);
            let c = self.spec_end_choice(st1, fx[k - 1]);
            match b {
                None => {
                    if let Some(cc) = c {
                        assert forall|i: int| 0 <= i < k implies first_shortest(cc.0, k - 1, i, #[trigger] self.spec_end_choice(st1, fx[i])) by {
                            if i < k - 1 {
                                assert(self.spec_end_choice(st1, fx[i]) is None);
                            }
                        }
                        assert(self.spec_end_choice(st1, fx[k - 1]) == Some(cc));
                    }
                },
                Some(bb) => {
                    let jb = choose|j: int| {
                        &&& 0 <= j < k - 1
                        &&& self.spec_end_choice(st1, fx[j]) == Some(bb)
                        &&& forall|i: int| 0 <= i < k - 1 ==> first_shortest(bb.0, j, i, #[trigger] self.spec_end_choice(st1, fx[i]))
                    };
                    match c {
                        None => {
                            assert forall|i: int| 0 <= i < k implies first_shortest(bb.0, jb, i, #[trigger] self.spec_end_choice(st1, fx[i])) by {}
                        },
                        Some(cc) => {
                            if norm_lt(cc.0, bb.0) {
                                assert forall|i: int| 0 <= i < k implies first_shortest(cc.0, k - 1, i, #[trigger] self.spec_end_choice(st1, fx[i])) by {
                                    if i < k - 1 {
                                        if let Some(ci) = self.spec_end_choice(st1, fx[i]) {
                                            assert(first_shortest(bb.0, jb, i, self.spec_end_choice(st1, fx[i])));
                                            if i == jb {
                                            } else if i < jb {
                                                lemma_norm_order_transitive(cc.0, bb.0, ci.0);
                                            } else {
                                                lemma_norm_order_antisymmetric(ci.0, bb.0);
                                                if bb.0 != ci.0 {
                                                    lemma_norm_order_transitive(cc.0, bb.0, ci.0);
                                                }
                                            }
                                        }
                                    }
                                }
                                assert(self.spec_end_choice(st1, fx[k - 1]) == Some(cc));
                            } else {
                                assert forall|i: int| 0 <= i < k implies first_shortest(bb.0, jb, i, #[trigger] self.spec_end_choice(st1, fx[i])) by {}
                            }
                        },
                    }
                },
            }
        }
    }

    /// A path that the search finds starts with a point, and ends at one of the vertices
    /// of the end of the search, on one of its layers.
    pub proof fn lemma_path_reaches_end(
        &self,
        m: Map<PathNode, Entry<BestPathKey<u32, u32>>>,
        intermed: Option<Node<u32>>,
        end: Node<u32>,
    )
        requires
            all_layer_indices(self.final_end.layers@),
        ensures
            ({
                let v = self.spec_funnel(m, intermed, end).0;
                v.len() > 0 ==> {
                    &&& v[0] is Point
                    &&& v.last() matches FunnelEntry::Point(n) && self.final_end.fixed@.contains(n.fixed)
                        && self.final_end.layers@.contains(n.layer@ as usize)
                }
            }),
    {
        let v = self.spec_funnel(m, intermed, end).0;
        if v.len() > 0 {
            let p = spec_best_path(m, intermed, end).unwrap();
            let (start, faces) = split_path(p).unwrap();
            let (portals, entries) = spec_walk(self.mesh, faces, 0).unwrap();
            let (st1, apices) = spec_run(start_state(self.mesh, start, portals), self.epsilon as int);
            let k = self.final_end.fixed@.len() as int;
            self.lemma_choose_end_in(st1, k);
            let (_, stretch, fnode) = self.spec_choose_end(st1, k).unwrap();
            let layer = if stretch.len() > 0 { stretch.last().1.layer } else { fnode.layer };
            lemma_layer_walk_in(self.final_end.layers@, layer);
            let i = choose|i: int| 0 <= i < k && #[trigger] self.final_end.fixed@[i] == fnode.fixed;
            assert(self.final_end.fixed@.contains(fnode.fixed));
        }
    }
}

impl<'a, T: MultiLayerNavmesh, N: PointNorm> Environment<'a, T, N> {
    /// The score of the start node `n` of vertex `v`.
    pub open spec fn start_score(&self, v: u32, n: Node<u32>) -> Option<(Score, Seq<FunnelEntry<u32>>, Seq<Node<u32>>)> {
        self.spec_calculate_score(Map::empty().insert(face_node(n), start_entry(v, n)), None, n)
    }

    /// Whether starting from vertex `v` puts the entry `e` in the open set.
    pub open spec fn start_open(&self, layers: Set<usize>, v: u32, e: Entry<u32>) -> bool {
        &&& starts_at(self.mesh, layers, v, e.key)
        &&& self.start_score(v, e.key) is Some
        &&& self.start_score(v, e.key).unwrap().0 == e.score
    }

    /// How many times the entry `e` is in the open set after starting from the first `k`
    /// vertices of `vs`.
    pub open spec fn start_count(&self, layers: Set<usize>, vs: Seq<u32>, e: Entry<u32>, k: int) -> nat
        decreases k,
    {
        if k <= 0 {
            0
        } else {
            self.start_count(layers, vs, e, k - 1) + if self.start_open(layers, vs[k - 1], e) {
                1nat
            } else {
                0nat
            }
        }
    }

    /// A start node scores as if it were the only best path.
    proof fn lemma_start_score(&self, m: Map<PathNode, Entry<BestPathKey<u32, u32>>>, v: u32, n: Node<u32>)
        requires
            m.dom().finite(),
            m.contains_key(face_node(n)),
            m[face_node(n)] == start_entry(v, n),
            face_keys(m),
        ensures
            self.spec_calculate_score(m, None, n) == self.start_score(v, n),
    {
        let m1 = Map::<PathNode, Entry<BestPathKey<u32, u32>>>::empty().insert(face_node(n), start_entry(v, n));
        let vn: PathNode = Node { fixed: BestPathKey::Vertex(v), layer: n.layer };
        assert(m.dom().len() >= 1) by {
            vstd::set_lib::lemma_len_subset(set![face_node(n)], m.dom());
        }
        assert(m1.dom() =~= set![face_node(n)]);
        assert(m1.dom().len() == 1);
        assert(!m.contains_key(vn)) by {
            if m.contains_key(vn) {
                assert(!is_vertex_node(vn));
            }
        }
        assert(up_chain(m, vn, (m.dom().len() - 1) as nat) == seq![vn]);
        assert(up_chain(m1, vn, 0) == seq![vn]);
        assert(up_chain(m, face_node(n), m.dom().len()) =~= seq![face_node(n), vn]);
        assert(up_chain(m1, face_node(n), m1.dom().len()) =~= seq![face_node(n), vn]);
        assert(spec_best_path(m, None, n) == spec_best_path(m1, None, n));
    }
}

/// The search from `start` to `end` in `mesh`, before its first step: the best paths and
/// the open set hold the faces of the start vertices on the layers they share with
/// `start.layers`, each scored as the funnelled path from its vertex. Lengths are measured
/// with `point_norm`, apices closer than `epsilon` are merged, and each change of layer
/// costs `layer_transition_penality`. The vertices of `start` and of `end` are sets: they
/// come in increasing order, without repeats.
pub fn astar<'a, T: MultiLayerNavmesh, N: PointNorm>(
    mesh: &'a T,
    point_norm: N,
    start: Endpoint<u32>,
    end: Endpoint<u32>,
    epsilon: i32,
    layer_transition_penality: Score,
) -> (r: Astar<'a, T, N>)
    requires
        mesh.topo_wf(),
        within_span(mesh_points(mesh)),
        epsilon >= 0,
        end.fixed@.len() > 0,
        forall|i: int| 0 <= i < end.fixed@.len() ==> #[trigger] end.fixed@[i] < mesh.num_vertices(),
        forall|i: int| 0 <= i < start.fixed@.len() ==> #[trigger] start.fixed@[i] < mesh.num_vertices(),
        strictly_increasing(start.fixed@),
        strictly_increasing(end.fixed@),
    ensures
        r.wf(),
        r.env() == (Environment { mesh, point_norm, final_end: end, epsilon, layer_transition_penality }),
        r.start_vertices() == start.fixed@,
        r.paths() == start_paths(mesh, start.layers@, start.fixed@, start.fixed@.len() as int),
        forall|e: Entry<u32>| #[trigger] r.open_entries().count(e) == r.env().start_count(start.layers@, start.fixed@, e, start.fixed@.len() as int),
{
    let env = Environment { mesh, point_norm, final_end: end, epsilon, layer_transition_penality };
    let mut best_paths = BestPaths::new();
    let mut heap = OpenSet::new();
    let ghost layers = start.layers@;
    let ghost vs = start.fixed@;
    proof {
        broadcast use vstd::seq_lib::group_to_multiset_ensures;
        broadcast use vstd::multiset::group_multiset_axioms;
        mesh.lemma_topo_wf();
        assert(best_paths.map() =~= start_paths(mesh, layers, vs, 0));
    }
    let mut k: usize = 0;
    while k < start.fixed.len()
        invariant
            env.wf(),
            env.mesh == mesh,
            layers == start.layers@,
            vs == start.fixed@,
            forall|i: int| 0 <= i < vs.len() ==> #[trigger] vs[i] < mesh.num_vertices(),
            k <= vs.len(),
            best_paths.wf(),
            paths_valid(mesh, best_paths.map()),
            face_keys(best_paths.map()),
            preds_known(best_paths.map(), vs),
            best_paths.map() == start_paths(mesh, layers, vs, k as int),
            forall|i: int| 0 <= i < heap.items@.len() ==> (#[trigger] heap.items@[i]).key.fixed < mesh.num_faces(),
            open_nodes_known(heap.items@, best_paths.map()),
            forall|e: Entry<u32>| #[trigger] heap.items@.to_multiset().count(e) == env.start_count(layers, vs, e, k as int),
        decreases vs.len() - k,
    {
        let v = start.fixed[k];
        let adj = mesh.vertex_adjacent_faces(v);
        proof {
            mesh.lemma_topo_wf();
        }
        let ghost base_m = best_paths.map();
        let ghost base_h = heap.items@.to_multiset();
        let mut a: usize = 0;
        while a < adj.len()
            invariant
                env.wf(),
                env.mesh == mesh,
                layers == start.layers@,
                vs == start.fixed@,
                k < vs.len(),
                v == vs[k as int],
                v < mesh.num_vertices(),
                adj@ == mesh.spec_vertex_adjacent_faces(v),
                forall|i: int| 0 <= i < adj@.len() ==> #[trigger] adj@[i] < mesh.num_faces(),
                a <= adj@.len(),
                best_paths.wf(),
                paths_valid(mesh, best_paths.map()),
                face_keys(best_paths.map()),
                preds_known(best_paths.map(), vs),
                best_paths.map() == base_m.union_prefer_right(
                    start_map(v, |n: Node<u32>| starts_at(mesh, layers, v, n) && in_prefix(adj@, a as int, n.fixed)),
                ),
                forall|i: int| 0 <= i < heap.items@.len() ==> (#[trigger] heap.items@[i]).key.fixed < mesh.num_faces(),
                open_nodes_known(heap.items@, best_paths.map()),
                forall|e: Entry<u32>| #[trigger] heap.items@.to_multiset().count(e) == base_h.count(e) + if env.start_open(layers, v, e)
                    && in_prefix(adj@, a as int, e.key.fixed) {
                    1nat
                } else {
                    0nat
                },
            decreases adj@.len() - a,
        {
            let f = adj[a];
            let mut seen = false;
            let mut q: usize = 0;
            while q < a
                invariant
                    a < adj@.len(),
                    q <= a,
                    seen <==> in_prefix(adj@, q as int, f),
                    f == adj@[a as int],
                decreases a - q,
            {
                if adj[q] == f {
                    seen = true;
                }
                proof {
                    if adj@[q as int] == f {
                        assert(in_prefix(adj@, q + 1, f));
                    } else if in_prefix(adj@, q + 1, f) {
                        let j = choose|j: int| 0 <= j < q + 1 && j < adj@.len() && #[trigger] adj@[j] == f;
                        assert(in_prefix(adj@, q as int, f));
                    }
                }
                q = q + 1;
            }
            proof {
                assert forall|x: u32| in_prefix(adj@, a + 1, x) <==> in_prefix(adj@, a as int, x) || x == f by {
                    if x == f {
                        assert(adj@[a as int] == f);
                    }
                    if in_prefix(adj@, a + 1, x) && x != f {
                        let j = choose|j: int| 0 <= j < a + 1 && j < adj@.len() && #[trigger] adj@[j] == x;
                        assert(j < a);
                    }
                }
            }
            if !seen {
                let ls = mesh.face_layers(f).intersection(&start.layers).iter();
                let ghost mid_m = best_paths.map();
                let ghost mid_h = heap.items@.to_multiset();
                let mut b: usize = 0;
                while b < ls.len()
                    invariant
                        env.wf(),
                        env.mesh == mesh,
                        layers == start.layers@,
                        v == vs[k as int],
                        vs == start.fixed@,
                        k < vs.len(),
                        adj@ == mesh.spec_vertex_adjacent_faces(v),
                        a < adj@.len(),
                        f == adj@[a as int],
                        f < mesh.num_faces(),
                        !in_prefix(adj@, a as int, f),
                        v < mesh.num_vertices(),
                        forall|i: int, j: int| 0 <= i < j < ls@.len() ==> ls@[i]@ < ls@[j]@,
                        crate::flat::layer::layer_indices(ls@) == mesh.spec_face_layers(f).intersect(layers),
                        b <= ls@.len(),
                        best_paths.wf(),
                        paths_valid(mesh, best_paths.map()),
                        face_keys(best_paths.map()),
                        preds_known(best_paths.map(), vs),
                        best_paths.map() == mid_m.union_prefer_right(
                            start_map(v, |n: Node<u32>| n.fixed == f && in_prefix(ls@, b as int, n.layer)),
                        ),
                        forall|i: int| 0 <= i < heap.items@.len() ==> (#[trigger] heap.items@[i]).key.fixed < mesh.num_faces(),
                        open_nodes_known(heap.items@, best_paths.map()),
                        forall|e: Entry<u32>| #[trigger] heap.items@.to_multiset().count(e) == mid_h.count(e) + if env.start_open(layers, v, e)
                            && e.key.fixed == f && in_prefix(ls@, b as int, e.key.layer) {
                            1nat
                        } else {
                            0nat
                        },
                    decreases ls@.len() - b,
                {
                    let l = ls[b];
                    let node = Node { fixed: f, layer: l };
                    let key: PathNode = Node { fixed: BestPathKey::Face(f), layer: l };
                    let ghost m0 = best_paths.map();
                    let ghost h0 = heap.items@;
                    best_paths.insert(key, Entry { score: DiagonalTaxicabNorm::zero(), key: Node { fixed: BestPathKey::Vertex(v), layer: l } });
                    proof {
                        lemma_assoc_map(best_paths.entries@);
                        assert(key == face_node(node));
                        assert(best_paths.map()[key] == start_entry(v, node));
                        assert forall|q: PathNode| #[trigger] best_paths.map().contains_key(q) implies !is_vertex_node(q) by {
                            if q != key {
                                assert(m0.contains_key(q));
                            }
                        }
                        assert(vs[k as int] == v);
                        assert forall|q: PathNode| #[trigger] best_paths.map().contains_key(q) implies match best_paths.map()[q].key.fixed {
                            BestPathKey::Vertex(w) => vs.contains(w),
                            BestPathKey::Face(_) => best_paths.map().contains_key(best_paths.map()[q].key),
                        } by {
                            if q != key {
                                assert(m0.contains_key(q));
                            }
                        }
                        assert forall|q: PathNode| #[trigger] best_paths.map().contains_key(q) implies valid_path_node(mesh, q)
                            && valid_path_node(mesh, best_paths.map()[q].key) by {
                            if q != key {
                                assert(m0.contains_key(q));
                            }
                        }
                        env.lemma_start_score(best_paths.map(), v, node);
                        assert(ls@.contains(l));
                        assert(crate::flat::layer::layer_indices(ls@).contains(l@ as usize));
                        assert(adj@.contains(f));
                        assert(starts_at(mesh, layers, v, node));
                        assert(!in_prefix(ls@, b as int, l)) by {
                            if in_prefix(ls@, b as int, l) {
                                let i = choose|i: int| 0 <= i < b && i < ls@.len() && #[trigger] ls@[i] == l;
                                assert(ls@[i]@ < ls@[b as int]@);
                            }
                        }
                        assert forall|x: LayerId| in_prefix(ls@, b + 1, x) <==> in_prefix(ls@, b as int, x) || x == l by {
                            if x == l {
                                assert(ls@[b as int] == l);
                            }
                            if in_prefix(ls@, b + 1, x) && x != l {
                                let j = choose|j: int| 0 <= j < b + 1 && j < ls@.len() && #[trigger] ls@[j] == x;
                                assert(j < b);
                            }
                        }
                    }
                    let sc = env.calculate_score(&best_paths, None, node);
                    match sc {
                        Some((s, _, _)) => {
                            heap.push(Entry { score: s, key: node });
                            proof {
                                broadcast use vstd::seq_lib::group_to_multiset_ensures;
                                assert(heap.items@.to_multiset() =~= h0.to_multiset().insert(Entry { score: s, key: node }));
                            }
                        },
                        None => {},
                    }
                    proof {
                        broadcast use vstd::multiset::group_multiset_axioms;
                        assert forall|e: Entry<u32>| #[trigger] heap.items@.to_multiset().count(e) == mid_h.count(e) + if env.start_open(layers, v, e)
                            && e.key.fixed == f && in_prefix(ls@, b + 1, e.key.layer) {
                            1nat
                        } else {
                            0nat
                        } by {
                            if e.key == node {
                                assert(in_prefix(ls@, b + 1, e.key.layer));
                            } else if e.key.fixed == f {
                                assert(in_prefix(ls@, b + 1, e.key.layer) == in_prefix(ls@, b as int, e.key.layer));
                            }
                        }
                        assert(best_paths.map() =~= mid_m.union_prefer_right(
                            start_map(v, |n: Node<u32>| n.fixed == f && in_prefix(ls@, b + 1, n.layer)),
                        ));
                        let hs = heap.items@;
                        assert forall|i: int| 0 <= i < hs.len() implies (#[trigger] hs[i]).key.fixed < mesh.num_faces() by {
                            if i < h0.len() {
                                assert(hs[i] == h0[i]);
                            }
                        }
                        assert forall|i: int| 0 <= i < hs.len() implies best_paths.map().contains_key(face_node(#[trigger] hs[i].key)) by {
                            if i < h0.len() {
                                assert(hs[i] == h0[i]);
                                assert(m0.contains_key(face_node(h0[i].key)));
                            }
                        }
                    }
                    b = b + 1;
                }
                proof {
                    assert forall|x: LayerId| in_prefix(ls@, b as int, x) <==> ls@.contains(x) by {
                        if ls@.contains(x) {
                            let j = choose|j: int| 0 <= j < ls@.len() && ls@[j] == x;
                            assert(in_prefix(ls@, b as int, x));
                        }
                    }
                    assert forall|n: Node<u32>| n.fixed == f && ls@.contains(n.layer) <==> n.fixed == f && starts_at(mesh, layers, v, n) by {
                        if n.fixed == f && starts_at(mesh, layers, v, n) {
                            assert(crate::flat::layer::layer_indices(ls@).contains(n.layer@ as usize));
                            let i = choose|i: int| 0 <= i < ls@.len() && ls@[i]@ == n.layer@ as usize;
                            assert(ls@[i] == n.layer);
                        }
                        if n.fixed == f && ls@.contains(n.layer) {
                            let i = choose|i: int| 0 <= i < ls@.len() && ls@[i] == n.layer;
                            assert(crate::flat::layer::layer_indices(ls@).contains(n.layer@ as usize));
                            assert(adj@.contains(f)) by {
                                assert(adj@[a as int] == f);
                            }
                        }
                    }
                    assert(best_paths.map() =~= base_m.union_prefer_right(
                        start_map(v, |n: Node<u32>| starts_at(mesh, layers, v, n) && in_prefix(adj@, a + 1, n.fixed)),
                    ));
                    assert forall|e: Entry<u32>| #[trigger] heap.items@.to_multiset().count(e) == base_h.count(e) + if env.start_open(layers, v, e)
                        && in_prefix(adj@, a + 1, e.key.fixed) {
                        1nat
                    } else {
                        0nat
                    } by {
                        if e.key.fixed == f {
                            assert(in_prefix(adj@, a + 1, e.key.fixed));
                            if env.start_open(layers, v, e) {
                                assert(starts_at(mesh, layers, v, e.key));
                                assert(ls@.contains(e.key.layer));
                            }
                        } else {
                            assert(in_prefix(adj@, a + 1, e.key.fixed) == in_prefix(adj@, a as int, e.key.fixed));
                        }
                    }
                }
            } else {
                proof {
                    assert forall|x: u32| in_prefix(adj@, a + 1, x) == in_prefix(adj@, a as int, x) by {
                        if in_prefix(adj@, a + 1, x) && x == f {
                        }
                    }
                    assert(best_paths.map() =~= base_m.union_prefer_right(
                        start_map(v, |n: Node<u32>| starts_at(mesh, layers, v, n) && in_prefix(adj@, a + 1, n.fixed)),
                    ));
                }
            }
            a = a + 1;
        }
        proof {
            assert forall|x: u32| in_prefix(adj@, a as int, x) <==> adj@.contains(x) by {
                if adj@.contains(x) {
                    let j = choose|j: int| 0 <= j < adj@.len() && adj@[j] == x;
                    assert(in_prefix(adj@, a as int, x));
                }
            }
            assert(best_paths.map() =~= start_paths(mesh, layers, vs, k + 1));
            assert forall|e: Entry<u32>| #[trigger] heap.items@.to_multiset().count(e) == env.start_count(layers, vs, e, k + 1) by {
                if env.start_open(layers, v, e) {
                    assert(adj@.contains(e.key.fixed));
                }
            }
        }
        k = k + 1;
    }
    Astar { best_paths, heap, env, starts: Ghost(start.fixed@) }
}

} // verus!
