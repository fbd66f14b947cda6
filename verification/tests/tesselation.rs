use anyangle::flat::{FrozenFaceNeighbour, FrozenTesselation};

#[test]
fn freeze_numbers_vertices_in_order() {
    let tri = vec![[5, 5], [0, 0], [9, 1]];
    let t = FrozenTesselation::freeze_faces(vec![tri], vec![7u8], vec![vec![]]);
    assert_eq!(t.vertices(), &[[0, 0], [5, 5], [9, 1]]);
    assert_eq!(t.faces().len(), 1);
    assert_eq!(t.faces()[0].contour, vec![1, 0, 2]);
    assert_eq!(t.faces()[0].data, 7);
    assert!(t.faces()[0].neighbours.is_empty());
}

#[test]
fn freeze_links_neighbours() {
    let a = vec![[0, 0], [10, 0], [0, 10]];
    let b = vec![[10, 0], [10, 10], [0, 10]];
    let t = FrozenTesselation::freeze_faces(
        vec![a.clone(), b.clone()],
        vec!['a', 'b'],
        vec![vec![(b, [[0, 10], [10, 0]])], vec![(a, [[10, 0], [0, 10]])]],
    );
    assert_eq!(t.vertices(), &[[0, 0], [0, 10], [10, 0], [10, 10]]);
    assert_eq!(
        t.faces()[0].neighbours,
        vec![FrozenFaceNeighbour { face_id: 1, portal_lhs: 1, portal_rhs: 2 }]
    );
    assert_eq!(
        t.faces()[1].neighbours,
        vec![FrozenFaceNeighbour { face_id: 0, portal_lhs: 2, portal_rhs: 1 }]
    );
}

use anyangle::flat::{LayerIds, Tesselation};
use anyangle::LayerId;
use std::ops::ControlFlow;

fn square(x0: i32, y0: i32, x1: i32, y1: i32) -> Vec<[i32; 2]> {
    vec![[x0, y0], [x1, y0], [x1, y1], [x0, y1]]
}

fn layer0() -> LayerIds {
    LayerIds::from_layers(&vec![LayerId(0)])
}

/// Twice the area of a polygon.
fn area2(c: &[[i32; 2]]) -> i64 {
    let mut a = 0i64;
    for i in 0..c.len() {
        let p = c[i];
        let q = c[(i + 1) % c.len()];
        a += p[0] as i64 * q[1] as i64 - q[0] as i64 * p[1] as i64;
    }
    a.abs()
}

fn two_squares() -> Tesselation<LayerIds> {
    let mut tess = Tesselation::<LayerIds>::default();
    tess.allocate_shapes(vec![vec![square(0, 0, 10, 10)]]);
    tess.allocate_shapes(vec![vec![square(10, 0, 20, 10)]]);
    tess
}

#[test]
fn allocating_into_nothing_makes_default_faces() {
    let mut tess = Tesselation::<LayerIds>::default();
    assert_eq!(tess.envelope(), None);
    tess.allocate_shapes(vec![vec![square(0, 0, 4, 4)]]);
    assert!(!tess.rtree().is_empty());
    assert!(tess.rtree().iter().all(|f| f.data == LayerIds::default()));
    let total: i64 = tess.rtree().iter().map(|f| area2(&f.contour)).sum();
    assert_eq!(total, 32);
    assert_eq!(tess.envelope(), Some(([0, 0], [4, 4])));
}

#[test]
fn update_data_stops_where_it_breaks() {
    let mut tess = Tesselation::<LayerIds>::default();
    tess.allocate_shapes(vec![vec![square(0, 0, 2, 2)]]);
    tess.allocate_shapes(vec![vec![square(5, 0, 7, 2)]]);
    let both = square(0, 0, 7, 2);
    let r = tess.update_data(&both, |_, mut l: LayerIds| {
        l.insert(LayerId(0));
        (l, ControlFlow::Break(7))
    });
    assert_eq!(r, ControlFlow::Break(7));
    assert_eq!(tess.rtree().iter().filter(|f| f.data == layer0()).count(), 1);

    let r = tess.update_data::<(), _>(&both, |_, mut l: LayerIds| {
        l.insert(LayerId(0));
        (l, ControlFlow::Continue(()))
    });
    assert_eq!(r, ControlFlow::Continue(()));
    assert!(tess.rtree().iter().all(|f| f.data == layer0()));

    // a contour that meets no face changes nothing
    let r = tess.update_data::<(), _>(&square(20, 20, 30, 30), |_, _| panic!("no face meets it"));
    assert_eq!(r, ControlFlow::Continue(()));
}

#[test]
fn freezing_two_squares() {
    let tess = two_squares();
    let frozen = tess.freeze().expect("two squares can be frozen");
    assert_eq!(frozen.faces().len(), tess.rtree().len());
    assert_eq!(frozen.vertices(), &[[0, 0], [0, 10], [10, 0], [10, 10], [20, 0], [20, 10]]);
    let total_neighbours: usize = frozen.faces().iter().map(|f| f.neighbours.len()).sum();
    assert!(total_neighbours >= 2);
    for (i, f) in frozen.faces().iter().enumerate() {
        for n in &f.neighbours {
            assert!(frozen.faces()[n.face_id as usize].neighbours.iter().any(|m| m.face_id as usize == i));
        }
    }
}

#[test]
fn tesselation_topology() {
    let tess = two_squares();
    let a = tess.rtree().iter().find(|f| f.contour.iter().all(|p| p[0] <= 10)).unwrap().contour.clone();
    let adjacent = tess.face_adjacent_faces(&a);
    assert!(!adjacent.is_empty());
    assert!(adjacent.iter().all(|c| c.iter().all(|p| p[0] >= 10)));
    for c in &adjacent {
        let portal = tess.portal_between(&a, c).expect("a shared edge");
        assert!(portal.iter().all(|p| p[0] == 10));
    }
    assert_eq!(tess.vertex_adjacent_faces([20, 10]).len(), adjacent.len());
    assert_eq!(tess.face_layers(&a), Some(LayerIds::default()));
    assert_eq!(tess.face_layers(&square(50, 50, 60, 60)), None);
}

#[test]
fn optimizing_keeps_the_covered_area() {
    let mut tess = two_squares();
    let (lo, hi) = tess.envelope().unwrap();
    tess.optimize_envelope(lo, hi);
    let total: i64 = tess.rtree().iter().map(|f| area2(&f.contour)).sum();
    assert_eq!(total, 400);
    assert_eq!(tess.envelope(), Some(([0, 0], [20, 10])));
    assert!(tess.rtree().len() <= 2);
    tess.rebalance();
    assert_eq!(tess.envelope(), Some(([0, 0], [20, 10])));
}

#[test]
fn mapping_data() {
    let mut tess = two_squares();
    let _ = tess.update_data::<(), _>(&square(0, 0, 10, 10), |_, mut l: LayerIds| {
        l.insert(LayerId(3));
        (l, ControlFlow::Continue(()))
    });
    let counts = tess.map_data(|l: LayerIds| l.iter().len());
    let mut seen: Vec<usize> = counts.rtree().iter().map(|f| f.data).collect();
    seen.sort();
    seen.dedup();
    assert_eq!(seen, vec![0, 1]);
}
