use anyangle::flat::astar::{astar, DiagonalTaxicab, Endpoint, Euclidean, FunnelEntry, Node, Output, PointNorm};
use anyangle::flat::{FrozenTesselation, LayerIds, MultiLayerNavmesh, Topo2DComplex};
use anyangle::math::diagonal_taxicab::DiagonalTaxicabNorm;
use anyangle::LayerId;

fn layers(ls: &[u32]) -> LayerIds {
    LayerIds::from_layers(&ls.iter().map(|&l| LayerId(l)).collect())
}

/// Two squares side by side: `[0, 10] x [0, 10]` (face 0) and `[10, 20] x [0, 10]`
/// (face 1), with the given layers; portals are `[left, right]` in a y-down frame.
fn two_squares(l0: LayerIds, l1: LayerIds) -> FrozenTesselation<i32, LayerIds> {
    let a = vec![[0, 0], [10, 0], [10, 10], [0, 10]];
    let b = vec![[10, 0], [20, 0], [20, 10], [10, 10]];
    FrozenTesselation::freeze_faces(
        vec![a.clone(), b.clone()],
        vec![l0, l1],
        vec![vec![(b, [[10, 0], [10, 10]])], vec![(a, [[10, 10], [10, 0]])]],
    )
}

fn node(fixed: u32, layer: u32) -> Node<u32> {
    Node { fixed, layer: LayerId(layer) }
}

fn norm(along_axis: i32, diagonal: i32) -> DiagonalTaxicabNorm<i32> {
    DiagonalTaxicabNorm { along_axis, diagonal }
}

#[test]
fn frozen_squares_topology() {
    let mesh = two_squares(layers(&[0]), layers(&[0]));
    // vertices in lexicographic order
    assert_eq!(mesh.vertices(), &[[0, 0], [0, 10], [10, 0], [10, 10], [20, 0], [20, 10]]);
    assert_eq!(mesh.face_adjacent_vertices(0), vec![0, 2, 3, 1]);
    assert_eq!(mesh.face_adjacent_vertices(1), vec![2, 4, 5, 3]);
    assert_eq!(mesh.face_adjacent_faces(0), vec![1]);
    assert_eq!(mesh.vertex_adjacent_faces(3), vec![0, 1]);
    assert_eq!(mesh.vertex_adjacent_faces(5), vec![1]);
    assert_eq!(mesh.portal_between(0, 1), Some([2, 3]));
    assert_eq!(mesh.portal_between(1, 0), Some([3, 2]));
    assert_eq!(mesh.portal_between(0, 0), None);
    assert_eq!(mesh.portal_between(2, 0), None);
    assert_eq!(mesh.portal_between(0, 2), None);
    assert_eq!(mesh.portal_between(u32::MAX, 1), None);
    assert_eq!(mesh.vertex_position(4), [20, 0]);
    assert_eq!(mesh.face_layers(1), layers(&[0]));
}

#[test]
fn diagonal_taxicab_point_norm() {
    assert_eq!(DiagonalTaxicab.point_norm(&[-20, -10]), norm(10, 10));
    assert_eq!(DiagonalTaxicab.point_norm(&[0, 7]), norm(7, 0));
}

#[test]
fn astar_across_two_squares() {
    let mesh = two_squares(layers(&[0]), layers(&[0]));
    let start = Endpoint { fixed: vec![0], layers: layers(&[0]) };
    let end = Endpoint { fixed: vec![5], layers: layers(&[0]) };
    let mut search = astar(&mesh, DiagonalTaxicab, start, end, 0, norm(1, 0));

    // the first step visits face 0 and reaches face 1
    match search.next() {
        Some(Output::IntermediateStep(cur, next)) => {
            assert_eq!(cur, node(0, 0));
            assert_eq!(next, vec![(node(1, 0), norm(10, 10))]);
        }
        other => panic!("unexpected step {:?}", other),
    }
    // the second step arrives: a straight line from (0, 0) to (20, 10); the end vertex
    // comes once as the last apex of the funnel and once as the end of the path
    let path = match search.next() {
        Some(Output::Result(path)) => path,
        other => panic!("unexpected step {:?}", other),
    };
    assert_eq!(
        path,
        vec![
            FunnelEntry::Point(node(0, 0)),
            FunnelEntry::Point(node(5, 0)),
            FunnelEntry::Point(node(5, 0)),
        ]
    );
    assert!(search.next().is_none());
}

#[test]
fn astar_with_nothing_to_start_from() {
    let mesh = two_squares(layers(&[0]), layers(&[0]));
    // the start is on a layer that no face has
    let start = Endpoint { fixed: vec![0], layers: layers(&[3]) };
    let end = Endpoint { fixed: vec![5], layers: layers(&[0]) };
    let mut search = astar(&mesh, DiagonalTaxicab, start, end, 0, norm(1, 0));
    assert!(search.next().is_none());
}

#[test]
fn astar_changes_layer_where_needed() {
    // face 0 is on layers 0 and 1, face 1 only on layer 1
    let mesh = two_squares(layers(&[0, 1]), layers(&[1]));
    let start = Endpoint { fixed: vec![0], layers: layers(&[0]) };
    let end = Endpoint { fixed: vec![5], layers: layers(&[1]) };
    let mut search = astar(&mesh, DiagonalTaxicab, start, end, 0, norm(3, 0));
    let mut result = None;
    for _ in 0..16 {
        match search.next() {
            Some(Output::Result(path)) => {
                result = Some(path);
                break;
            }
            Some(Output::IntermediateStep(..)) => {}
            None => break,
        }
    }
    let path = result.expect("a path");
    assert_eq!(path.first(), Some(&FunnelEntry::Point(node(0, 0))));
    assert_eq!(path.last(), Some(&FunnelEntry::Point(node(5, 1))));
    assert!(path.contains(&FunnelEntry::LayerTransition(LayerId(0), LayerId(1))));
}

#[test]
fn euclidean_point_norm() {
    assert_eq!(Euclidean.point_norm(&[3, -4]), norm(5, 0));
    assert_eq!(Euclidean.point_norm(&[10, 10]), norm(14, 0));
    assert_eq!(Euclidean.point_norm(&[0, 0]), norm(0, 0));
    // too long to count in an i32
    assert_eq!(Euclidean.point_norm(&[i32::MAX, i32::MAX]), norm(i32::MAX, 0));
}
