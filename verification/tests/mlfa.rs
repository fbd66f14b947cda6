use anyangle::mlfa::delaunay::{DelaunayNavmesh, DelaunayNavmeshLayer, DelaunayTriangleId, DelaunayTriangulation};
use anyangle::mlfa::{centroid, Navmesh, Remesh};
use anyangle::LayerId;

fn square(x0: i32, y0: i32, x1: i32, y1: i32) -> Vec<Vec<Vec<[i32; 2]>>> {
    vec![vec![vec![[x0, y0], [x1, y0], [x1, y1], [x0, y1]]]]
}

fn overlap(a: &[[i32; 2]; 3], b: &[[i32; 2]; 3]) -> bool {
    let lo = |t: &[[i32; 2]; 3], i: usize| t.iter().map(|p| p[i]).min().unwrap();
    let hi = |t: &[[i32; 2]; 3], i: usize| t.iter().map(|p| p[i]).max().unwrap();
    (0..2).all(|i| lo(a, i) <= hi(b, i) && lo(b, i) <= hi(a, i))
}

#[test]
fn centroids_round_toward_zero() {
    assert_eq!(centroid(&[[0, 0], [3, 0], [0, 3]]), [1, 1]);
    assert_eq!(centroid(&[[0, 0], [-4, 0], [0, -5]]), [-1, -1]);
    assert_eq!(centroid(&[[i32::MAX, i32::MAX], [i32::MAX, 0], [0, i32::MAX]]), [1431655764, 1431655764]);
}

#[test]
fn two_overlapping_layers_are_stitched() {
    let mut mesh = DelaunayNavmesh::<i32>::default();
    mesh.remesh(&[square(0, 0, 10, 10), square(5, 0, 15, 10)]);
    assert_eq!(mesh.layers().len(), 2);
    let lower = mesh.layers()[0].triangulation().vertices().to_vec();
    let upper = mesh.layers()[1].triangulation().vertices().to_vec();
    assert!(!lower.is_empty() && !upper.is_empty());
    let mut stitched = 0;
    for (i, t) in lower.iter().enumerate() {
        let id = DelaunayTriangleId::new(LayerId(0), i);
        assert_eq!(mesh.position(id), centroid(t));
        for s in mesh.upward_stitches(id) {
            assert_eq!(s.layer(), LayerId(1));
            assert!(overlap(t, &upper[s.index()]));
            // the link goes both ways
            assert!(mesh.downward_stitches(s).contains(&id));
            stitched += 1;
        }
    }
    assert!(stitched > 0);
    // the index of the upper layer finds its triangles by their boxes
    let (tris, index) = mesh.layers()[1].triangulation().rtree(LayerId(1));
    assert_eq!(tris.len(), upper.len());
    assert_eq!(tris[0].trid, DelaunayTriangleId::new(LayerId(1), 0));
    let near = index.locate([14, 0], [15, 1]);
    assert!(!near.is_empty());
    assert!(index.locate([100, 100], [101, 101]).is_empty());
}

#[test]
fn remeshing_one_layer_updates_its_links() {
    let mut mesh = DelaunayNavmesh::<i32>::default();
    mesh.remesh(&[square(0, 0, 10, 10), square(5, 0, 15, 10)]);
    mesh.remesh_at(LayerId(1), square(100, 100, 110, 110));
    assert_eq!(mesh.layers().len(), 2);
    let n = mesh.layers()[0].triangulation().vertices().len();
    for i in 0..n {
        assert!(mesh.upward_stitches(DelaunayTriangleId::new(LayerId(0), i)).is_empty());
    }
    // a layer beyond the last one is added
    mesh.remesh_at(LayerId(3), square(0, 0, 1, 1));
    assert_eq!(mesh.layers().len(), 4);
}

#[test]
fn mlfa_defaults_are_empty() {
    assert_eq!(DelaunayNavmesh::<i32>::default().layers().len(), 0);
    let layer = DelaunayNavmeshLayer::<i32>::default();
    assert!(layer.triangulation().vertices().is_empty());
    assert!(layer.triangulation().adjacents().is_empty());
    let t = DelaunayTriangulation::<i32>::default();
    assert!(t.vertices().is_empty() && t.adjacents().is_empty());
}
