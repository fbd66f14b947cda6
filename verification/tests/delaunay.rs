use anyangle::delaunay::{DelaunayNavmesh, DelaunayNavmeshLayer, DelaunayTriangleId, DelaunayTriangulation};
use anyangle::navmesh::{Navmesh, Remesh};

fn square(x0: i32, y0: i32, x1: i32, y1: i32) -> Vec<Vec<Vec<[i32; 2]>>> {
    vec![vec![vec![[x0, y0], [x1, y0], [x1, y1], [x0, y1]]]]
}

#[test]
fn remeshing_triangulates_each_layer() {
    let mut mesh = DelaunayNavmesh::<i32>::default();
    mesh.remesh(&[square(0, 0, 10, 10), square(0, 0, 4, 4)]);
    assert!(mesh.layers().len() >= 2);
    for layer in 0..2 {
        let tris = mesh.layers()[layer].triangulation().vertices();
        assert!(!tris.is_empty());
        let adj = mesh.layers()[layer].triangulation().adjacents();
        assert_eq!(adj.len(), tris.len());
        for t in tris {
            for p in t {
                assert!(p[0] >= 0 && p[1] >= 0);
            }
        }
    }
    let id = DelaunayTriangleId::new(0, 0);
    assert_eq!(id.layer(), 0);
    assert_eq!(id.index(), 0);
}

#[test]
fn defaults_are_empty() {
    assert_eq!(DelaunayNavmesh::<i32>::default().layers().len(), 0);
    let layer = DelaunayNavmeshLayer::<i32>::default();
    assert!(layer.triangulation().vertices().is_empty());
    assert!(layer.triangulation().adjacents().is_empty());
    let t = DelaunayTriangulation::<i32>::default();
    assert!(t.vertices().is_empty() && t.adjacents().is_empty());
}

#[test]
fn remeshing_fewer_layers_keeps_the_others() {
    let mut mesh = DelaunayNavmesh::<i32>::default();
    mesh.remesh(&[square(0, 0, 10, 10), square(0, 0, 4, 4)]);
    let upper = mesh.layers()[1].triangulation().vertices().to_vec();
    mesh.remesh(&[square(0, 0, 20, 20)]);
    assert_eq!(mesh.layers().len(), 2);
    assert_eq!(mesh.layers()[1].triangulation().vertices(), &upper[..]);
    assert!(mesh.layers()[0].triangulation().vertices().iter().any(|t| t.iter().any(|p| p[0] == 20)));
}
