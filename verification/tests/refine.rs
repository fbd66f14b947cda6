use anyangle::complex::triangulation::{PolygonObstacle, TriangulationNavmesh};
use anyangle::flat::refine::{
    allocate_among, contour_portal, contours_overlap, convex_obstacles, convex_pieces, face_neighbours, make_non_overlapping_and_convex,
    refine_obstacle, ConvexObstacle, Obstacle,
};
use anyangle::flat::{Face, LayerIds, MultiLayerNavmesh, Tesselation, Topo2DComplex};
use std::ops::ControlFlow;
use anyangle::math::{poly_convex_hull_rotation_sense, RotationSense};
use anyangle::LayerId;

fn layers(ls: &[u32]) -> LayerIds {
    LayerIds::from_layers(&ls.iter().map(|&l| LayerId(l)).collect())
}

fn square(x0: i32, y0: i32, x1: i32, y1: i32) -> Vec<[i32; 2]> {
    vec![[x0, y0], [x1, y0], [x1, y1], [x0, y1]]
}

#[test]
fn refine_two_rectangles() {
    let objects = vec![
        Obstacle { shape: vec![square(0, 0, 2, 2)], layers: layers(&[0]) },
        Obstacle { shape: vec![square(1, 1, 3, 3)], layers: layers(&[1]) },
    ];
    let refined = make_non_overlapping_and_convex(objects);
    assert!(refined.contains(&ConvexObstacle {
        contour: vec![[2, 2], [1, 2], [1, 1], [2, 1]],
        layers: layers(&[0, 1]),
    }));
}

#[test]
fn refining_one_obstacle_against_another() {
    // the first obstacle, on layer 0, goes in as it is
    let mut refined: Vec<(Vec<[i32; 2]>, LayerIds)> = convex_obstacles(vec![(vec![square(0, 0, 2, 2)], layers(&[0]))]);
    // the second one, on layer 1, is refined against what is there
    let drained = std::mem::take(&mut refined);
    let (tmp, left) = refine_obstacle(vec![square(1, 1, 3, 3)], &layers(&[1]), drained);
    refined.extend(convex_obstacles(tmp));
    refined.extend(convex_obstacles(left.into_iter().map(|shape| (shape, layers(&[1]))).collect()));
    assert!(refined.contains(&(vec![[2, 2], [1, 2], [1, 1], [2, 1]], layers(&[0, 1]))));
}

#[test]
fn separate_obstacles_stay_apart() {
    let objects = vec![
        Obstacle { shape: vec![square(0, 0, 2, 2)], layers: layers(&[0]) },
        Obstacle { shape: vec![square(5, 5, 7, 7)], layers: layers(&[1]) },
    ];
    let refined = make_non_overlapping_and_convex(objects);
    assert!(refined.iter().any(|o| o.layers == layers(&[0])));
    assert!(refined.iter().any(|o| o.layers == layers(&[1])));
    assert!(refined.iter().all(|o| o.layers != layers(&[0, 1])));
    assert!(make_non_overlapping_and_convex(vec![]).is_empty());
}

fn add_layer(tess: &mut Tesselation<LayerIds>, outer: &Vec<[i32; 2]>, layer: u32) {
    let _ = tess.update_data::<(), _>(outer, |_, mut layers: LayerIds| {
        layers.insert(LayerId(layer));
        (layers, ControlFlow::Continue(()))
    });
}

#[test]
fn tesselation_two_rectangles() {
    let mut tess = Tesselation::<LayerIds>::default();
    tess.allocate_shapes(vec![vec![square(0, 0, 2, 2)]]);
    add_layer(&mut tess, &square(0, 0, 2, 2), 0);
    tess.allocate_shapes(vec![vec![square(1, 1, 3, 3)]]);
    add_layer(&mut tess, &square(1, 1, 3, 3), 1);
    assert!(tess.rtree().contains(&Face {
        contour: vec![[2, 2], [1, 2], [1, 1], [2, 1]],
        data: layers(&[0, 1]),
    }));
}

#[test]
fn allocation_into_nothing_is_the_shape() {
    let pieces = allocate_among(vec![], vec![vec![square(0, 0, 4, 4)]]);
    assert_eq!(pieces, vec![(vec![vec![square(0, 0, 4, 4)]], None)]);
    let faces = convex_pieces(pieces);
    assert!(!faces.is_empty());
    assert!(faces.iter().all(|f| f.1.is_none()));
}

#[test]
fn allocation_away_from_a_face_keeps_it() {
    let pieces = allocate_among(vec![square(0, 0, 4, 4)], vec![vec![square(10, 10, 12, 12)]]);
    assert_eq!(
        pieces,
        vec![(vec![vec![square(0, 0, 4, 4)]], Some(0)), (vec![vec![square(10, 10, 12, 12)]], None)]
    );
}

#[test]
fn overlap_of_contours() {
    assert!(contours_overlap(&square(0, 0, 2, 2), &square(1, 1, 3, 3)));
    // touching along an edge is no overlap
    assert!(!contours_overlap(&square(0, 0, 2, 2), &square(2, 0, 4, 2)));
    assert!(!contours_overlap(&square(0, 0, 2, 2), &square(5, 5, 6, 6)));
}

#[test]
fn portal_between_neighbouring_squares() {
    let a = square(0, 0, 10, 10);
    let b = square(10, 0, 20, 10);
    let p = contour_portal(&a, &b).expect("a portal");
    assert!(p.contains(&[10, 0]) && p.contains(&[10, 10]));
    assert_eq!(contour_portal(&a, &square(30, 0, 40, 10)), None);
    assert_eq!(contour_portal(&a, &vec![]), None);
}

#[test]
fn triangulation_navmesh_around_an_obstacle() {
    let block = PolygonObstacle { polygon: square(40, 40, 60, 60), layers: layers(&[0]) };
    let mesh = TriangulationNavmesh::from_int_obstacle_rtree(0..2, &square(0, 0, 100, 100), &[block]);
    assert!(!mesh.triangles().is_empty());
    for (t, tri) in mesh.triangles().iter().enumerate() {
        let pts = tri.vertices.map(|v| mesh.points()[v]);
        assert_eq!(
            poly_convex_hull_rotation_sense(&pts.map(|p| (p, ())), 0),
            RotationSense::Counterclockwise
        );
        // a triangle meeting the obstacle (the boundary is triangulated over it too) loses
        // the obstacle's layer
        let meets = contours_overlap(&square(40, 40, 60, 60), &pts.to_vec());
        let expected = if meets { layers(&[1]) } else { layers(&[0, 1]) };
        assert_eq!(mesh.face_layers(t as u32), expected);
        for n in mesh.face_adjacent_faces(t as u32) {
            assert!(mesh.face_adjacent_faces(n).contains(&(t as u32)));
            let portal = mesh.portal_between(t as u32, n).expect("a shared edge");
            assert!(tri.vertices.contains(&(portal[0] as usize)));
            assert!(tri.vertices.contains(&(portal[1] as usize)));
        }
    }
    assert!(mesh.triangles().iter().any(|t| t.layers == layers(&[1])));
    let n = mesh.triangles().len() as u32;
    assert_eq!(mesh.portal_between(n, 0), None);
    assert_eq!(mesh.portal_between(0, n), None);
    let v = mesh.triangles()[0].vertices[0] as u32;
    assert!(mesh.vertex_adjacent_faces(v).contains(&0));
}

#[test]
fn neighbours_of_a_square() {
    let a = square(0, 0, 10, 10);
    let b = square(10, 0, 20, 10);
    let far = square(30, 0, 40, 10);
    let ns = face_neighbours(&a, vec![a.clone(), b.clone(), far]);
    assert_eq!(ns, vec![(b.clone(), contour_portal(&a, &b).unwrap())]);
    assert!(face_neighbours(&a, vec![]).is_empty());
}
