use anyangle::flat::{GetLayerIds, LayerIds};
use anyangle::LayerId;

fn set(ls: &[u32]) -> LayerIds {
    LayerIds::from_layers(&ls.iter().map(|&l| LayerId(l)).collect())
}

fn layers(s: &LayerIds) -> Vec<u32> {
    s.iter().into_iter().map(|l| l.0).collect()
}

#[test]
fn layer_id_arithmetic() {
    assert_eq!(LayerId::new(3).checked_add(4), Some(LayerId(7)));
    assert_eq!(LayerId::max_layer().checked_add(1), None);
    assert_eq!(LayerId(u32::MAX - 2).checked_add(2), Some(LayerId::max_layer()));
    assert_eq!(LayerId::new(3).checked_sub(3), Some(LayerId::min_layer()));
    assert_eq!(LayerId::new(3).checked_sub(4), None);
    assert_eq!(LayerId::new(9).checked_add(usize::MAX), None);
    assert_eq!(LayerId::from_usize(12), LayerId(12));
    assert_eq!(LayerId(12).to_usize(), 12);
}

#[test]
fn layer_ids_insert_remove() {
    let mut s = LayerIds::new();
    assert!(s.is_empty());
    s.insert(LayerId(5));
    s.insert(LayerId(2));
    s.insert(LayerId(5));
    assert!(s.is_on_layer(LayerId(2)));
    assert!(!s.is_on_layer(LayerId(3)));
    assert_eq!(layers(&s), vec![2, 5]);
    s.remove(LayerId(2));
    assert_eq!(layers(&s), vec![5]);
    s.remove(LayerId(5));
    assert!(s.is_empty());
    assert_eq!(s, LayerIds::default());
}

#[test]
fn layer_ids_bounding_range() {
    assert_eq!(LayerIds::new().bounding_range(), None);
    assert_eq!(set(&[4, 1, 7]).bounding_range(), Some(1..8));
    assert_eq!(set(&[0]).bounding_range(), Some(0..1));
}

#[test]
fn layer_ids_adjacent_layers() {
    let s = set(&[0, 2, 3, 5]);
    assert_eq!(s.adjacent_layers_to(LayerId(2)), vec![LayerId(3)]);
    assert_eq!(s.adjacent_layers_to(LayerId(4)), vec![LayerId(3), LayerId(5)]);
    assert_eq!(s.adjacent_layers_to(LayerId(1)), vec![LayerId(0), LayerId(2)]);
    assert_eq!(s.adjacent_layers_to(LayerId(0)), vec![]);
}

#[test]
fn layer_ids_closest_layers() {
    let s = set(&[1, 4, 9]);
    assert_eq!(s.closest_contained_layer_to(LayerId(6)), [Some(LayerId(4)), Some(LayerId(9))]);
    assert_eq!(s.closest_contained_layer_to(LayerId(4)), [Some(LayerId(1)), Some(LayerId(9))]);
    assert_eq!(s.closest_contained_layer_to(LayerId(0)), [None, Some(LayerId(1))]);
    assert_eq!(s.closest_contained_layer_to(LayerId(10)), [Some(LayerId(9)), None]);
    assert_eq!(LayerIds::new().closest_contained_layer_to(LayerId(3)), [None, None]);
}

#[test]
fn layer_ids_set_operations() {
    let a = set(&[1, 2, 3]);
    let b = set(&[3, 4]);
    assert_eq!(layers(&a.intersection(&b)), vec![3]);
    assert_eq!(layers(&a.union(&b)), vec![1, 2, 3, 4]);
    assert_eq!(layers(&a.symmetric_difference(&b)), vec![1, 2, 4]);
    let mut c = a.clone();
    c.difference_with(&b);
    assert_eq!(layers(&c), vec![1, 2]);
    let mut d = a.clone();
    d.symmetric_difference_with(&b);
    d.symmetric_difference_with(&b);
    assert_eq!(d, a);
    let mut e = a.clone();
    e.union_with(&b);
    e.intersect_with(&set(&[2, 4, 6]));
    assert_eq!(layers(&e), vec![2, 4]);
}

#[test]
fn layer_ids_from_many() {
    let s = LayerIds::from_sets(&vec![set(&[1]), set(&[7, 1]), LayerIds::new()]);
    assert_eq!(layers(&s), vec![1, 7]);
    let mut t = set(&[0]);
    t.extend_layers(&vec![LayerId(3), LayerId(0)]);
    t.extend_sets(&vec![set(&[5])]);
    assert_eq!(layers(&t), vec![0, 3, 5]);
}

#[test]
fn layers_of_layer_and_set() {
    assert_eq!(layers(&LayerId(6).layers()), vec![6]);
    assert_eq!(layers(&set(&[2, 8]).layers()), vec![2, 8]);
}
