use core::cmp::Ordering;
use anyangle::math::diagonal_taxicab::DiagonalTaxicabNorm;
use anyangle::math::{isqrt, perp_product, poly_convex_hull_rotation_sense, triarea2, CheckedAdd, RotationSense};

#[test]
fn diagonal_taxicab_norm_i32() {
    assert_eq!(
        DiagonalTaxicabNorm::<i32>::new([8, 8]),
        Some(DiagonalTaxicabNorm {
            along_axis: 0,
            diagonal: 8,
        })
    );
    assert_eq!(
        DiagonalTaxicabNorm::<i32>::new([8, 10]),
        Some(DiagonalTaxicabNorm {
            along_axis: 2,
            diagonal: 8,
        })
    );
    assert!(
        DiagonalTaxicabNorm {
            along_axis: 0,
            diagonal: 8,
        } < DiagonalTaxicabNorm {
            along_axis: 2,
            diagonal: 8,
        }
    );
    assert_eq!(
        DiagonalTaxicabNorm::<i32>::new([10, 8]),
        Some(DiagonalTaxicabNorm {
            along_axis: 2,
            diagonal: 8,
        })
    );
    assert_eq!(
        DiagonalTaxicabNorm::<i32>::new([0, 16]),
        Some(DiagonalTaxicabNorm {
            along_axis: 16,
            diagonal: 0,
        })
    );
    assert!(
        DiagonalTaxicabNorm {
            along_axis: 2,
            diagonal: 8,
        } < DiagonalTaxicabNorm {
            along_axis: 16,
            diagonal: 0,
        }
    )
}

fn norm(along_axis: i32, diagonal: i32) -> DiagonalTaxicabNorm<i32> {
    DiagonalTaxicabNorm { along_axis, diagonal }
}

#[test]
fn norm_ignores_signs_and_order() {
    assert_eq!(DiagonalTaxicabNorm::new([-3, 7]), Some(norm(4, 3)));
    assert_eq!(DiagonalTaxicabNorm::new([7, -3]), Some(norm(4, 3)));
    assert_eq!(DiagonalTaxicabNorm::new([0, 0]), Some(norm(0, 0)));
}

#[test]
fn norm_comparison_is_exact() {
    // 3 > 2 * sqrt(2) = 2.83
    assert_eq!(norm(3, 0).cmp(&norm(0, 2)), Ordering::Greater);
    // 1 < sqrt(2)
    assert_eq!(norm(1, 0).cmp(&norm(0, 1)), Ordering::Less);
    // 99 < 70 * sqrt(2) = 98.99 is false, 99 > 98.99
    assert_eq!(norm(99, 0).cmp(&norm(0, 70)), Ordering::Greater);
    // 41 < 29 * sqrt(2) = 41.01
    assert_eq!(norm(41, 0).cmp(&norm(0, 29)), Ordering::Less);
    assert_eq!(norm(5, 5).cmp(&norm(5, 5)), Ordering::Equal);
    assert!(norm(0, 1).less_than(&norm(2, 0)));
    assert!(!norm(2, 0).less_than(&norm(0, 1)));
    assert!(!norm(2, 0).less_than(&norm(2, 0)));
}

#[test]
fn norm_order_is_transitive_on_an_example() {
    let (a, b, c) = (norm(1, 0), norm(0, 1), norm(2, 0));
    assert!(a.less_than(&b));
    assert!(b.less_than(&c));
    assert!(a.less_than(&c));
}

#[test]
fn norm_addition_is_field_wise() {
    assert_eq!(norm(1, 2) + norm(3, 4), norm(4, 6));
    assert_eq!(norm(1, 2) - norm(3, 4), norm(-2, -2));
    let mut x = norm(1, 1);
    x.add_assign(norm(2, 3));
    assert_eq!(x, norm(3, 4));
    x.sub_assign(norm(3, 4));
    assert!(x.is_zero());
    assert_eq!(DiagonalTaxicabNorm::zero(), norm(0, 0));
}

#[test]
fn norm_checked_add_reports_overflow() {
    assert_eq!(norm(1, 2).checked_add(&norm(3, 4)), Some(norm(4, 6)));
    assert_eq!(norm(i32::MAX, 0).checked_add(&norm(1, 0)), None);
    assert_eq!(norm(0, i32::MIN).checked_add(&norm(0, -1)), None);
}

#[test]
fn integer_checked_add() {
    assert_eq!(CheckedAdd::checked_add(&250u8, &5u8), Some(255));
    assert_eq!(CheckedAdd::checked_add(&250u8, &6u8), None);
    assert_eq!(CheckedAdd::checked_add(&-100i8, &-28i8), Some(-128));
    assert_eq!(CheckedAdd::checked_add(&-100i8, &-29i8), None);
    assert_eq!(CheckedAdd::checked_add(&i64::MAX, &1i64), None);
}

#[test]
fn triangle_area_and_perp_product() {
    assert_eq!(perp_product([1, 0], [0, 1]), -1);
    assert_eq!(perp_product([0, 1], [1, 0]), 1);
    // counterclockwise in a y-up frame gives a negative area
    assert_eq!(triarea2(&[0, 0], &[10, 0], &[0, 10]), -100);
    assert_eq!(triarea2(&[0, 0], &[0, 10], &[10, 0]), 100);
    assert_eq!(triarea2(&[0, 0], &[5, 5], &[10, 10]), 0);
    assert_eq!(
        triarea2(&[i32::MIN, i32::MIN], &[i32::MAX, i32::MIN], &[i32::MIN, i32::MAX]),
        -((u32::MAX as i128) * (u32::MAX as i128))
    );
}

#[test]
fn rotation_sense_of_squares() {
    let ccw = [([0, 0], ()), ([10, 0], ()), ([10, 10], ()), ([0, 10], ())];
    let cw = [([0, 0], ()), ([0, 10], ()), ([10, 10], ()), ([10, 0], ())];
    for pivot in 0..4 {
        assert_eq!(poly_convex_hull_rotation_sense(&ccw, pivot), RotationSense::Counterclockwise);
        assert_eq!(poly_convex_hull_rotation_sense(&cw, pivot), RotationSense::Clockwise);
    }
}

#[test]
fn step_ccw_wraps_around() {
    assert_eq!(RotationSense::Counterclockwise.step_ccw(3, 5, 4), 2);
    assert_eq!(RotationSense::Clockwise.step_ccw(1, 5, 3), 3);
    assert_eq!(RotationSense::Clockwise.step_ccw(0, 5, 12), 3);
    // stepping one way and then back returns to the start
    let p = RotationSense::Counterclockwise.step_ccw(2, 7, 5);
    assert_eq!(RotationSense::Clockwise.step_ccw(p, 7, 5), 2);
    assert_eq!(-RotationSense::Clockwise, RotationSense::Counterclockwise);
    assert_eq!(RotationSense::Counterclockwise.opposite(), RotationSense::Clockwise);
}

#[test]
fn integer_square_roots() {
    assert_eq!(isqrt(0), 0);
    assert_eq!(isqrt(1), 1);
    assert_eq!(isqrt(15), 3);
    assert_eq!(isqrt(16), 4);
    assert_eq!(isqrt(17), 4);
    assert_eq!(isqrt(u64::MAX), 0xffff_ffff);
}

#[test]
fn perp_product_at_the_extremes() {
    let a = [i64::MIN, i64::MIN];
    let b = [i64::MAX, i64::MIN];
    assert_eq!(perp_product(a, b), i128::MIN + (1i128 << 63));
    assert_eq!(perp_product(b, a), -(i128::MIN + (1i128 << 63)));
    assert_eq!(perp_product(a, a), 0);
    assert_eq!(perp_product([i64::MIN, 0], [0, i64::MIN]), -(1i128 << 126));
}

#[test]
fn norm_order_is_total() {
    let ns = [norm(0, 0), norm(1, 0), norm(0, 1), norm(41, 0), norm(0, 29), norm(3, 2), norm(7, 0), norm(2, 3)];
    for a in &ns {
        assert_eq!(a.cmp(a), Ordering::Equal);
        for b in &ns {
            assert_eq!(a.cmp(b) == Ordering::Equal, a == b);
            assert_eq!(b.cmp(a), a.cmp(b).reverse());
            for c in &ns {
                if a.cmp(b) != Ordering::Greater && b.cmp(c) != Ordering::Greater {
                    assert_ne!(a.cmp(c), Ordering::Greater);
                }
            }
        }
    }
    // 7 against 5 * sqrt(2) = 7.07: squares 49 and 50 never meet
    assert_eq!(norm(7, 0).cmp(&norm(0, 5)), Ordering::Less);
}
