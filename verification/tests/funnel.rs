use anyangle::funnel::SimpleFunnel;

#[test]
fn t_simple() {
    let mut x = SimpleFunnel::<i32, u8>::new(([0, 0], 0));
    x.push([([30, 0], 1), ([10, 40], 2)]);
    x.push([([60, 20], 3), ([60, 40], 4)]);
    x.push([([70, -10], 5), ([90, 20], 6)]);
    x.push([([80, -10], 7), ([80, -10], 8)]);

    let y = x.with_epsilon(0).collect();
    assert_eq!(&y[..], &[([60, 20], 3), ([80, -10], 8)]);
}

#[test]
// The trace below is the documented behaviour (it is expected to change once the
// funnel also yields [10, 10] and [20, 40] here).
fn t_issue49() {
    let mut x = SimpleFunnel::<i32, u8>::new(([20, 20], 7));
    x.push([([20, 10], 6), ([95, 5], 14)]);
    x.push([([10, 10], 4), ([5, 5], 2)]);
    x.push([([10, 20], 5), ([5, 95], 3)]);
    x.push([([20, 40], 8), ([5, 95], 3)]);
    x.push([([40, 40], 10), ([40, 40], 10)]);

    let y = x.with_epsilon(0).collect();
    assert_eq!(
        &y[..],
        &[([20, 10], 6), ([10, 10], 4), ([10, 20], 5), ([20, 40], 8),]
    );
}

#[test]
fn funnel_without_portals_yields_nothing() {
    let mut x = SimpleFunnel::<i32, ()>::new(([3, 4], ()));
    assert_eq!(x.next_apex(0), None);
    assert_eq!(x.apex, ([3, 4], ()));
}

#[test]
fn funnel_straight_corridor_ends_at_the_goal() {
    // portals are given as [left, right] in a y-down frame: going east, left is -y
    let mut x = SimpleFunnel::<i32, u8>::new(([0, 0], 0));
    x.push([([10, -5], 1), ([10, 5], 2)]);
    x.push([([20, -5], 3), ([20, 5], 4)]);
    x.push([([30, 0], 9), ([30, 0], 9)]);
    let y = x.with_epsilon(0).collect();
    // the goal is in sight of the start: no corner lies in between, only the goal
    assert_eq!(y, vec![([30, 0], 9)]);
    assert_eq!(x.apex, ([30, 0], 9));
    assert_eq!(x.lhs, ([30, 0], 9, 0));
    assert_eq!(x.rhs, ([30, 0], 9, 0));
    assert_eq!(x.past_portals.len(), 0);
}

#[test]
fn funnel_widening_sides_stay_put() {
    // the same corridor with its portals given the other way round: the sides only widen
    let mut x = SimpleFunnel::<i32, u8>::new(([0, 0], 0));
    x.push([([10, 5], 1), ([10, -5], 2)]);
    x.push([([20, 5], 3), ([20, -5], 4)]);
    x.push([([30, 0], 9), ([30, 0], 9)]);
    let y = x.with_epsilon(0).collect();
    assert_eq!(y.len(), 0);
    assert_eq!(x.apex, ([0, 0], 0));
    assert_eq!(x.lhs, ([10, 5], 1, 1));
    assert_eq!(x.rhs, ([10, -5], 2, 1));
    assert_eq!(x.past_portals.len(), 3);
}

#[test]
fn funnel_next_drops_passed_portals() {
    let mut x = SimpleFunnel::<i32, u8>::new(([0, 0], 0));
    x.push([([30, 0], 1), ([10, 40], 2)]);
    x.push([([60, 20], 3), ([60, 40], 4)]);
    x.push([([70, -10], 5), ([90, 20], 6)]);
    x.push([([80, -10], 7), ([80, -10], 8)]);
    assert_eq!(x.next_apex(0), Some(([60, 20], 3)));
    assert_eq!(x.past_portals.len(), 2);
    assert_eq!(x.lhs, ([60, 20], 3, 0));
    assert_eq!(x.rhs, ([60, 20], 3, 0));
}

#[test]
fn funnel_yields_at_most_one_apex_per_portal() {
    let mut x = SimpleFunnel::<i32, u8>::new(([20, 20], 7));
    x.push([([20, 10], 6), ([95, 5], 14)]);
    x.push([([10, 10], 4), ([5, 5], 2)]);
    x.push([([10, 20], 5), ([5, 95], 3)]);
    x.push([([20, 40], 8), ([5, 95], 3)]);
    x.push([([40, 40], 10), ([40, 40], 10)]);
    let mut remaining = x.past_portals.len();
    let mut w = x.with_epsilon(0);
    let mut count = 0;
    while let Some(_) = w.next() {
        let now = w.inner.past_portals.len();
        assert!(now < remaining);
        remaining = now;
        count += 1;
    }
    assert_eq!(count, 4);
    assert!(count <= 5);
}
