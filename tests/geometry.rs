use pathtracer::aabb::AABB;
use pathtracer::axis::Axis;
use pathtracer::interval::Interval;
use pathtracer::key::{from_order_key, order_key};

fn key(v: f64) -> u64 {
    order_key(v.to_bits())
}

#[test]
fn axis_from_draw_is_draw_mod_three() {
    assert_eq!(Axis::from_draw(0), Axis::X);
    assert_eq!(Axis::from_draw(1), Axis::Y);
    assert_eq!(Axis::from_draw(2), Axis::Z);
    assert_eq!(Axis::from_draw(3), Axis::X);
    assert_eq!(Axis::from_draw(u64::MAX), Axis::X);
    assert_eq!(Axis::from_draw(11), Axis::Z);
}

#[test]
fn axis_index_and_random() {
    assert_eq!(Axis::X.index(), 0);
    assert_eq!(Axis::Y.index(), 1);
    assert_eq!(Axis::Z.index(), 2);
    for _ in 0..100 {
        assert!(Axis::random().index() < 3);
    }
}

#[test]
fn order_key_follows_the_order_of_numbers() {
    let vals = [-1.0e300, -2.0, -0.5, -0.0, 0.0, 1.0e-300, 1.0, 3.5, 1.0e300];
    for w in vals.windows(2) {
        assert!(key(w[0]) < key(w[1]), "{} {}", w[0], w[1]);
    }
    assert_eq!(order_key(0.0f64.to_bits()), 0x8000_0000_0000_0000);
    assert_eq!(order_key((-0.0f64).to_bits()), 0x7fff_ffff_ffff_ffff);
}

#[test]
fn order_key_round_trip() {
    for v in [-7.25f64, -0.0, 0.0, 2.5, 1.0e10, f64::MAX, f64::MIN] {
        assert_eq!(from_order_key(order_key(v.to_bits())), v.to_bits());
        assert_eq!(f64::from_bits(from_order_key(key(v))), v);
    }
}

#[test]
fn interval_union_and_contains() {
    let a = Interval::new(2, 5);
    let b = Interval::new(4, 9);
    let u = Interval::union(a, b);
    assert_eq!(u, Interval { min: 2, max: 9 });
    assert!(u.contains(2) && u.contains(9) && u.contains(6));
    assert!(!u.contains(1) && !u.contains(10));
    let disjoint = Interval::union(Interval::new(0, 1), Interval::new(7, 8));
    assert_eq!(disjoint, Interval { min: 0, max: 8 });
    assert!(disjoint.contains(4));
}

#[test]
fn aabb_from_points_is_order_independent() {
    let a = AABB::from_points((1, 8, 3), (4, 2, 6));
    let b = AABB::from_points((4, 2, 6), (1, 8, 3));
    assert_eq!(a, b);
    assert_eq!(a.min(), (1, 2, 3));
    assert_eq!(a.max(), (4, 8, 6));
    assert!(a.contains((1, 8, 3)) && a.contains((4, 2, 6)));
    assert!(!a.contains((0, 5, 5)));
}

#[test]
fn aabb_union_is_smallest_containing_box() {
    let a = AABB::from_points((0, 0, 0), (2, 2, 2));
    let b = AABB::from_points((5, 1, 0), (7, 3, 1));
    let u = AABB::union(&a, &b);
    assert_eq!(u.min(), (0, 0, 0));
    assert_eq!(u.max(), (7, 3, 2));
    for p in [(0, 0, 0), (2, 2, 2), (5, 1, 0), (7, 3, 1)] {
        assert!(u.contains(p));
    }
    // every face of the union touches a corner of one of the boxes
    assert_eq!(u.x.min, a.x.min);
    assert_eq!(u.x.max, b.x.max);
    assert_eq!(u.y.max, b.y.max);
    assert_eq!(u.z.max, a.z.max);
    // a box of real coordinates, through their keys
    let c = AABB::from_points((key(-1.5), key(0.0), key(2.0)), (key(1.5), key(-3.0), key(2.5)));
    let d = AABB::from_points((key(-4.0), key(1.0), key(-1.0)), (key(-2.0), key(2.0), key(0.5)));
    let e = AABB::union(&c, &d);
    assert_eq!(f64::from_bits(from_order_key(e.x.min)), -4.0);
    assert_eq!(f64::from_bits(from_order_key(e.x.max)), 1.5);
    assert_eq!(f64::from_bits(from_order_key(e.y.min)), -3.0);
    assert_eq!(f64::from_bits(from_order_key(e.z.max)), 2.5);
}

#[test]
fn aabb_union_all_and_axis() {
    let bbs = vec![
        AABB::from_points((3, 3, 3), (4, 4, 4)),
        AABB::from_points((1, 5, 2), (2, 6, 9)),
        AABB::from_points((8, 0, 5), (9, 1, 6)),
    ];
    let u = AABB::union_all(&bbs);
    assert_eq!(u.min(), (1, 0, 2));
    assert_eq!(u.max(), (9, 6, 9));
    assert_eq!(AABB::union_all(&bbs[..1].to_vec()), bbs[0]);
    assert_eq!(u.axis(Axis::Y), Interval::new(0, 6));
    assert_eq!(bbs[1].axis_min(Axis::Z), 2);
    assert_eq!(bbs[2].axis_min(Axis::X), 8);
}
