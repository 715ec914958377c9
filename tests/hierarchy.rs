use pathtracer::aabb::AABB;
use pathtracer::axis::Axis;
use pathtracer::bvh::{nearest_linear, BVHTree, BVH};
use pathtracer::par_buffer::ParBuffer;

fn leaves(t: &BVHTree, out: &mut Vec<usize>) {
    match t {
        BVHTree::Leaf(i) => out.push(*i),
        BVHTree::Node { left, right, .. } => {
            leaves(left, out);
            leaves(right, out);
        }
    }
}

fn node_ids(t: &BVHTree, out: &mut Vec<usize>) {
    if let BVHTree::Node { id, left, right } = t {
        out.push(*id);
        node_ids(left, out);
        node_ids(right, out);
    }
}

/// Unit boxes along the x axis, box `i` starting at `xs[i]`.
fn boxes(xs: &[u64]) -> Vec<AABB> {
    xs.iter().map(|&x| AABB::from_points((x, 0, 0), (x + 1, 1, 1))).collect()
}

fn check_shape(bvh: &BVH, n: usize) {
    let mut ls = Vec::new();
    leaves(bvh.top(), &mut ls);
    ls.sort();
    assert_eq!(ls, (0..n).collect::<Vec<_>>());
    let mut ids = Vec::new();
    node_ids(bvh.top(), &mut ids);
    assert_eq!(ids, (n..2 * n - 1).collect::<Vec<_>>());
    assert_eq!(bvh.top().size(), n - 1);
    assert_eq!(bvh.len(), n);
}

fn check_boxes(bvh: &BVH, t: &BVHTree) {
    if let BVHTree::Node { id, left, right } = t {
        let u = AABB::union(&bvh.box_at(left.box_id()), &bvh.box_at(right.box_id()));
        assert_eq!(bvh.box_at(*id), u);
        check_boxes(bvh, left);
        check_boxes(bvh, right);
    }
}

#[test]
fn bvh_single_primitive_is_a_leaf() {
    let bvh = BVH::construct(&boxes(&[4]));
    assert!(matches!(bvh.top(), BVHTree::Leaf(0)));
    assert_eq!(bvh.top().depth(), 0);
    assert_eq!(bvh.top().size(), 0);
    assert_eq!(bvh.box_at(0), AABB::from_points((4, 0, 0), (5, 1, 1)));
}

#[test]
fn bvh_two_primitives_keep_their_order() {
    let bvh = BVH::construct(&boxes(&[9, 2]));
    match bvh.top() {
        BVHTree::Node { id, left, right } => {
            assert_eq!(*id, 2);
            assert!(matches!(**left, BVHTree::Leaf(0)));
            assert!(matches!(**right, BVHTree::Leaf(1)));
        }
        BVHTree::Leaf(_) => panic!("expected a node"),
    }
    assert_eq!(bvh.top().depth(), 1);
    assert_eq!(bvh.box_at(2), AABB::from_points((2, 0, 0), (10, 1, 1)));
}

#[test]
fn bvh_shape_and_depth_bound() {
    for n in 1..=40usize {
        let xs: Vec<u64> = (0..n as u64).map(|i| (i * 37) % 101).collect();
        let bvh = BVH::construct(&boxes(&xs));
        check_shape(&bvh, n);
        check_boxes(&bvh, bvh.top());
        let bound = (n as f64).log2().ceil() as usize;
        assert!(bvh.top().depth() <= bound, "n = {}", n);
    }
    let bvh = BVH::construct(&boxes(&(0..16).collect::<Vec<u64>>()));
    assert_eq!(bvh.top().depth(), 4);
}

#[test]
fn bvh_root_box_is_union_of_all() {
    let bbs = boxes(&[5, 1, 30, 12, 7]);
    let bvh = BVH::construct(&bbs);
    assert_eq!(bvh.box_at(bvh.top().box_id()), AABB::union_all(&bbs));
    assert_eq!(bvh.box_at(bvh.top().box_id()), AABB::from_points((1, 0, 0), (31, 1, 1)));
}

/// A ray along +x from `from`: it hits box `i` at distance `xs[i] - from`
/// when `xs[i] >= from`.
fn query(xs: &[u64], from: u64) -> (Option<(usize, u64, char)>, Option<(usize, u64, char)>) {
    let bbs = boxes(xs);
    let bvh = BVH::construct(&bbs);
    let box_hit = |id: usize| bvh.box_at(id).x.max >= from;
    let prim_hit = |i: usize| {
        if xs[i] >= from {
            Some((xs[i] - from, 'h'))
        } else {
            None
        }
    };
    (bvh.intersect(&box_hit, &prim_hit), nearest_linear(xs.len(), &prim_hit))
}

#[test]
fn bvh_query_agrees_with_brute_force() {
    let xs: Vec<u64> = (0..50u64).map(|i| (i * 53) % 97 + 3).collect();
    for from in [0u64, 10, 50, 90, 99, 100, 200] {
        let (a, b) = query(&xs, from);
        assert_eq!(a.is_some(), b.is_some(), "from = {}", from);
        if let (Some(a), Some(b)) = (a, b) {
            assert_eq!(a.1, b.1);
            assert_eq!(xs[a.0] - from, a.1);
        }
    }
    let (a, b) = query(&[20, 5, 40], 10);
    assert_eq!(a, Some((0, 10, 'h')));
    assert_eq!(b, Some((0, 10, 'h')));
    let (a, b) = query(&[20, 5, 40], 41);
    assert_eq!(a, None);
    assert_eq!(b, None);
}

#[test]
fn bvh_query_prunes_missed_boxes() {
    let bvh = BVH::construct(&boxes(&[1, 2, 3, 4]));
    let tested = std::cell::Cell::new(0usize);
    let r = bvh.intersect(&|_id: usize| false, &|i: usize| {
        tested.set(tested.get() + 1);
        Some((i as u64, ()))
    });
    assert_eq!(r, None);
    assert_eq!(tested.get(), 0);
}

#[test]
fn nearest_linear_keeps_first_of_equal() {
    let d = [7u64, 3, 3, 9];
    let r = nearest_linear(4, &|i: usize| Some((d[i], i)));
    assert_eq!(r, Some((1, 3, 1)));
    let none = nearest_linear(4, &|_i: usize| None::<(u64, ())>);
    assert_eq!(none, None);
}

#[test]
fn par_buffer_cells() {
    let mut b = ParBuffer::new(3, 4, 0u32);
    assert_eq!(b.rows(), 3);
    assert_eq!(b.cols(), 4);
    assert_eq!(b.coords(0), (0, 0));
    assert_eq!(b.coords(5), (1, 1));
    assert_eq!(b.coords(11), (3, 2));
    assert_eq!(b.index(3, 2), 11);
    b.set(2, 1, 7);
    assert_eq!(b.get(2, 1), 7);
    assert_eq!(b.get(1, 2), 0);
    let mut seen = vec![0u32; 12];
    for i in 0..12 {
        let (x, y) = b.coords(i);
        assert_eq!(b.index(x, y), i);
        seen[y * 4 + x] += 1;
    }
    assert!(seen.iter().all(|&c| c == 1));
    let c = ParBuffer::from_cells(2, 2, vec![1u8, 2, 3, 4]);
    assert_eq!(c.get(1, 0), 2);
    assert_eq!(c.get(0, 1), 3);
}

fn check_split(bvh: &BVH, t: &BVHTree) {
    if let BVHTree::Node { left, right, .. } = t {
        let (mut l, mut r) = (Vec::new(), Vec::new());
        leaves(left, &mut l);
        leaves(right, &mut r);
        assert_eq!(l.len(), (l.len() + r.len()) / 2);
        if l.len() + r.len() > 2 {
            let ordered = [Axis::X, Axis::Y, Axis::Z].iter().any(|&a| {
                let lmax = l.iter().map(|&i| bvh.box_at(i).axis_min(a)).max().unwrap();
                let rmin = r.iter().map(|&j| bvh.box_at(j).axis_min(a)).min().unwrap();
                lmax <= rmin
            });
            assert!(ordered);
        }
        check_split(bvh, left);
        check_split(bvh, right);
    }
}

#[test]
fn bvh_nodes_split_sorted_halves() {
    let bbs: Vec<AABB> = (0..33u64)
        .map(|i| {
            let (x, y, z) = ((i * 7) % 31, (i * 11) % 29, (i * 5) % 23);
            AABB::from_points((x, y, z), (x + 2, y + 3, z + 1))
        })
        .collect();
    for _ in 0..10 {
        let bvh = BVH::construct(&bbs);
        check_split(&bvh, bvh.top());
        check_boxes(&bvh, bvh.top());
    }
}
