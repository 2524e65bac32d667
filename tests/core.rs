use ray_tracer::csg::{filter_intersections, intersection_allowed, Operation};
use ray_tracer::distance::{hit as visible_hit, order_key, sort_by_distance};
use ray_tracer::refraction::refraction_boundary;
use ray_tracer::scene::{NodeKind, Scene};
use ray_tracer::shading::{plan_shading, RECURSION_LIMIT};

const EPSILON: f64 = f32::EPSILON as f64;

fn key(t: f64) -> u64 {
    order_key(t.to_bits())
}

fn keys(ts: &[f64]) -> Vec<u64> {
    ts.iter().map(|t| key(*t)).collect()
}

#[test]
fn hit() {
    // All have positive t
    assert_eq!(visible_hit(&keys(&[1., 2.]), key(EPSILON)), Some(0));
    // Some have negative t
    assert_eq!(visible_hit(&keys(&[-1., 1.]), key(EPSILON)), Some(1));
    // All have negative t
    assert_eq!(visible_hit(&keys(&[-2., -1.]), key(EPSILON)), None);
}

#[test]
fn hit_is_lowest_nonnegative_in_any_order() {
    assert_eq!(visible_hit(&keys(&[5., 7., -3., 2.]), key(EPSILON)), Some(3));
    assert_eq!(visible_hit(&keys(&[]), key(EPSILON)), None);
    // zero and the grazing distance itself are rejected
    assert_eq!(visible_hit(&keys(&[0., -0., EPSILON]), key(EPSILON)), None);
    // ties go to the first
    assert_eq!(visible_hit(&keys(&[3., 1.5, 1.5]), key(EPSILON)), Some(1));
}

#[test]
fn order_key_follows_number_order() {
    let ts = [f64::NEG_INFINITY, -1e9, -2.5, -1e-9, -0.0, 0.0, 1e-9, 0.5, 4.0, 1e300, f64::INFINITY];
    for w in ts.windows(2) {
        assert!(key(w[0]) < key(w[1]), "{} {}", w[0], w[1]);
    }
    assert_eq!(order_key(0), 0x8000_0000_0000_0000);
    assert_eq!(order_key(0x8000_0000_0000_0000), 0x7fff_ffff_ffff_ffff);
}

#[test]
fn csg_truth_table() {
    // rows: (lhit, inl, inr) in the book's order
    let rows = [
        (true, true, true),
        (true, true, false),
        (true, false, true),
        (true, false, false),
        (false, true, true),
        (false, true, false),
        (false, false, true),
        (false, false, false),
    ];
    let union = [false, true, false, true, false, false, true, true];
    let intersect = [true, false, true, false, true, true, false, false];
    let difference = [false, true, false, true, true, true, false, false];
    for (k, (lhit, inl, inr)) in rows.iter().enumerate() {
        assert_eq!(intersection_allowed(Operation::Union, *lhit, *inl, *inr), union[k]);
        assert_eq!(intersection_allowed(Operation::Intersect, *lhit, *inl, *inr), intersect[k]);
        assert_eq!(intersection_allowed(Operation::Difference, *lhit, *inl, *inr), difference[k]);
    }
}

#[test]
fn csg_filter_table() {
    // sphere@1, cube@2, sphere@3, cube@4 with the sphere as left operand
    let lhits = vec![true, false, true, false];
    assert_eq!(filter_intersections(Operation::Union, &lhits), vec![0, 3]);
    assert_eq!(filter_intersections(Operation::Intersect, &lhits), vec![1, 2]);
    assert_eq!(filter_intersections(Operation::Difference, &lhits), vec![0, 1]);
    assert_eq!(filter_intersections(Operation::Union, &vec![]), Vec::<usize>::new());
}

fn csg_scene(op: Operation) -> (Scene<&'static str>, usize, usize, usize) {
    let mut scene = Scene::new();
    let c = scene.add(NodeKind::Csg(op), "csg");
    let sphere = scene.add_child(c, NodeKind::Primitive, "sphere").unwrap();
    let cube = scene.add_child(c, NodeKind::Primitive, "cube").unwrap();
    (scene, c, sphere, cube)
}

#[test]
fn csg_filter_through_scene() {
    for (op, x0, x1) in [
        (Operation::Union, 0, 3),
        (Operation::Intersect, 1, 2),
        (Operation::Difference, 0, 1),
    ] {
        let (scene, c, sphere, cube) = csg_scene(op);
        let hits = vec![sphere, cube, sphere, cube];
        assert_eq!(scene.csg_filter(c, &hits), vec![x0, x1]);
    }
    let (scene, _, sphere, cube) = csg_scene(Operation::Union);
    // not a boolean node: nothing
    assert_eq!(scene.csg_filter(sphere, &vec![sphere, cube]), Vec::<usize>::new());
    assert_eq!(scene.csg_filter(99, &vec![sphere, cube]), Vec::<usize>::new());
}

#[test]
fn csg_operand_in_nested_group() {
    let mut scene = Scene::new();
    let c = scene.add(NodeKind::Csg(Operation::Difference), ());
    let g = scene.add_child(c, NodeKind::Group, ()).unwrap();
    let s1 = scene.add_child(g, NodeKind::Primitive, ()).unwrap();
    let s2 = scene.add_child(g, NodeKind::Primitive, ()).unwrap();
    let cube = scene.add_child(c, NodeKind::Primitive, ()).unwrap();
    // a full boolean node takes no third operand
    assert_eq!(scene.add_child(c, NodeKind::Primitive, ()), None);
    assert!(scene.includes(g, s1));
    assert!(scene.includes(c, s2));
    assert!(!scene.includes(g, cube));
    assert_eq!(scene.csg_filter(c, &vec![s1, cube, s2, cube]), vec![0, 1]);
}

#[test]
fn scene_links() {
    let mut scene = Scene::new();
    let g1 = scene.add(NodeKind::Group, 1);
    let g2 = scene.add_child(g1, NodeKind::Group, 2).unwrap();
    let s = scene.add_child(g2, NodeKind::Primitive, 3).unwrap();
    let other = scene.add(NodeKind::Primitive, 4);
    assert_eq!(scene.len(), 4);
    assert_eq!(scene.add_child(s, NodeKind::Primitive, 5), None);
    assert_eq!(scene.add_child(17, NodeKind::Primitive, 5), None);
    assert_eq!(scene.len(), 4);
    assert_eq!(scene.ancestry(s), vec![s, g2, g1]);
    assert_eq!(scene.ancestry(other), vec![other]);
    assert_eq!(scene.ancestry(40), Vec::<usize>::new());
    assert_eq!(scene.roots(), vec![g1, other]);
    assert_eq!(scene.parent(s), Some(g2));
    assert_eq!(scene.parent(g1), None);
    assert_eq!(scene.children(g1), &vec![g2]);
    assert_eq!(scene.kind(g2), NodeKind::Group);
    assert_eq!(*scene.payload(s), 3);
    assert!(scene.includes(g1, s));
    assert!(scene.includes(s, s));
    assert!(!scene.includes(s, g1));
    assert!(!scene.includes(other, s));
    assert!(!scene.includes(g1, 40));
}

#[test]
fn refractive_index_walk() {
    // Three glass spheres A (1.5), B (2.0), C (2.5) nested along the ray:
    // hits A, B, C, B, C, A.
    let (a, b, c) = (10usize, 11usize, 12usize);
    let hits = vec![a, b, c, b, c, a];
    let index = |s: Option<usize>| match s {
        None => 1.0,
        Some(10) => 1.5,
        Some(11) => 2.0,
        Some(12) => 2.5,
        _ => unreachable!(),
    };
    let n1s = [1., 1.5, 2., 2.5, 2.5, 1.5];
    let n2s = [1.5, 2., 2.5, 2.5, 1.5, 1.];
    for k in 0..6 {
        let (n1, n2) = refraction_boundary(&hits, k);
        assert_eq!(index(n1), n1s[k]);
        assert_eq!(index(n2), n2s[k]);
    }
    // a hit that is not in the list: vacuum on both sides
    assert_eq!(refraction_boundary(&hits, 6), (None, None));
    assert_eq!(refraction_boundary(&vec![a], 0), (None, Some(a)));
}

#[test]
fn refraction_needs_transparency_and_depth() {
    let opaque = plan_shading(RECURSION_LIMIT, false, false, false);
    assert_eq!(opaque.refract, None);
    assert_eq!(opaque.reflect, None);
    let spent = plan_shading(0, true, true, false);
    assert_eq!(spent.refract, None);
    assert_eq!(spent.reflect, None);
    let glass = plan_shading(5, false, true, false);
    assert_eq!(glass.refract, Some(4));
    assert!(!glass.blend);
    let inside = plan_shading(5, true, true, true);
    assert_eq!(inside.refract, None);
    assert_eq!(inside.reflect, Some(4));
    assert!(inside.blend);
}

fn evaluations(depth: u32, reflective: bool, transparent: bool) -> u64 {
    let plan = plan_shading(depth, reflective, transparent, false);
    let mut n = 1;
    if let Some(d) = plan.reflect {
        n += evaluations(d, reflective, transparent);
    }
    if let Some(d) = plan.refract {
        n += evaluations(d, reflective, transparent);
    }
    n
}

#[test]
fn infinite_recursion() {
    // two parallel mirrors: every ray hits a reflective surface
    assert_eq!(evaluations(RECURSION_LIMIT, true, false), 6);
    // reflective glass everywhere: the full binary tree
    assert_eq!(evaluations(RECURSION_LIMIT, true, true), 63);
}

#[test]
fn sort_by_distance_is_stable() {
    let ts = [4., -1., 2.5, 4., 0., -7., 2.5];
    let order = sort_by_distance(&keys(&ts));
    assert_eq!(order, vec![5, 1, 4, 2, 6, 0, 3]);
    assert_eq!(sort_by_distance(&vec![]), Vec::<usize>::new());
    // a group of spheres along z: the hits of the nearer sphere come first
    assert_eq!(sort_by_distance(&keys(&[4., 6., 1., 3.])), vec![2, 3, 0, 1]);
}
