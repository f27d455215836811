use libtrace::csg::{Interaction, World};
use libtrace::tree::InterTree;

fn table(n: usize, inside: &[usize]) -> Vec<bool> {
    let mut m = vec![false; n];
    for &i in inside {
        m[i] = true;
    }
    m
}

#[test]
fn hollow_shell_center_is_not_solid() {
    // primitive 0: sphere of radius 2, primitive 1: sphere of radius 1, same center
    let mut w = World::new();
    w.push(Interaction::wrap(0).remove(1));
    // the center lies in both spheres
    assert!(!w.contains(&table(2, &[0, 1])));
    // a point at distance 1.5 lies in the big sphere only
    assert!(w.contains(&table(2, &[0])));
    // a point at distance 3 lies in neither
    assert!(!w.contains(&table(2, &[])));
}

#[test]
fn union_of_disjoint_spheres() {
    let mut w = World::new();
    w.push_vec(vec![Interaction::wrap(0), Interaction::wrap(1)]);
    assert_eq!(w.len(), 2);
    assert!(w.contains(&table(2, &[0])));
    assert!(w.contains(&table(2, &[1])));
    assert!(!w.contains(&table(2, &[])));
}

#[test]
fn empty_inside_list_has_no_interior() {
    let c = Interaction(vec![], vec![0]);
    assert!(!c.contains(&table(1, &[])));
    assert!(!c.on_boundary(&table(1, &[]), false, 0));
}

#[test]
fn ids_past_the_table_are_outside() {
    let c = Interaction::wrap(5);
    assert!(!c.contains(&table(2, &[0, 1])));
    assert!(Interaction::outside(&table(2, &[]), 7));
    assert!(!Interaction::inside(&table(2, &[0, 1]), 7));
}

#[test]
fn all_inside_except_skips_one() {
    let m = table(3, &[0, 2]);
    assert!(!Interaction::all_inside_except(&m, &[0, 1, 2], 3));
    assert!(Interaction::all_inside_except(&m, &[0, 1, 2], 1));
    assert!(Interaction::all_outside_except(&m, &[1, 2], 1));
    assert!(!Interaction::all_outside_except(&m, &[1, 2], 2));
    assert!(Interaction::all_outside_except(&m, &[], 0));
}

#[test]
fn boundary_of_shell() {
    let c = Interaction::wrap(0).remove(1);
    // crossing the big sphere where the small one does not contain the point
    assert!(c.on_boundary(&table(2, &[]), true, 0));
    // crossing the big sphere inside the small one
    assert!(!c.on_boundary(&table(2, &[1]), true, 0));
    // crossing the small sphere inside the big one
    assert!(c.on_boundary(&table(2, &[0, 1]), false, 0));
    // crossing the small sphere outside the big one
    assert!(!c.on_boundary(&table(2, &[1]), false, 0));
}

#[test]
fn clause_builders() {
    let mut c = Interaction::wrap(0).intersect(1).remove(2);
    c.intersect_mut(3);
    c.remove_mut(4);
    assert_eq!(c.0, vec![0, 1, 3]);
    assert_eq!(c.1, vec![2, 4]);
}

#[test]
fn world_clear() {
    let mut w = World::new();
    w.push(Interaction::wrap(0));
    assert_eq!(w.clause(0).0, vec![0]);
    w.clear();
    assert_eq!(w.len(), 0);
    assert!(!w.contains(&table(1, &[0])));
}

#[test]
fn medium_first_refractive_of_first_matching_clause() {
    let mut w = World::new();
    w.push(Interaction::wrap(0).intersect(1));
    w.push(Interaction::wrap(2));
    w.push(Interaction::wrap(3));
    let rf = table(4, &[1, 2, 3]);
    // inside 0 and 1: the first clause holds, its first refractive member is 1
    assert_eq!(w.medium_source(&table(4, &[0, 1]), &rf), Some(1));
    // inside 2 and 3: the second clause comes first
    assert_eq!(w.medium_source(&table(4, &[2, 3]), &rf), Some(2));
    // a matching clause without refractive member gives way to the next
    assert_eq!(w.medium_source(&table(4, &[0, 1, 3]), &table(4, &[3])), Some(3));
    // nothing holds: vacuum
    assert_eq!(w.medium_source(&table(4, &[0]), &rf), None);
}

fn holds(t: &InterTree, m: &[bool]) -> bool {
    match t {
        InterTree::Item(p) => *p < m.len() && m[*p],
        InterTree::Node(op, a, b) => {
            let (x, y) = (holds(a, m), holds(b, m));
            match op {
                libtrace::tree::Interaction::Inter => x && y,
                libtrace::tree::Interaction::Diff => x && !y,
                libtrace::tree::Interaction::Union => x || y,
            }
        }
    }
}

fn check_all_points(t: &InterTree, n: usize) {
    let mut w = World::new();
    w.push_vec(t.canonical());
    for bits in 0..(1usize << n) {
        let m: Vec<bool> = (0..n).map(|i| bits >> i & 1 == 1).collect();
        assert_eq!(w.contains(&m), holds(t, &m), "table {:?}", m);
    }
}

#[test]
fn canonical_leaf() {
    let c = InterTree::Item(3).canonical();
    assert_eq!(c.len(), 1);
    assert_eq!(c[0].0, vec![3]);
    assert!(c[0].1.is_empty());
}

#[test]
fn canonical_intersection_merges_lists() {
    let t = InterTree::Item(0).diff(InterTree::Item(1)).inter(InterTree::Item(2).diff(InterTree::Item(3)));
    let c = t.canonical();
    assert_eq!(c.len(), 1);
    assert_eq!(c[0].0, vec![0, 2]);
    assert_eq!(c[0].1, vec![1, 3]);
}

#[test]
fn canonical_union_keeps_clauses() {
    let c = InterTree::Item(0).union(InterTree::Item(1)).canonical();
    assert_eq!(c.len(), 2);
    assert_eq!(c[0].0, vec![0]);
    assert_eq!(c[1].0, vec![1]);
}

#[test]
fn canonical_difference_of_a_difference() {
    // A \ (C \ (D | E)) is A outside C, or A inside D, or A inside E
    let t = InterTree::Item(0).diff(
        InterTree::Item(1).diff(InterTree::Item(2).union(InterTree::Item(3))),
    );
    let c = t.canonical();
    assert_eq!(c.len(), 3);
    assert_eq!((c[0].0.clone(), c[0].1.clone()), (vec![0], vec![1]));
    assert_eq!((c[1].0.clone(), c[1].1.clone()), (vec![0, 2], vec![]));
    assert_eq!((c[2].0.clone(), c[2].1.clone()), (vec![0, 3], vec![]));
    check_all_points(&t, 4);
}

#[test]
fn canonical_agrees_with_tree_on_every_point() {
    let a = || InterTree::Item(0);
    let b = || InterTree::Item(1);
    let c = || InterTree::Item(2);
    let d = || InterTree::Item(3);
    check_all_points(&a().union(b()).diff(c().inter(d())), 4);
    check_all_points(&a().diff(b()).diff(c().diff(d())), 4);
    check_all_points(&a().union(b()).inter(c().union(d().diff(a()))), 4);
    check_all_points(&a().diff(b().union(c()).diff(d().inter(a()))), 4);
}
