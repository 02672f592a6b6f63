use ponent::list::List;
use ponent::region_tree::{Noted, Pool, RegionId, RegionProcessor, RegionTree};

fn nested() -> (RegionTree, RegionId, RegionId, RegionId) {
    let mut t = RegionTree::new();
    let a = t.enter_region();
    let b = t.enter_region();
    t.exit_region();
    let c = t.enter_region();
    t.exit_region();
    t.exit_region();
    (t, a, b, c)
}

fn drained(t: &mut RegionTree, id: RegionId) -> Vec<usize> {
    let mut noted = Noted { ids: List::Nil };
    t.drain_dirty(id, &mut noted);
    order(noted)
}

fn order(noted: Noted) -> Vec<usize> {
    noted.ids.to_refs().into_iter().rev().map(|id| id.0).collect()
}

#[test]
fn entering_and_leaving() {
    let (t, a, b, c) = nested();
    assert_eq!((a, b, c), (RegionId(1), RegionId(2), RegionId(3)));
    assert_eq!(t.current, RegionId(0));
    assert_eq!(t.nodes[1].children, vec![b, c]);
    assert_eq!(t.get_level(RegionId(0)), 0);
    assert_eq!(t.get_level(a), 1);
    assert_eq!(t.get_level(c), 2);
}

#[test]
fn leaving_the_root_stays_there() {
    let mut t = RegionTree::new();
    t.exit_region();
    assert_eq!(t.current, RegionId(0));
}

#[test]
fn common_ancestors() {
    let (mut t, a, b, c) = nested();
    let d = t.enter_region();
    assert_eq!(t.nearest_common_ancestor(b, c), a);
    assert_eq!(t.nearest_common_ancestor(b, a), a);
    assert_eq!(t.nearest_common_ancestor(b, d), RegionId(0));
    assert_eq!(t.nearest_common_ancestor(b, b), b);
    assert!(t.is_ancestor(a, c));
    assert!(t.is_ancestor(RegionId(0), c));
    assert!(t.is_ancestor(c, c));
    assert!(!t.is_ancestor(c, a));
    assert!(!t.is_ancestor(d, c));
}

#[test]
fn a_dirty_region_makes_those_above_dirty() {
    let (mut t, a, b, c) = nested();
    t.mark_dirty(b);
    assert_eq!(t.collect_dirty_ids(), vec![RegionId(0), a, b]);
    assert_eq!(t.nodes[0].dirty_children, vec![a]);
    assert_eq!(t.nodes[1].dirty_children, vec![b]);
    t.mark_dirty(c);
    t.mark_dirty(c);
    assert_eq!(t.nodes[0].dirty_children, vec![a]);
    assert_eq!(t.nodes[1].dirty_children, vec![b, c]);
    assert_eq!(t.collect_dirty_ids(), vec![RegionId(0), a, b, c]);
}

#[test]
fn draining_goes_bottom_up() {
    let (mut t, a, b, c) = nested();
    t.mark_current_dirty();
    t.mark_dirty(a);
    t.mark_dirty(b);
    t.mark_dirty(c);
    let mut noted = Noted { ids: List::Nil };
    t.drain_dirty_roots(&mut noted);
    assert_eq!(order(noted), vec![2, 3, 1, 0]);
    assert!(t.collect_dirty_ids().is_empty());
}

#[test]
fn draining_skips_clean_regions() {
    let (mut t, a, b, c) = nested();
    t.mark_dirty(b);
    assert_eq!(drained(&mut t, c), Vec::<usize>::new());
    assert_eq!(drained(&mut t, a), vec![2, 1]);
    assert_eq!(t.collect_dirty_ids(), vec![RegionId(0)]);
    assert_eq!(drained(&mut t, RegionId(0)), vec![0]);
    assert!(t.collect_dirty_ids().is_empty());
}

#[test]
fn variables_keep_regions_alive() {
    let mut t = RegionTree::new();
    let a = t.enter_region();
    assert!(t.collect_alive_ids().is_empty());
    t.register_rigid_var(7);
    assert_eq!(t.collect_alive_ids(), vec![a]);
    t.register_var(8);
    assert_eq!(t.collect_alive_ids(), vec![a]);
    assert_eq!(t.nodes[1].pool.rigid_var_ids, vec![7]);
    assert_eq!(t.nodes[1].pool.var_ids, vec![8]);
}

#[test]
fn a_pool_is_alive_with_a_variable() {
    let mut pool = Pool::new();
    assert!(!pool.is_alive());
    pool.register_rigid_var(1);
    assert!(pool.is_alive());
    let mut pool = Pool::new();
    pool.register_var(2);
    assert!(pool.is_alive());
    let mut t = RegionTree::new();
    t.register_rigid_var(7);
    assert_eq!(t.collect_alive_ids(), vec![RegionId(0)]);
}

/// Five levels: the root, `a`, then `b` with `c` and `d` below it, and `e` below `d`.
fn deep() -> RegionTree {
    let mut t = RegionTree::new();
    t.enter_region();
    t.enter_region();
    t.enter_region();
    t.exit_region();
    t.enter_region();
    t.enter_region();
    for _ in 0..4 {
        t.exit_region();
    }
    t
}

#[test]
fn draining_takes_what_lies_below_first_at_every_level() {
    let mut t = deep();
    for id in [5, 3, 4] {
        t.mark_dirty(RegionId(id));
    }
    let mut noted = Noted { ids: List::Nil };
    t.drain_dirty_roots(&mut noted);
    let seen = order(noted);
    assert_eq!(seen.len(), 6);
    let at = |id: usize| seen.iter().position(|x| *x == id).unwrap();
    for (below, above) in [(5, 4), (4, 2), (3, 2), (2, 1), (1, 0)] {
        assert!(at(below) < at(above), "{:?}", seen);
    }
    assert!(t.collect_dirty_ids().is_empty());
}

/// A processor that writes down how deep each region lies.
struct Levels(Vec<usize>);

impl RegionProcessor for Levels {
    fn process(&mut self, id: RegionId, tree: &mut RegionTree) {
        self.0.push(tree.get_level(id));
    }
}

#[test]
fn any_processor_sees_the_regions_bottom_up() {
    let mut t = deep();
    t.mark_dirty(RegionId(5));
    let mut levels = Levels(Vec::new());
    t.drain_dirty_roots(&mut levels);
    assert_eq!(levels.0, vec![4, 3, 2, 1, 0]);
    let mut again = Levels(Vec::new());
    t.drain_dirty_roots(&mut again);
    assert!(again.0.is_empty());
}
