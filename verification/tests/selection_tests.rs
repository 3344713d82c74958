use flowpaint::model::{SketchModel, SketchObject};
use flowpaint::selection::{band_scope, child_toward, expand_subtrees, order_deepest_first, zorder_positions, Selection};

fn leaf(id: u64) -> SketchObject<u32> {
    SketchObject { id, parent: None, locked: false, hidden: false, is_group: false, body: 0 }
}

fn add(m: &mut SketchModel<u32>) -> u64 {
    let id = m.fresh_id();
    m.add(leaf(id));
    id
}

fn group(m: &mut SketchModel<u32>, ids: &[u64]) -> u64 {
    let (members, _) = m.group_members(ids);
    let bodies = vec![0u32; members.len()];
    m.group_objects(ids, 0, bodies).unwrap()
}

#[test]
fn selection_set_operations_keep_insertion_order() {
    let mut s = Selection::new();
    assert!(s.is_empty());
    assert_eq!(s.primary(), None);
    s.select_add(3);
    s.select_add(5);
    s.select_add(3);
    assert_eq!(s.as_slice(), &[3, 5]);
    assert_eq!(s.primary(), Some(5));
    assert_eq!(s.single(), None);
    s.select_toggle(3);
    assert_eq!(s.as_slice(), &[5]);
    assert_eq!(s.single(), Some(5));
    s.select_toggle(7);
    assert_eq!(s.as_slice(), &[5, 7]);
    assert!(s.contains(7));
    s.deselect(5);
    assert_eq!(s.as_slice(), &[7]);
    s.select_only(9);
    assert_eq!(s.as_slice(), &[9]);
    s.deselect_all();
    assert_eq!(s.len(), 0);
}

#[test]
fn prune_drops_ids_that_no_longer_resolve() {
    let mut m = SketchModel::new();
    let a = add(&mut m);
    let b = add(&mut m);
    let mut s = Selection::new();
    s.select_add(a);
    s.select_add(b);
    m.undo(); // b is gone
    s.prune(&m);
    assert_eq!(s.as_slice(), &[a]);
}

#[test]
fn editable_and_transform_targets_respect_locks_and_nesting() {
    let mut m = SketchModel::new();
    let a = add(&mut m);
    let b = add(&mut m);
    let c = add(&mut m);
    let g = group(&mut m, &[a, b]);
    let mut s = Selection::new();
    for id in [a, g, c, 99] {
        s.select_add(id);
    }
    // `a` sits inside the selected group: only the group transforms.
    assert_eq!(s.editable(&m), vec![a, g, c]);
    assert_eq!(s.transform_targets(&m), vec![g, c]);
    // Locking the group locks its members too.
    let gi = m.find(g).unwrap();
    m.objects[gi].locked = true;
    assert_eq!(s.editable(&m), vec![c]);
    assert_eq!(s.editable_groups(&m), Vec::<u64>::new());
    m.objects[gi].locked = false;
    assert_eq!(s.editable_groups(&m), vec![g]);
}

#[test]
fn expand_and_delete_order_cover_whole_subtrees_deepest_first() {
    let mut m = SketchModel::new();
    let a = add(&mut m);
    let b = add(&mut m);
    let c = add(&mut m);
    let g = group(&mut m, &[a]);
    let outer = group(&mut m, &[g, b]);
    assert_eq!(expand_subtrees(&m, &[outer]), vec![a, b, g, outer]);
    assert_eq!(expand_subtrees(&m, &[g, c]), vec![a, c, g]);
    assert_eq!(order_deepest_first(&m, &vec![outer, g, a, b, c]), vec![a, g, b, outer, c]);
    let mut s = Selection::new();
    s.select_add(outer);
    assert_eq!(s.delete_order(&m), vec![a, b, g, outer]);
}

#[test]
fn pick_target_prefers_selected_then_entered_then_outermost() {
    let mut m = SketchModel::new();
    let a = add(&mut m);
    let g = group(&mut m, &[a]);
    let outer = group(&mut m, &[g]);
    let mut s = Selection::new();
    // Nothing selected, nothing entered: the outermost group.
    assert_eq!(s.pick_target(&m, None, a), outer);
    // Inside the entered outer group: one level below it.
    assert_eq!(s.pick_target(&m, Some(outer), a), g);
    assert_eq!(s.pick_target(&m, Some(g), a), a);
    // Something on the chain already selected wins.
    s.select_add(g);
    assert_eq!(s.pick_target(&m, Some(outer), a), g);
    s.select_only(a);
    assert_eq!(s.pick_target(&m, None, a), a);
    assert_eq!(child_toward(&m, outer, a), g);
    assert_eq!(child_toward(&m, g, a), a);
    assert_eq!(child_toward(&m, 77, a), a);
    assert_eq!(band_scope(&m, None, a), outer);
    assert_eq!(band_scope(&m, Some(outer), a), g);
    assert_eq!(band_scope(&m, Some(a), a), outer);
}

#[test]
fn zorder_positions_move_flagged_runs() {
    let f = vec![false, true, true, false, false, true];
    assert_eq!(zorder_positions(&f, 2), vec![0, 3, 4, 1, 2, 5]);
    assert_eq!(zorder_positions(&f, -2), vec![1, 2, 5, 0, 3, 4]);
    // Up one slot: each flagged run trades places with what is above it.
    assert_eq!(zorder_positions(&f, 1), vec![0, 3, 1, 2, 4, 5]);
    // Down one slot: each flagged run trades places with what is below it.
    assert_eq!(zorder_positions(&f, -1), vec![1, 2, 0, 3, 5, 4]);
    assert_eq!(zorder_positions(&vec![], 1), Vec::<usize>::new());
    assert_eq!(zorder_positions(&vec![true, true], -1), vec![0, 1]);
}

#[test]
fn zorder_ids_raise_a_group_with_its_members() {
    let mut m = SketchModel::new();
    let a = add(&mut m);
    let b = add(&mut m);
    let c = add(&mut m);
    let g = group(&mut m, &[a]);
    // Order: a b c g. Raising g to the top takes a with it.
    let mut s = Selection::new();
    s.select_add(g);
    let order = s.zorder_ids(&m, 2);
    assert_eq!(order, vec![b, c, a, g]);
    m.reorder(order);
    let now: Vec<u64> = m.objects.iter().map(|o| o.id).collect();
    assert_eq!(now, vec![b, c, a, g]);
    assert_eq!(s.zorder_ids(&m, -2), vec![a, g, b, c]);
}

#[test]
fn clicks_select_pick_targets() {
    let mut m = SketchModel::new();
    let a = add(&mut m);
    let b = add(&mut m);
    let g = group(&mut m, &[a]);
    let mut s = Selection::new();
    // A plain click on a member selects its outermost group.
    s.click(&m, None, a, false);
    assert_eq!(s.as_slice(), &[g]);
    // Clicking it again keeps the selection.
    s.click(&m, None, a, false);
    assert_eq!(s.as_slice(), &[g]);
    // Shift-click toggles.
    s.click(&m, None, b, true);
    assert_eq!(s.as_slice(), &[g, b]);
    s.click(&m, None, a, true);
    assert_eq!(s.as_slice(), &[b]);
    // A plain click elsewhere replaces the selection.
    s.click(&m, Some(g), a, false);
    assert_eq!(s.as_slice(), &[a]);
}

#[test]
fn rubber_band_adds_scopes_of_pickable_objects() {
    let mut m = SketchModel::new();
    let a = add(&mut m);
    let b = add(&mut m);
    let c = add(&mut m);
    let g = group(&mut m, &[a, b]);
    // Model order: a b c g. The band covers a, b and c; c is locked.
    let ci = m.find(c).unwrap();
    m.objects[ci].locked = true;
    let mut base = Selection::new();
    base.select_add(99);
    let in_band = vec![true, true, true, true];
    let mut s = Selection::new();
    s.band_select(&m, &base, &in_band, None);
    assert_eq!(s.as_slice(), &[99, g]);
    // Inside the entered group the members themselves are picked.
    s.band_select(&m, &Selection::new(), &in_band, Some(g));
    assert_eq!(s.as_slice(), &[a, b]);
}

#[test]
fn select_all_takes_unlocked_unhidden_top_level_objects() {
    let mut m = SketchModel::new();
    let a = add(&mut m);
    let b = add(&mut m);
    let c = add(&mut m);
    let d = add(&mut m);
    let g = group(&mut m, &[a, b]);
    let ci = m.find(c).unwrap();
    m.objects[ci].locked = true;
    let di = m.find(d).unwrap();
    m.objects[di].hidden = true;
    let e = add(&mut m);
    let mut s = Selection::new();
    s.select_add(a);
    s.select_all(&m);
    assert_eq!(s.as_slice(), &[g, e]);
}
