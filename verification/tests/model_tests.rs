use flowpaint::geometry::GridRect;
use flowpaint::model::{ObjMaterial, SketchModel, SketchObject};

/// What an object looks like, as far as these tests care: a centre and
/// a stroke thickness.
#[derive(Clone, Debug, PartialEq)]
struct Body {
    c: [f32; 2],
    thickness: f32,
}

fn body(c: [f32; 2]) -> Body {
    Body { c, thickness: 4.0 }
}

fn leaf(id: u64, b: Body) -> SketchObject<Body> {
    SketchObject { id, parent: None, locked: false, hidden: false, is_group: false, body: b }
}

fn obj(model: &mut SketchModel<Body>, c: [f32; 2]) -> u64 {
    let id = model.fresh_id();
    model.add(leaf(id, body(c)));
    id
}

fn ids(m: &SketchModel<Body>) -> Vec<u64> {
    m.objects.iter().map(|o| o.id).collect()
}

fn at(m: &SketchModel<Body>, id: u64) -> &SketchObject<Body> {
    &m.objects[m.find(id).unwrap()]
}

/// Group `ids` under a new identity group, members keeping their bodies.
fn group(m: &mut SketchModel<Body>, ids: &[u64]) -> Option<u64> {
    let (members, _) = m.group_members(ids);
    let bodies: Vec<Body> = members.iter().map(|&id| at(m, id).body.clone()).collect();
    m.group_objects(ids, body([0.0, 0.0]), bodies)
}

fn ungroup(m: &mut SketchModel<Body>, gid: u64) -> bool {
    let bodies: Vec<Body> = m.children_of(gid).iter().map(|&id| at(m, id).body.clone()).collect();
    m.ungroup(gid, bodies)
}

fn reparent(m: &mut SketchModel<Body>, id: u64, target: Option<u64>) -> Result<(), &'static str> {
    let b = match m.find(id) {
        Some(i) => m.objects[i].body.clone(),
        None => body([0.0, 0.0]),
    };
    m.reparent(id, target, b)
}

#[test]
fn insert_at_undoes_and_redoes_at_its_slot() {
    let mut m = SketchModel::new();
    let a = obj(&mut m, [0.0, 0.0]);
    let b = obj(&mut m, [50.0, 0.0]);
    let id = m.fresh_id();
    let mut o = m.objects[0].clone();
    o.id = id;
    m.insert_at(0, o);
    assert_eq!(ids(&m), vec![id, a, b]);
    m.undo();
    assert_eq!(ids(&m), vec![a, b]);
    m.redo();
    assert_eq!(ids(&m), vec![id, a, b]);
}

#[test]
fn apply_erase_split_is_one_undo_entry_with_contiguous_fragments() {
    let mut m = SketchModel::new();
    let a = obj(&mut m, [0.0, 0.0]);
    let b = obj(&mut m, [50.0, 0.0]);
    let c = obj(&mut m, [100.0, 0.0]);
    let order0: Vec<u64> = ids(&m);
    let before_b = at(&m, b).clone();
    // Split b into two fragments and delete c, as one stroke.
    let mut f1 = before_b.clone();
    f1.body = Body { c: [42.5, 0.0], thickness: 1.0 };
    let f2_id = m.fresh_id();
    let mut f2 = before_b.clone();
    f2.id = f2_id;
    f2.body = Body { c: [57.5, 0.0], thickness: 1.0 };
    m.apply_erase(vec![(b, vec![f1.clone(), f2]), (c, Vec::new())]);
    // Fragments sit contiguously at b's slot; c is gone.
    assert_eq!(ids(&m), vec![a, b, f2_id]);
    assert_eq!(at(&m, b).body, f1.body);
    // ONE undo restores everything, including c's slot and b's shape.
    m.undo();
    assert_eq!(ids(&m), order0);
    assert!(*at(&m, b) == before_b);
    m.redo();
    assert_eq!(ids(&m), vec![a, b, f2_id]);
}

#[test]
fn remove_many_is_one_undo_entry_and_restores_order() {
    let mut m = SketchModel::new();
    let a = obj(&mut m, [0.0, 0.0]);
    let b = obj(&mut m, [50.0, 0.0]);
    let c = obj(&mut m, [100.0, 0.0]);
    let order0 = ids(&m);
    m.remove_many(&[a, c]);
    assert_eq!(ids(&m), vec![b]);
    m.undo(); // ONE undo restores both, at their original slots
    assert_eq!(ids(&m), order0);
    m.redo();
    assert_eq!(ids(&m), vec![b]);
}

#[test]
fn add_many_is_one_undo_entry() {
    let mut m = SketchModel::new();
    let a = obj(&mut m, [0.0, 0.0]);
    let mut o1 = m.objects[0].clone();
    o1.id = m.fresh_id();
    let mut o2 = m.objects[0].clone();
    o2.id = m.fresh_id();
    let (i1, i2) = (o1.id, o2.id);
    m.add_many(vec![o1, o2]);
    assert_eq!(ids(&m), vec![a, i1, i2]);
    m.undo();
    assert_eq!(ids(&m), vec![a]);
    m.redo();
    assert_eq!(ids(&m), vec![a, i1, i2]);
}

#[test]
fn modify_many_records_one_entry_and_coalesces_by_id_set() {
    let mut m = SketchModel::new();
    let a = obj(&mut m, [0.0, 0.0]);
    let b = obj(&mut m, [50.0, 0.0]);
    // A "panel edit" across the set, twice (slider frames): the second
    // merges into the first, one undo reverts to the start.
    for step in [1.0f32, 2.0] {
        let pairs: Vec<(u64, SketchObject<Body>, bool)> = [a, b]
            .iter()
            .map(|&id| {
                let i = m.find(id).unwrap();
                let before = m.objects[i].clone();
                m.objects[i].body.thickness = 4.0 + step;
                let same = m.objects[i].body == before.body;
                (id, before, same)
            })
            .collect();
        m.record_modify_many_coalesced(pairs);
    }
    assert_eq!(m.objects[0].body.thickness, 6.0);
    m.undo();
    assert_eq!(m.objects[0].body.thickness, 4.0);
    assert_eq!(m.objects[1].body.thickness, 4.0);
    assert!(!m.can_undo() || {
        m.undo();
        m.objects[0].body.thickness == 4.0
    });
}

#[test]
fn reorder_round_trips_and_rejects_non_permutations() {
    let mut m = SketchModel::new();
    let a = obj(&mut m, [0.0, 0.0]);
    let b = obj(&mut m, [50.0, 0.0]);
    let c = obj(&mut m, [100.0, 0.0]);
    m.reorder(vec![c, a, b]);
    assert_eq!(ids(&m), vec![c, a, b]);
    m.undo();
    assert_eq!(ids(&m), vec![a, b, c]);
    m.redo();
    assert_eq!(ids(&m), vec![c, a, b]);
    // Not a permutation: ignored.
    m.reorder(vec![a, a, b]);
    assert_eq!(ids(&m), vec![c, a, b]);
}

#[test]
fn hit_test_skips_locked_and_hidden() {
    // The pointer touches the one object; which object it picks is the
    // model's decision.
    let mut m = SketchModel::new();
    let a = obj(&mut m, [0.0, 0.0]);
    let touches = vec![true];
    assert_eq!(m.topmost_hit(&touches), Some(a));
    m.objects[0].locked = true;
    assert_eq!(m.topmost_hit(&touches), None);
    m.objects[0].locked = false;
    m.objects[0].hidden = true;
    assert_eq!(m.topmost_hit(&touches), None);
}

#[test]
fn reparent_refuses_cycles() {
    let mut m = SketchModel::new();
    let a = obj(&mut m, [0.0, 0.0]);
    let b = obj(&mut m, [50.0, 0.0]);
    let inner = group(&mut m, &[a]).unwrap();
    let outer = group(&mut m, &[inner]).unwrap();
    // Self-parenting.
    assert!(reparent(&mut m, outer, Some(outer)).is_err());
    // Direct child.
    assert!(reparent(&mut m, outer, Some(inner)).is_err());
    // Deeper descendant: make one more level below inner.
    let deepest = group(&mut m, &[b]).unwrap();
    reparent(&mut m, deepest, Some(inner)).unwrap();
    assert!(reparent(&mut m, outer, Some(deepest)).is_err());
    // Structure is intact after the refusals.
    assert_eq!(at(&m, inner).parent, Some(outer));
    assert_eq!(at(&m, outer).parent, None);
    // Reparenting to a NON-group is refused too.
    assert!(reparent(&mut m, inner, Some(a)).is_err());
    // A legal reparent round-trips through undo.
    reparent(&mut m, deepest, None).unwrap();
    assert_eq!(at(&m, deepest).parent, None);
    m.undo();
    assert_eq!(at(&m, deepest).parent, Some(inner));
}

#[test]
fn group_is_one_undo_entry() {
    let mut m = SketchModel::new();
    let a = obj(&mut m, [0.0, 0.0]);
    let b = obj(&mut m, [50.0, 0.0]);
    let g = group(&mut m, &[a, b]).unwrap();
    assert_eq!(at(&m, a).parent, Some(g));
    m.undo();
    assert!(m.find(g).is_none());
    assert_eq!(at(&m, a).parent, None);
    m.redo();
    assert_eq!(at(&m, b).parent, Some(g));
}

#[test]
fn group_flags_apply_to_subtree() {
    let mut m = SketchModel::new();
    let a = obj(&mut m, [0.0, 0.0]);
    let g = group(&mut m, &[a]).unwrap();
    let touches = vec![true; m.objects.len()];
    assert_eq!(m.topmost_hit(&touches), Some(a));
    let gi = m.find(g).unwrap();
    m.objects[gi].locked = true;
    assert!(m.eff_locked(a));
    assert_eq!(m.topmost_hit(&touches), None);
    m.objects[gi].locked = false;
    m.objects[gi].hidden = true;
    assert!(m.eff_hidden(a));
    assert_eq!(m.topmost_hit(&touches), None);
}

#[test]
fn group_ungroup_round_trip_holds_world_geometry() {
    // The tree half of the round trip: grouping twice and dissolving
    // both levels leaves the leaf a root object again.
    let mut m = SketchModel::new();
    let a = obj(&mut m, [40.0, 20.0]);
    let g = group(&mut m, &[a]).unwrap();
    let outer = group(&mut m, &[g]).unwrap();
    assert_eq!(m.depth(a), 2);
    assert!(ungroup(&mut m, outer));
    assert!(ungroup(&mut m, g));
    assert_eq!(at(&m, a).parent, None);
    assert_eq!(at(&m, a).body, body([40.0, 20.0]));
    assert_eq!(ids(&m), vec![a]);
}

// --- Further scenarios ------------------------------------------------------

#[test]
fn fresh_ids_count_up_from_one() {
    let mut m: SketchModel<Body> = SketchModel::new();
    assert_eq!(m.current_id(), 0);
    assert_eq!(m.fresh_id(), 1);
    assert_eq!(m.fresh_id(), 2);
    assert_eq!(m.current_id(), 2);
}

#[test]
fn undo_and_redo_on_empty_stacks_do_nothing() {
    let mut m = SketchModel::new();
    let a = obj(&mut m, [0.0, 0.0]);
    m.clear_history();
    assert!(!m.can_undo());
    m.undo();
    assert_eq!(ids(&m), vec![a]);
    assert!(!m.can_redo());
    m.redo();
    assert_eq!(ids(&m), vec![a]);
}

#[test]
fn a_new_action_clears_the_redo_stack() {
    let mut m = SketchModel::new();
    let _a = obj(&mut m, [0.0, 0.0]);
    m.undo();
    assert!(m.can_redo());
    let _b = obj(&mut m, [1.0, 0.0]);
    assert!(!m.can_redo());
}

#[test]
fn cancel_last_add_drops_the_object_and_its_entry() {
    let mut m = SketchModel::new();
    let a = obj(&mut m, [0.0, 0.0]);
    let b = obj(&mut m, [5.0, 0.0]);
    m.cancel_last_add(b);
    assert_eq!(ids(&m), vec![a]);
    m.undo();
    assert_eq!(ids(&m), Vec::<u64>::new());
    // An object that is not the last add still leaves the list, but the
    // newest entry stays.
    m.redo();
    let c = obj(&mut m, [9.0, 0.0]);
    m.cancel_last_add(a);
    assert_eq!(ids(&m), vec![c]);
    m.undo();
    assert_eq!(ids(&m), Vec::<u64>::new());
}

#[test]
fn replace_all_is_undoable_and_moves_the_id_counter_past_loaded_ids() {
    let mut m = SketchModel::new();
    let a = obj(&mut m, [0.0, 0.0]);
    m.replace_all(vec![leaf(40, body([1.0, 1.0])), leaf(7, body([2.0, 2.0]))]);
    assert_eq!(ids(&m), vec![40, 7]);
    assert_eq!(m.current_id(), 40);
    assert_eq!(m.fresh_id(), 41);
    m.undo();
    assert_eq!(ids(&m), vec![a]);
    m.redo();
    assert_eq!(ids(&m), vec![40, 7]);
}

#[test]
fn single_modify_undoes_and_coalesces() {
    let mut m = SketchModel::new();
    let a = obj(&mut m, [0.0, 0.0]);
    for t in [5.0f32, 6.0, 7.0] {
        let i = m.find(a).unwrap();
        let before = m.objects[i].clone();
        m.objects[i].body.thickness = t;
        let same = m.objects[i].body == before.body;
        m.record_modify_coalesced(a, before, same);
    }
    m.undo();
    assert_eq!(at(&m, a).body.thickness, 4.0);
    m.redo();
    assert_eq!(at(&m, a).body.thickness, 7.0);
    // An uncoalesced edit is its own entry.
    let i = m.find(a).unwrap();
    let before = m.objects[i].clone();
    m.objects[i].body.thickness = 1.0;
    let same = m.objects[i].body == before.body;
    m.record_modify(a, before, same);
    m.undo();
    assert_eq!(at(&m, a).body.thickness, 7.0);
}

#[test]
fn modify_many_uncoalesced_is_one_entry() {
    let mut m = SketchModel::new();
    let a = obj(&mut m, [0.0, 0.0]);
    let b = obj(&mut m, [1.0, 0.0]);
    let mut pairs = Vec::new();
    for id in [a, b] {
        let i = m.find(id).unwrap();
        let before = m.objects[i].clone();
        m.objects[i].body.thickness = 9.0;
        let same = m.objects[i].body == before.body;
        pairs.push((id, before, same));
    }
    m.record_modify_many(pairs);
    m.undo();
    assert_eq!(at(&m, a).body.thickness, 4.0);
    assert_eq!(at(&m, b).body.thickness, 4.0);
    m.redo();
    assert_eq!(at(&m, b).body.thickness, 9.0);
}

#[test]
fn tree_queries() {
    let mut m = SketchModel::new();
    let a = obj(&mut m, [0.0, 0.0]);
    let b = obj(&mut m, [1.0, 0.0]);
    let c = obj(&mut m, [2.0, 0.0]);
    let g = group(&mut m, &[a, b]).unwrap();
    let outer = group(&mut m, &[g, c]).unwrap();
    assert_eq!(m.children_of(outer), vec![c, g]);
    assert_eq!(m.children_of(g), vec![a, b]);
    assert_eq!(m.subtree_ids(outer), vec![a, b, c, g, outer]);
    assert_eq!(m.subtree_ids(g), vec![a, b, g]);
    assert!(m.is_descendant(a, outer));
    assert!(m.is_descendant(a, g));
    assert!(!m.is_descendant(c, g));
    assert!(!m.is_descendant(outer, outer));
    assert_eq!(m.depth(outer), 0);
    assert_eq!(m.depth(g), 1);
    assert_eq!(m.depth(a), 2);
    assert_eq!(m.depth(999), 0);
    assert_eq!(m.ancestor_chain(a), vec![a, g, outer]);
    assert_eq!(m.ancestor_chain(999), vec![999]);
    assert!(m.is_group(g));
    assert!(!m.is_group(a));
}

#[test]
fn grouping_members_with_different_parents_lands_at_the_root() {
    let mut m = SketchModel::new();
    let a = obj(&mut m, [0.0, 0.0]);
    let b = obj(&mut m, [1.0, 0.0]);
    let g = group(&mut m, &[a]).unwrap();
    let (members, common) = m.group_members(&[a, b, 999]);
    assert_eq!(members, vec![a, b]);
    assert_eq!(common, None);
    let (members, common) = m.group_members(&[a]);
    assert_eq!(members, vec![a]);
    assert_eq!(common, Some(g));
    assert_eq!(group(&mut m, &[998]), None);
}

#[test]
fn reparent_refusal_messages() {
    let mut m = SketchModel::new();
    let a = obj(&mut m, [0.0, 0.0]);
    let g = group(&mut m, &[a]).unwrap();
    assert_eq!(reparent(&mut m, 77, None), Err("no such object"));
    assert_eq!(reparent(&mut m, g, Some(g)), Err("a group can't be moved into itself"));
    assert_eq!(reparent(&mut m, a, Some(77)), Err("no such group"));
    let b = obj(&mut m, [1.0, 0.0]);
    assert_eq!(reparent(&mut m, a, Some(b)), Err("target is not a group"));
    let h = group(&mut m, &[b]).unwrap();
    reparent(&mut m, h, Some(g)).unwrap();
    assert_eq!(reparent(&mut m, g, Some(h)), Err("a group can't be moved into its own subtree"));
    // Moving to the current parent succeeds without an entry: the
    // newest entry is still the move of `h`.
    assert_eq!(reparent(&mut m, a, Some(g)), Ok(()));
    m.undo();
    assert_eq!(at(&m, h).parent, None);
}

#[test]
fn dirty_region_accumulates_and_drains() {
    let mut m: SketchModel<Body> = SketchModel::new();
    let _ = m.take_dirty();
    assert_eq!(m.take_dirty(), None);
    m.mark_dirty(GridRect { x0: 0, y0: 0, x1: 4, y1: 4 });
    m.mark_dirty(GridRect { x0: 2, y0: 2, x1: 8, y1: 6 });
    assert_eq!(m.take_dirty(), Some(GridRect { x0: 0, y0: 0, x1: 8, y1: 6 }));
    assert_eq!(m.take_dirty(), None);
}

#[test]
fn material_labels() {
    assert_eq!(ObjMaterial::Wall.label(), "Wall");
}

#[test]
fn copies_get_fresh_ids_and_remapped_parents() {
    let mut m = SketchModel::new();
    let a = obj(&mut m, [0.0, 0.0]);
    let _b = obj(&mut m, [1.0, 0.0]);
    let g = group(&mut m, &[a]).unwrap();
    // The subtree of g, in model order: a, then g.
    let src = vec![at(&m, a).clone(), at(&m, g).clone()];
    let (copies, roots) = m.copy_with_fresh_ids(src);
    assert_eq!(copies[0].id, g + 1);
    assert_eq!(copies[1].id, g + 2);
    assert_eq!(copies[0].parent, Some(g + 2));
    assert_eq!(copies[1].parent, None);
    assert_eq!(roots, vec![false, true]);
    assert!(copies[1].is_group);
    assert_eq!(copies[0].body, body([0.0, 0.0]));
    // A member copied alone keeps its group.
    let (copies, roots) = m.copy_with_fresh_ids(vec![at(&m, a).clone()]);
    assert_eq!(copies[0].id, g + 3);
    assert_eq!(copies[0].parent, Some(g));
    assert_eq!(roots, vec![true]);
    m.add_many(copies);
    assert_eq!(ids(&m), vec![a, 2, g, g + 3]);
}

#[test]
fn tree_rows_list_roots_then_children_topmost_first() {
    let mut m = SketchModel::new();
    let a = obj(&mut m, [0.0, 0.0]);
    let b = obj(&mut m, [1.0, 0.0]);
    let c = obj(&mut m, [2.0, 0.0]);
    let g = group(&mut m, &[a, b]).unwrap();
    let outer = group(&mut m, &[g, c]).unwrap();
    let d = obj(&mut m, [3.0, 0.0]);
    assert_eq!(m.tree_rows(), vec![(d, 0), (outer, 0), (g, 1), (b, 2), (a, 2), (c, 1)]);
}

#[test]
fn ungroup_is_one_undo_entry() {
    let mut m = SketchModel::new();
    let a = obj(&mut m, [0.0, 0.0]);
    let b = obj(&mut m, [1.0, 0.0]);
    let g = group(&mut m, &[a, b]).unwrap();
    let before = ids(&m);
    assert!(ungroup(&mut m, g));
    assert!(m.find(g).is_none());
    assert_eq!(at(&m, a).parent, None);
    m.undo();
    assert_eq!(ids(&m), before);
    assert_eq!(at(&m, a).parent, Some(g));
    assert_eq!(at(&m, b).parent, Some(g));
    m.redo();
    assert!(m.find(g).is_none());
    // Ungrouping something that is not a group does nothing.
    assert!(!ungroup(&mut m, a));
}

#[test]
fn undoing_and_redoing_a_whole_list_swap_marks_everything() {
    let mut m = SketchModel::new();
    let a = obj(&mut m, [0.0, 0.0]);
    m.replace_all(vec![leaf(9, body([1.0, 1.0]))]);
    let all = m.take_dirty();
    assert!(all.is_some());
    m.undo();
    assert_eq!(ids(&m), vec![a]);
    assert_eq!(m.take_dirty(), all);
    m.redo();
    assert_eq!(ids(&m), vec![9]);
    assert_eq!(m.take_dirty(), all);
    // Other entries leave the damage to the caller.
    m.undo();
    let _ = m.take_dirty();
    m.undo();
    assert_eq!(ids(&m), Vec::<u64>::new());
    assert_eq!(m.take_dirty(), None);
}

#[test]
fn object_at_reads_by_position() {
    let mut m = SketchModel::new();
    let a = obj(&mut m, [0.0, 0.0]);
    let b = obj(&mut m, [3.0, 1.0]);
    assert_eq!(m.object_at(0).id, a);
    assert_eq!(m.object_at(1).id, b);
    assert_eq!(m.object_at(1).body, body([3.0, 1.0]));
}

#[test]
fn every_recorded_change_undoes_and_redoes() {
    let mut m = SketchModel::new();
    let a = obj(&mut m, [0.0, 0.0]);
    let b = obj(&mut m, [1.0, 0.0]);
    let c = obj(&mut m, [2.0, 0.0]);
    let g = group(&mut m, &[a, b]).unwrap();
    m.reorder(vec![c, a, b, g]);
    m.remove_many(&[b]);
    let before_undo: Vec<SketchObject<Body>> = m.objects.clone();
    m.undo();
    assert_eq!(ids(&m), vec![c, a, b, g]);
    m.redo();
    assert_eq!(m.objects, before_undo);
    m.undo();
    m.undo();
    assert_eq!(ids(&m), vec![a, b, c, g]);
    m.redo();
    assert_eq!(ids(&m), vec![c, a, b, g]);
}

#[test]
fn a_no_op_edit_records_nothing_and_keeps_redo() {
    let mut m = SketchModel::new();
    let a = obj(&mut m, [0.0, 0.0]);
    let _b = obj(&mut m, [1.0, 0.0]);
    m.undo();
    assert!(m.can_redo());
    let i = m.find(a).unwrap();
    let before = m.objects[i].clone();
    // A click without a drag: nothing moved.
    m.record_modify(a, before.clone(), true);
    m.record_modify_coalesced(a, before.clone(), true);
    m.record_modify_many(vec![(a, before.clone(), true)]);
    m.record_modify_many_coalesced(vec![(a, before.clone(), true)]);
    assert!(m.can_redo());
    m.undo();
    assert!(!m.can_undo());
    // A flag change is a change even when the body is the same.
    m.redo();
    let i = m.find(a).unwrap();
    m.objects[i].locked = true;
    m.record_modify(a, before, true);
    assert!(!m.can_redo());
    m.undo();
    assert!(!at(&m, a).locked);
}

#[test]
fn set_object_writes_without_recording() {
    let mut m = SketchModel::new();
    let a = obj(&mut m, [0.0, 0.0]);
    let mut o = at(&m, a).clone();
    o.body.thickness = 8.0;
    m.set_object(0, o.clone());
    assert_eq!(m.objects[0], o);
    m.undo();
    assert!(m.objects.is_empty());
}
