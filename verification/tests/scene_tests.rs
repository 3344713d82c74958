use flowpaint::model::SketchObject;
use flowpaint::scene::{sanitize_parents, scene_route, scene_version, SceneLayout, SceneRoute};

fn obj(id: u64, parent: Option<u64>, is_group: bool) -> SketchObject<()> {
    SketchObject { id, parent, locked: false, hidden: false, is_group, body: () }
}

#[test]
fn sanitize_parents_breaks_cycles_and_dangles() {
    let g = |id: u64, parent: Option<u64>| obj(id, parent, true);
    // 1 → 2 → 1 is a cycle; 3 dangles; 6 parents a non-group leaf.
    let leaf = obj(5, Some(99), false); // dangling
    let leaf2 = obj(6, Some(5), false); // a leaf, not a group
    let mut objects = vec![g(1, Some(2)), g(2, Some(1)), g(3, Some(42)), leaf, leaf2];
    sanitize_parents(&mut objects);
    // The cycle is broken (at least one of the pair detached) …
    let p1 = objects[0].parent;
    let p2 = objects[1].parent;
    assert!(p1.is_none() || p2.is_none());
    // … and every remaining chain terminates.
    for o in &objects {
        let mut cur = o.parent;
        let mut hops = 0;
        while let Some(p) = cur {
            cur = objects.iter().find(|x| x.id == p).and_then(|x| x.parent);
            hops += 1;
            assert!(hops < 16, "unterminated chain from #{}", o.id);
        }
    }
    assert_eq!(objects[2].parent, None); // dangling cleared
    assert_eq!(objects[4].parent, None); // non-group parent cleared
}

#[test]
fn sanitize_detaches_the_first_object_of_a_cycle_only() {
    let mut objects = vec![obj(1, Some(2), true), obj(2, Some(1), true), obj(3, Some(1), false)];
    sanitize_parents(&mut objects);
    assert_eq!(objects[0].parent, None);
    assert_eq!(objects[1].parent, Some(1));
    assert_eq!(objects[2].parent, Some(1));
}

#[test]
fn sanitize_keeps_a_sound_tree_and_clears_self_links() {
    let mut objects = vec![obj(1, None, true), obj(2, Some(1), true), obj(3, Some(2), false), obj(4, Some(4), true)];
    sanitize_parents(&mut objects);
    assert_eq!(objects[0].parent, None);
    assert_eq!(objects[1].parent, Some(1));
    assert_eq!(objects[2].parent, Some(2));
    assert_eq!(objects[3].parent, None);
}

#[test]
fn sanitize_breaks_a_long_cycle() {
    let mut objects = vec![obj(1, Some(3), true), obj(2, Some(1), true), obj(3, Some(2), true)];
    sanitize_parents(&mut objects);
    assert_eq!(objects[0].parent, None);
    assert_eq!(objects[1].parent, Some(1));
    assert_eq!(objects[2].parent, Some(2));
}

#[test]
fn scene_version_reads_the_little_endian_head() {
    assert_eq!(scene_version(&[9, 0, 0, 0, 1, 2]), 9);
    assert_eq!(scene_version(&[1, 2, 3, 4]), 0x0403_0201);
    assert_eq!(scene_version(&[9, 0, 0]), 0);
    assert_eq!(scene_version(&[]), 0);
}

#[test]
fn scene_route_picks_the_layout_per_version() {
    let route = |v: u32| scene_route(&v.to_le_bytes());
    assert_eq!(route(3), Some(SceneRoute { version: 3, layout: SceneLayout::V3, seed_plume: true }));
    assert_eq!(route(4), Some(SceneRoute { version: 4, layout: SceneLayout::V4, seed_plume: true }));
    assert_eq!(route(5), Some(SceneRoute { version: 5, layout: SceneLayout::V4, seed_plume: false }));
    assert_eq!(route(6).map(|r| r.layout), Some(SceneLayout::V6));
    assert_eq!(route(7).map(|r| r.layout), Some(SceneLayout::V7));
    assert_eq!(route(8).map(|r| r.layout), Some(SceneLayout::V8));
    assert_eq!(route(9), Some(SceneRoute { version: 9, layout: SceneLayout::V9, seed_plume: false }));
}

#[test]
fn scene_route_refuses_other_versions() {
    assert_eq!(scene_route(&[2, 0, 0, 0]), None);
    assert_eq!(scene_route(&[10, 0, 0, 0]), None);
    assert_eq!(scene_route(&[0, 0, 0, 1]), None);
    assert_eq!(scene_route(&[9]), None);
}
