use flowpaint::probes::ProbeSet;
use flowpaint::settings::{EdgeBcs, EdgeKind, ProbeQuantity, MAX_PROBES};

#[test]
fn probes_get_fresh_ids_up_to_the_limit() {
    let mut ps: ProbeSet<[f32; 2]> = ProbeSet::new();
    assert!(!ps.show_plot);
    assert_eq!(ps.add([1.0, 2.0]), Some(1));
    assert!(ps.show_plot);
    assert_eq!(ps.add([3.0, 4.0]), Some(2));
    for _ in 2..MAX_PROBES {
        assert!(ps.add([0.0, 0.0]).is_some());
    }
    assert_eq!(ps.probes.len(), MAX_PROBES);
    assert_eq!(ps.add([9.0, 9.0]), None);
    assert_eq!(ps.next_id, MAX_PROBES as u32 + 1);
}

#[test]
fn removing_probes_keeps_order_and_hides_an_empty_plot() {
    let mut ps: ProbeSet<u8> = ProbeSet::new();
    ps.add(10);
    ps.add(20);
    ps.add(30);
    ps.remove(2);
    let ids: Vec<u32> = ps.probes.iter().map(|p| p.id).collect();
    assert_eq!(ids, vec![1, 3]);
    assert_eq!(ps.probes[1].data, 30);
    assert!(ps.show_plot);
    ps.remove(7);
    assert_eq!(ps.probes.len(), 2);
    ps.remove(1);
    ps.remove(3);
    assert!(ps.probes.is_empty());
    assert!(!ps.show_plot);
    // Ids are never reused.
    assert_eq!(ps.add(40), Some(4));
}

#[test]
fn loading_probes_continues_ids_past_the_largest() {
    let mut ps: ProbeSet<u8> = ProbeSet::new();
    ps.load(vec![(5, 1), (2, 2)], ProbeQuantity::Pressure, true);
    assert_eq!(ps.next_id, 6);
    assert_eq!(ps.quantity, ProbeQuantity::Pressure);
    assert!(ps.show_plot);
    assert_eq!(ps.probes[0].id, 5);
    assert_eq!(ps.probes[1].data, 2);
    assert_eq!(ps.add(3), Some(6));
    ps.load(Vec::new(), ProbeQuantity::Speed, false);
    assert_eq!(ps.next_id, 1);
}

#[test]
fn setting_one_edge() {
    let mut e = EdgeBcs::open();
    assert!(e.set_edge(3, EdgeKind::Wall));
    assert_eq!(e, EdgeBcs([EdgeKind::FarField, EdgeKind::FarField, EdgeKind::FarField, EdgeKind::Wall]));
    assert!(!e.set_edge(4, EdgeKind::Inlet));
    assert_eq!(e.0[3], EdgeKind::Wall);
}
