use flowpaint::settings::{
    edge_kind_from_u32, edge_kind_to_u32, mirror_flag, render_flags, solver_title, unit_system_from_mirror,
    unit_system_from_pref, unit_system_pref_str, ColorMap, EdgeBcs, EdgeKind, ProbeQuantity, RangeMode, RenderMode,
    SolverMode, UnitSystem,
};

#[test]
fn reserved_and_unknown_edge_kinds_decode_safely() {
    assert_eq!(edge_kind_from_u32(4), EdgeKind::Periodic);
    assert_eq!(edge_kind_from_u32(99), EdgeKind::FarField);
    // Reserved discriminant survives a save round-trip unchanged.
    assert_eq!(edge_kind_to_u32(edge_kind_from_u32(4)), 4);
}

#[test]
fn unit_pref_strings_round_trip_and_reject_unknown() {
    for s in [UnitSystem::Si, UnitSystem::DecimalInch] {
        assert_eq!(unit_system_from_pref(unit_system_pref_str(s)), Some(s));
    }
    assert_eq!(unit_system_pref_str(UnitSystem::Si), "si");
    assert_eq!(unit_system_pref_str(UnitSystem::DecimalInch), "inch");
    assert_eq!(unit_system_from_pref("feet"), None);
    assert_eq!(unit_system_from_pref(""), None);
}

#[test]
fn pre_v9_edges_derive_from_wind_tunnel() {
    for (tunnel, expect) in [(true, EdgeBcs::wind_tunnel()), (false, EdgeBcs::open())] {
        // What an older scene's edge codes convert to, read back.
        let codes = EdgeBcs::legacy(tunnel).to_codes();
        assert_eq!(EdgeBcs::from_codes(codes), expect);
    }
}

#[test]
fn unit_pref_rejects_near_misses() {
    assert_eq!(unit_system_from_pref("SI"), None);
    assert_eq!(unit_system_from_pref("inches"), None);
    assert_eq!(unit_system_from_pref("s"), None);
    assert_eq!(unit_system_from_pref("inc"), None);
}

#[test]
fn unit_mirror_flag_round_trips() {
    assert!(!mirror_flag(UnitSystem::Si));
    assert!(mirror_flag(UnitSystem::DecimalInch));
    for s in [UnitSystem::Si, UnitSystem::DecimalInch] {
        assert_eq!(unit_system_from_mirror(mirror_flag(s)), s);
    }
}

#[test]
fn edge_codes_round_trip_for_every_kind() {
    let all = [EdgeKind::FarField, EdgeKind::Inlet, EdgeKind::Outlet, EdgeKind::Wall, EdgeKind::Periodic];
    for (code, k) in all.iter().enumerate() {
        assert_eq!(edge_kind_to_u32(*k), code as u32);
        assert_eq!(edge_kind_from_u32(code as u32), *k);
    }
    assert_eq!(edge_kind_from_u32(5), EdgeKind::FarField);
    assert_eq!(edge_kind_from_u32(u32::MAX), EdgeKind::FarField);
}

#[test]
fn edge_sets_encode_and_recognize_the_tunnel() {
    assert_eq!(EdgeBcs::wind_tunnel().to_codes(), [1, 2, 0, 0]);
    assert_eq!(EdgeBcs::open().to_codes(), [0, 0, 0, 0]);
    assert!(EdgeBcs::wind_tunnel().is_tunnel_preset());
    assert!(!EdgeBcs::open().is_tunnel_preset());
    assert!(!EdgeBcs([EdgeKind::Inlet, EdgeKind::Outlet, EdgeKind::Wall, EdgeKind::FarField]).is_tunnel_preset());
    let decoded = EdgeBcs::from_codes([3, 7, 4, 1]);
    assert_eq!(decoded, EdgeBcs([EdgeKind::Wall, EdgeKind::FarField, EdgeKind::Periodic, EdgeKind::Inlet]));
}

#[test]
fn solver_and_range_codes() {
    assert_eq!(SolverMode::Lbm.to_u32(), 0);
    assert_eq!(SolverMode::Euler.to_u32(), 1);
    assert_eq!(SolverMode::from_u32(1), SolverMode::Euler);
    assert_eq!(SolverMode::from_u32(0), SolverMode::Lbm);
    assert_eq!(SolverMode::from_u32(7), SolverMode::Lbm);
    assert_eq!(RangeMode::from_u32(0), RangeMode::Auto);
    assert_eq!(RangeMode::from_u32(1), RangeMode::Locked);
    assert_eq!(RangeMode::from_u32(2), RangeMode::Manual);
    assert_eq!(RangeMode::from_u32(3), RangeMode::Auto);
    for m in [RangeMode::Auto, RangeMode::Locked, RangeMode::Manual] {
        assert_eq!(RangeMode::from_u32(m.to_u32()), m);
    }
    assert_eq!(ColorMap::from_u32(1), ColorMap::Coolwarm);
    assert_eq!(ColorMap::from_u32(2), ColorMap::Inferno);
    assert_eq!(ColorMap::Coolwarm.to_u32(), 1);
    assert_eq!(ColorMap::Inferno.to_u32(), 0);
}

#[test]
fn labels_and_titles() {
    assert_eq!(ProbeQuantity::Speed.label(), "Speed");
    assert_eq!(ProbeQuantity::Smoke.label(), "Smoke");
    assert_eq!(RenderMode::Dye.label(), "Smoke");
    assert_eq!(RenderMode::Pressure.label(), "Pressure");
    assert_eq!(solver_title(SolverMode::Lbm), "FlowPaint — LBM (incompressible)");
    assert_eq!(solver_title(SolverMode::Euler), "FlowPaint — Euler (compressible)");
}

#[test]
fn probe_quantity_indices_clamp() {
    for (i, q) in ProbeQuantity::ALL.iter().enumerate() {
        assert_eq!(q.index(), i as u32);
        assert_eq!(ProbeQuantity::from_index(i as u32), *q);
    }
    assert_eq!(ProbeQuantity::from_index(9), ProbeQuantity::Smoke);
    for (i, m) in RenderMode::ALL.iter().enumerate() {
        assert_eq!(m.index(), i);
    }
}

#[test]
fn colormap_defaults_and_render_flags() {
    assert_eq!(ColorMap::default_for(RenderMode::Dye), ColorMap::Inferno);
    assert_eq!(ColorMap::default_for(RenderMode::Speed), ColorMap::Inferno);
    assert_eq!(ColorMap::default_for(RenderMode::Vorticity), ColorMap::Coolwarm);
    assert_eq!(ColorMap::default_for(RenderMode::Pressure), ColorMap::Coolwarm);
    assert_eq!(render_flags(false, RenderMode::Speed, ColorMap::Inferno), 0);
    assert_eq!(render_flags(true, RenderMode::Speed, ColorMap::Inferno), 1);
    assert_eq!(render_flags(false, RenderMode::Speed, ColorMap::Coolwarm), 2);
    assert_eq!(render_flags(true, RenderMode::Pressure, ColorMap::Inferno), 3);
}
