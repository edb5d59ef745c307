use lay_steane::{LogicalOps, PhysOp, SteaneLayer, SyndromeReport, Syndrome};

fn last_round(steane: &SteaneLayer, n: usize) -> Vec<SyndromeReport> {
    let r = steane.reports();
    r[r.len() - n..].to_vec()
}

fn assert_clean(reports: &[SyndromeReport]) {
    for (i, r) in reports.iter().enumerate() {
        assert_eq!(r.block, i as u32);
        assert_eq!(r.syndrome, 0);
        assert_eq!(r.z_correction, None);
        assert_eq!(r.x_correction, None);
    }
}

fn init(steane: &mut SteaneLayer) {
    let mut ops = LogicalOps::new();
    ops.initialize();
    steane.send(ops.as_slice());
}

fn syndrome_round(steane: &mut SteaneLayer) -> Vec<SyndromeReport> {
    let mut ops = LogicalOps::new();
    ops.syndrome();
    steane.send(ops.as_slice());
    let n = steane.n_logical_qubits() as usize;
    assert_eq!(steane.reports().len(), n);
    last_round(steane, n)
}

#[test]
fn init_then_round_is_clean() {
    let mut steane = SteaneLayer::from_seed_with_gk(16, 1);
    init(&mut steane);
    assert_eq!(steane.reports().len(), 16);
    let reports = syndrome_round(&mut steane);
    assert_clean(&reports);
}

#[test]
fn clean_logical_x() {
    let mut steane = SteaneLayer::from_seed_with_gk(16, 1);
    let mut ops = LogicalOps::new();
    ops.initialize();
    ops.x(0);
    ops.syndrome();
    steane.send(ops.as_slice());
    assert_eq!(steane.reports().len(), 32);
    assert_clean(&last_round(&steane, 16));
}

#[test]
fn injected_x_on_qubit_12() {
    let mut steane = SteaneLayer::from_seed_with_gk(16, 1);
    init(&mut steane);
    assert!(steane.send_physical(&vec![PhysOp::X(12)]));
    let reports = syndrome_round(&mut steane);
    for r in reports.iter() {
        if r.block == 1 {
            assert_eq!(r.x_correction, Some(12));
            assert_eq!(r.z_correction, None);
            assert_ne!(r.syndrome, 0);
        } else {
            assert_eq!(r.syndrome, 0);
        }
    }
    assert_clean(&syndrome_round(&mut steane));
}

#[test]
fn injected_z_on_qubit_8() {
    let mut steane = SteaneLayer::from_seed_with_gk(16, 1);
    init(&mut steane);
    assert_clean(&syndrome_round(&mut steane));
    assert!(steane.send_physical(&vec![PhysOp::Z(8)]));
    let reports = syndrome_round(&mut steane);
    for r in reports.iter() {
        if r.block == 1 {
            assert_eq!(r.z_correction, Some(8));
            assert_eq!(r.x_correction, None);
        } else {
            assert_eq!(r.syndrome, 0);
        }
    }
    assert_clean(&syndrome_round(&mut steane));
}

#[test]
fn every_single_error_is_corrected() {
    let mut steane = SteaneLayer::from_seed_with_gk(2, 7);
    let mut ops = LogicalOps::new();
    ops.initialize();
    ops.x(1);
    steane.send(ops.as_slice());
    for p in 0..14u32 {
        for kind in 0..3 {
            let err = match kind {
                0 => PhysOp::X(p),
                1 => PhysOp::Y(p),
                _ => PhysOp::Z(p),
            };
            assert!(steane.send_physical(&vec![err]));
            let reports = syndrome_round(&mut steane);
            let r = reports[(p / 7) as usize];
            let want_x = if kind != 2 { Some(p) } else { None };
            let want_z = if kind != 0 { Some(p) } else { None };
            assert_eq!(r.x_correction, want_x);
            assert_eq!(r.z_correction, want_z);
            assert_eq!(reports[1 - (p / 7) as usize].syndrome, 0);
            assert_clean(&syndrome_round(&mut steane));
        }
    }
    let mut buf = steane.make_buffer();
    let mut ops = LogicalOps::new();
    ops.measure(0, 0);
    ops.measure(1, 1);
    steane.send_receive(ops.as_slice(), &mut buf);
    assert_eq!(buf.get(0), false);
    assert_eq!(buf.get(1), true);
}

#[test]
fn bell_pair_with_sixteen_qubits() {
    let mut steane = SteaneLayer::from_seed_with_gk(16, 1);
    let mut ops = LogicalOps::new();
    let mut buf = steane.make_buffer();
    ops.initialize();
    ops.h(1);
    ops.cx(1, 0);
    ops.measure(0, 0);
    ops.measure(1, 1);
    for _ in 0..10 {
        steane.send_receive(ops.as_slice(), &mut buf);
        assert_eq!(buf.get(0), buf.get(1));
    }
}

#[test]
fn ghz_with_sixteen_qubits() {
    let mut steane = SteaneLayer::from_seed_with_gk(16, 1);
    let mut ops = LogicalOps::new();
    let mut buf = steane.make_buffer();
    ops.initialize();
    ops.h(1);
    ops.cx(1, 0);
    ops.cx(1, 2);
    ops.measure(0, 0);
    ops.measure(1, 1);
    ops.measure(2, 2);
    for _ in 0..10 {
        steane.send_receive(ops.as_slice(), &mut buf);
        assert_eq!(buf.get(0), buf.get(1));
        assert_eq!(buf.get(0), buf.get(2));
    }
}

#[test]
fn clifford_then_inverse_keeps_measurement() {
    let mut steane = SteaneLayer::from_seed_with_gk(2, 3);
    let mut buf = steane.make_buffer();
    let mut ops = LogicalOps::new();
    ops.initialize();
    ops.x(1);
    ops.h(0);
    ops.h(0);
    ops.s(1);
    ops.sdg(1);
    ops.y(0);
    ops.y(0);
    ops.z(1);
    ops.z(1);
    ops.sdg(0);
    ops.s(0);
    ops.measure(0, 0);
    ops.measure(1, 1);
    steane.send_receive(ops.as_slice(), &mut buf);
    assert_eq!(buf.get(0), false);
    assert_eq!(buf.get(1), true);
}

#[test]
fn cx_then_x_matches_x_then_cx_then_x() {
    let mut a = SteaneLayer::from_seed_with_gk(2, 5);
    let mut b = SteaneLayer::from_seed_with_gk(2, 5);
    let mut buf_a = a.make_buffer();
    let mut buf_b = b.make_buffer();
    let mut ops_a = LogicalOps::new();
    ops_a.initialize();
    ops_a.cx(0, 1);
    ops_a.x(0);
    ops_a.measure(0, 0);
    ops_a.measure(1, 1);
    let mut ops_b = LogicalOps::new();
    ops_b.initialize();
    ops_b.x(0);
    ops_b.cx(0, 1);
    ops_b.x(1);
    ops_b.measure(0, 0);
    ops_b.measure(1, 1);
    a.send_receive(ops_a.as_slice(), &mut buf_a);
    b.send_receive(ops_b.as_slice(), &mut buf_b);
    assert_eq!(buf_a.get(0), true);
    assert_eq!(buf_a.get(1), false);
    assert_eq!(buf_b.get(0), buf_a.get(0));
    assert_eq!(buf_b.get(1), buf_a.get(1));
}

#[test]
fn receive_swaps_buffers() {
    let mut steane = SteaneLayer::from_seed_with_gk(2, 1);
    let mut buf = steane.make_buffer();
    let mut ops = LogicalOps::new();
    ops.initialize();
    ops.x(0);
    ops.measure(0, 0);
    steane.send_receive(ops.as_slice(), &mut buf);
    assert_eq!(buf.len(), 2);
    assert_eq!(buf.get(0), true);
    assert_eq!(buf.get(1), false);
    // the layer now holds the zeroed buffer it was given
    let mut next = steane.make_buffer();
    steane.receive(&mut next);
    assert_eq!(next.get(0), false);
}

#[test]
fn receive_keeps_a_zeroed_buffer() {
    let mut steane = SteaneLayer::from_seed_with_gk(2, 1);
    let mut ops = LogicalOps::new();
    ops.initialize();
    ops.x(0);
    ops.x(1);
    ops.measure(0, 0);
    ops.measure(1, 1);
    let mut buf = steane.make_buffer();
    steane.send_receive(ops.as_slice(), &mut buf);
    assert!(buf.get(0) && buf.get(1));
    // hand back the stale buffer; a frame that measures nothing delivers zeros
    steane.receive(&mut buf);
    assert!(!buf.get(0) && !buf.get(1));
    let mut none = LogicalOps::new();
    none.syndrome();
    steane.send_receive(none.as_slice(), &mut buf);
    assert!(!buf.get(0) && !buf.get(1));
}

#[test]
fn same_seed_same_outcomes() {
    let mut a = SteaneLayer::from_seed_with_gk(2, 9);
    let mut b = SteaneLayer::from_seed_with_gk(2, 9);
    let mut ops = LogicalOps::new();
    ops.initialize();
    ops.h(0);
    ops.measure(0, 0);
    for _ in 0..5 {
        let mut ba = a.make_buffer();
        let mut bb = b.make_buffer();
        a.send_receive(ops.as_slice(), &mut ba);
        b.send_receive(ops.as_slice(), &mut bb);
        assert_eq!(ba.get(0), bb.get(0));
        assert_eq!(a.reports(), b.reports());
    }
}
