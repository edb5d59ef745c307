use lay_steane::{LogicalOps, SteaneLayer, Syndrome};

#[test]
fn initialize() {
    let mut steane = SteaneLayer::from_seed_with_gk(16, 1);
    let mut ops = LogicalOps::new();
    ops.initialize();
    steane.send(ops.as_slice());
}

#[test]
fn initialize_and_measure() {
    let mut steane = SteaneLayer::from_seed_with_gk(16, 1);
    let mut ops = steane.opsvec();
    let mut buf = steane.make_buffer();
    ops.initialize();
    ops.x(1);
    ops.measure(0, 0);
    ops.measure(1, 1);
    steane.send_receive(ops.as_slice(), &mut buf);
    assert_eq!(buf.get(0), false);
    assert_eq!(buf.get(1), true);
}

#[test]
fn cx() {
    let mut steane = SteaneLayer::from_seed_with_gk(4, 4);
    let mut ops = steane.opsvec();
    let mut buf = steane.make_buffer();
    ops.initialize();
    ops.x(1);
    ops.cx(1, 0);
    ops.measure(0, 0);
    for _i in 0..10 {
        steane.send_receive(ops.as_slice(), &mut buf);
        assert!(buf.get(0));
    }
}

#[test]
fn bell() {
    let mut steane = SteaneLayer::from_seed_with_gk(4, 4);
    let mut ops = steane.opsvec();
    let mut buf = steane.make_buffer();
    ops.initialize();
    ops.h(1);
    ops.cx(1, 0);
    ops.measure(0, 0);
    ops.measure(1, 1);
    for i in 0..10 {
        steane.send_receive(ops.as_slice(), &mut buf);
        println!("try: {}, |{}{}>", i, buf.get(0) as u8, buf.get(1) as u8);
        assert_eq!(buf.get(0), buf.get(1));
    }
}

#[test]
fn ghz() {
    let mut steane = SteaneLayer::from_seed_with_gk(4, 4);
    let mut ops = steane.opsvec();
    let mut buf = steane.make_buffer();
    ops.initialize();
    ops.h(1);
    ops.cx(1, 0);
    ops.cx(1, 2);
    ops.measure(0, 0);
    ops.measure(1, 1);
    ops.measure(2, 2);
    for i in 0..10 {
        steane.send_receive(ops.as_slice(), &mut buf);
        let m0 = buf.get(0);
        let m1 = buf.get(1);
        let m2 = buf.get(2);
        println!("try: {}, |{}{}{}>", i, m0 as u8, m1 as u8, m2 as u8);
        assert_eq!(m0, m1);
        assert_eq!(m0, m2);
    }
}

#[test]
fn syndrome_op_is_appended() {
    let mut ops = LogicalOps::new();
    ops.x(0);
    ops.syndrome();
    assert_eq!(ops.len(), 2);
    assert_eq!(ops.as_slice()[1], lay_steane::LogicalOp::UserSyndrome);
}
