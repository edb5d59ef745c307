use lay_simulator_gk::GottesmanKnillSimulator;
use lay_steane::{
    push_recovery, push_syndrome_circuit, required_physical_qubits, PhysOp, SteaneLayer,
};

#[test]
fn physical_qubit_count() {
    assert_eq!(required_physical_qubits(0), 6);
    assert_eq!(required_physical_qubits(16), 118);
    assert_eq!(required_physical_qubits(613_566_755), 4_294_967_291);
}

#[test]
fn syndrome_circuit_of_block_one() {
    let mut ops = vec![PhysOp::Init];
    push_syndrome_circuit(1, 14, &mut ops);
    assert_eq!(ops.len(), 1 + 7 + 12 + 7 + 12 + 6);
    assert_eq!(ops[1], PhysOp::H(7));
    assert_eq!(ops[7], PhysOp::H(13));
    assert_eq!(ops[8], PhysOp::Cx(7, 14));
    assert_eq!(ops[11], PhysOp::Cx(10, 15));
    assert_eq!(ops[19], PhysOp::Cx(13, 15));
    assert_eq!(ops[20], PhysOp::H(7));
    assert_eq!(ops[27], PhysOp::Cx(7, 17));
    assert_eq!(ops[28], PhysOp::Cx(7, 19));
    assert_eq!(ops[38], PhysOp::Cx(13, 18));
    assert_eq!(ops[39], PhysOp::Measure(14, 0));
    assert_eq!(ops[44], PhysOp::Measure(19, 5));
}

#[test]
fn recovery_for_zero_syndrome_is_empty() {
    let mut ops = Vec::new();
    push_recovery(3, 28, 0, &mut ops);
    assert!(ops.is_empty());
}

#[test]
fn recovery_resets_ancillas_and_corrects() {
    // X-round bits 0b011 (Z error on offset 6), Z-round bits 0b101 (X error on offset 0)
    let mut ops = Vec::new();
    push_recovery(2, 21, 0b101_011, &mut ops);
    assert_eq!(
        ops,
        vec![
            PhysOp::X(21),
            PhysOp::X(22),
            PhysOp::X(24),
            PhysOp::X(26),
            PhysOp::Z(14 + 6),
            PhysOp::X(14),
        ]
    );
}

#[test]
fn recovery_table_entries() {
    let err_x = [0u32, 1, 6, 2, 4, 3, 5];
    let err_z = [3u32, 4, 6, 5, 0, 1, 2];
    for k in 1..8u8 {
        let mut ops = Vec::new();
        push_recovery(0, 7, k, &mut ops);
        assert_eq!(*ops.last().unwrap(), PhysOp::Z(err_x[(k - 1) as usize]));
        let mut ops = Vec::new();
        push_recovery(0, 7, k << 3, &mut ops);
        assert_eq!(*ops.last().unwrap(), PhysOp::X(err_z[(k - 1) as usize]));
    }
}

#[test]
fn instance_too_small_is_refused() {
    let sim = GottesmanKnillSimulator::from_seed(12, 1);
    assert!(SteaneLayer::from_instance(sim, 1).is_none());
    let sim = GottesmanKnillSimulator::from_seed(13, 1);
    let layer = SteaneLayer::from_instance(sim, 1).unwrap();
    assert_eq!(layer.n_logical_qubits(), 1);
    let sim = GottesmanKnillSimulator::from_seed(20, 1);
    assert!(SteaneLayer::from_instance(sim, u32::MAX).is_none());
}

#[test]
fn injection_out_of_range_is_refused() {
    let mut steane = SteaneLayer::from_seed_with_gk(1, 1);
    assert!(!steane.send_physical(&vec![PhysOp::X(13)]));
    assert!(!steane.send_physical(&vec![PhysOp::Cx(0, 13)]));
    assert!(!steane.send_physical(&vec![PhysOp::Measure(0, 13)]));
    assert!(!steane.send_physical(&vec![PhysOp::Cx(0, 0), PhysOp::Measure(1, 0)]));
    assert!(steane.send_physical(&vec![PhysOp::X(12), PhysOp::X(12)]));
}

#[test]
fn fresh_buffer_is_zeroed() {
    let steane = SteaneLayer::from_seed_with_gk(5, 1);
    let buf = steane.make_buffer();
    assert_eq!(buf.len(), 5);
    for s in 0..5 {
        assert_eq!(buf.get(s), false);
    }
}
