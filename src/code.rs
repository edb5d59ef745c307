//! The Steane code: block layout, gate translation, the syndrome-extraction
//! circuit, the decoding tables and the recovery operations.
use vstd::prelude::*;
use crate::ops::{Gate, PhysOp, gate_on, make_gate_op};

verus! {

/// Physical qubits per logical block.
pub const PHYSQUBIT_PER_LOGQUBIT: u32 = 7;

/// Ancilla qubits shared by all blocks.
pub const MEASURE_ANCILLA_QUBITS: u32 = 6;

/// Number of physical qubits needed for `n` logical qubits.
pub open spec fn physical_count(n: nat) -> nat {
    7 * n + 6
}

pub fn required_physical_qubits(n_logical_qubits: u32) -> (r: u32)
    requires
        physical_count(n_logical_qubits as nat) <= u32::MAX,
    ensures
        r == physical_count(n_logical_qubits as nat),
{
    PHYSQUBIT_PER_LOGQUBIT * n_logical_qubits + MEASURE_ANCILLA_QUBITS
}

/// `g` applied to each of the seven physical qubits of block `q`, in order.
pub open spec fn transversal(g: Gate, q: u32) -> Seq<PhysOp> {
    Seq::new(7, |i: int| gate_on(g, (7 * q + i) as u32))
}

/// `CX(7c+i, 7t+i)` for `i` in `0..7`, in order.
pub open spec fn transversal_cx(c: u32, t: u32) -> Seq<PhysOp> {
    Seq::new(7, |i: int| PhysOp::Cx((7 * c + i) as u32, (7 * t + i) as u32))
}

/// Appends the transversal form of `g` on logical qubit `q`.
pub fn push_transversal(g: Gate, q: u32, ops: &mut Vec<PhysOp>)
    requires
        7 * q + 6 <= u32::MAX,
    ensures
        final(ops)@ == old(ops)@ + transversal(g, q),
{
    let base = q * PHYSQUBIT_PER_LOGQUBIT;
    let ghost start = old(ops)@;
    for i in 0..PHYSQUBIT_PER_LOGQUBIT
        invariant
            base == 7 * q,
            7 * q + 6 <= u32::MAX,
            ops@ == start + transversal(g, q).take(i as int),
    {
        let op = make_gate_op(g, base + i);
        ops.push(op);
        assert(transversal(g, q).take(i + 1) =~= transversal(g, q).take(i as int).push(op));
    }
    assert(transversal(g, q).take(7) =~= transversal(g, q));
}

/// Appends the transversal CX from logical qubit `c` to logical qubit `t`.
pub fn push_transversal_cx(c: u32, t: u32, ops: &mut Vec<PhysOp>)
    requires
        7 * c + 6 <= u32::MAX,
        7 * t + 6 <= u32::MAX,
    ensures
        final(ops)@ == old(ops)@ + transversal_cx(c, t),
{
    let ghost start = old(ops)@;
    for i in 0..PHYSQUBIT_PER_LOGQUBIT
        invariant
            7 * c + 6 <= u32::MAX,
            7 * t + 6 <= u32::MAX,
            ops@ == start + transversal_cx(c, t).take(i as int),
    {
        let op = PhysOp::Cx(c * PHYSQUBIT_PER_LOGQUBIT + i, t * PHYSQUBIT_PER_LOGQUBIT + i);
        ops.push(op);
        assert(transversal_cx(c, t).take(i + 1) =~= transversal_cx(c, t).take(i as int).push(op));
    }
    assert(transversal_cx(c, t).take(7) =~= transversal_cx(c, t));
}

/// CX schedule of the X-stabilizer round: pairs (data offset, ancilla index).
pub open spec fn x_schedule() -> Seq<(u32, u32)> {
    seq![
        (0u32, 0u32), (1, 1), (2, 2),
        (3, 1), (3, 2),
        (4, 0), (4, 2),
        (5, 0), (5, 1), (5, 2),
        (6, 0), (6, 1),
    ]
}

/// CX schedule of the Z-stabilizer round: pairs (data offset, ancilla index).
pub open spec fn z_schedule() -> Seq<(u32, u32)> {
    seq![
        (0u32, 3u32), (0, 5),
        (1, 4), (1, 5),
        (2, 3), (2, 4), (2, 5),
        (3, 3),
        (4, 4),
        (5, 5),
        (6, 3), (6, 4),
    ]
}

/// The CXs of a schedule, from the data qubits of the block at `offset`
/// to the ancillae starting at `m0`.
pub open spec fn cx_round(offset: u32, m0: u32, sched: Seq<(u32, u32)>) -> Seq<PhysOp> {
    Seq::new(sched.len(), |k: int| PhysOp::Cx((offset + sched[k].0) as u32, (m0 + sched[k].1) as u32))
}

/// Measurement of ancilla `j` into slot `j`, for `j` in `0..6`.
pub open spec fn ancilla_measures(m0: u32) -> Seq<PhysOp> {
    Seq::new(6, |j: int| PhysOp::Measure((m0 + j) as u32, j as u32))
}

/// The syndrome-extraction circuit of logical block `i` with ancillae at `m0`.
pub open spec fn syndrome_circuit(i: u32, m0: u32) -> Seq<PhysOp> {
    transversal(Gate::H, i)
        + cx_round((7 * i) as u32, m0, x_schedule())
        + transversal(Gate::H, i)
        + cx_round((7 * i) as u32, m0, z_schedule())
        + ancilla_measures(m0)
}

fn push_x_round(offset: u32, m0: u32, ops: &mut Vec<PhysOp>)
    requires
        offset + 6 <= u32::MAX,
        m0 + 5 <= u32::MAX,
    ensures
        final(ops)@ == old(ops)@ + cx_round(offset, m0, x_schedule()),
{
    ops.push(PhysOp::Cx(offset, m0));
    ops.push(PhysOp::Cx(offset + 1, m0 + 1));
    ops.push(PhysOp::Cx(offset + 2, m0 + 2));
    ops.push(PhysOp::Cx(offset + 3, m0 + 1));
    ops.push(PhysOp::Cx(offset + 3, m0 + 2));
    ops.push(PhysOp::Cx(offset + 4, m0));
    ops.push(PhysOp::Cx(offset + 4, m0 + 2));
    ops.push(PhysOp::Cx(offset + 5, m0));
    ops.push(PhysOp::Cx(offset + 5, m0 + 1));
    ops.push(PhysOp::Cx(offset + 5, m0 + 2));
    ops.push(PhysOp::Cx(offset + 6, m0));
    ops.push(PhysOp::Cx(offset + 6, m0 + 1));
    assert(final(ops)@ =~= old(ops)@ + cx_round(offset, m0, x_schedule()));
}

fn push_z_round(offset: u32, m0: u32, ops: &mut Vec<PhysOp>)
    requires
        offset + 6 <= u32::MAX,
        m0 + 5 <= u32::MAX,
    ensures
        final(ops)@ == old(ops)@ + cx_round(offset, m0, z_schedule()),
{
    ops.push(PhysOp::Cx(offset, m0 + 3));
    ops.push(PhysOp::Cx(offset, m0 + 5));
    ops.push(PhysOp::Cx(offset + 1, m0 + 4));
    ops.push(PhysOp::Cx(offset + 1, m0 + 5));
    ops.push(PhysOp::Cx(offset + 2, m0 + 3));
    ops.push(PhysOp::Cx(offset + 2, m0 + 4));
    ops.push(PhysOp::Cx(offset + 2, m0 + 5));
    ops.push(PhysOp::Cx(offset + 3, m0 + 3));
    ops.push(PhysOp::Cx(offset + 4, m0 + 4));
    ops.push(PhysOp::Cx(offset + 5, m0 + 5));
    ops.push(PhysOp::Cx(offset + 6, m0 + 3));
    ops.push(PhysOp::Cx(offset + 6, m0 + 4));
    assert(final(ops)@ =~= old(ops)@ + cx_round(offset, m0, z_schedule()));
}

/// Appends the syndrome-extraction circuit of logical block `i`.
pub fn push_syndrome_circuit(i: u32, m0: u32, ops: &mut Vec<PhysOp>)
    requires
        7 * i + 6 <= u32::MAX,
        m0 + 5 <= u32::MAX,
    ensures
        final(ops)@ == old(ops)@ + syndrome_circuit(i, m0),
{
    let ghost start = old(ops)@;
    let offset = i * PHYSQUBIT_PER_LOGQUBIT;
    push_transversal(Gate::H, i, ops);
    push_x_round(offset, m0, ops);
    push_transversal(Gate::H, i, ops);
    push_z_round(offset, m0, ops);
    let ghost before = ops@;
    for j in 0..MEASURE_ANCILLA_QUBITS
        invariant
            m0 + 5 <= u32::MAX,
            ops@ == before + ancilla_measures(m0).take(j as int),
    {
        let op = PhysOp::Measure(m0 + j, j);
        ops.push(op);
        assert(ancilla_measures(m0).take(j + 1) =~= ancilla_measures(m0).take(j as int).push(op));
    }
    assert(ancilla_measures(m0).take(6) =~= ancilla_measures(m0));
    assert(ops@ =~= start + syndrome_circuit(i, m0));
}

/// Whether bit `j` of the syndrome word `s` is set.
pub open spec fn syndrome_bit(s: u8, j: u8) -> bool {
    (s >> j) & 1u8 == 1u8
}

/// The X gates that return the ancillae `m0 + j`, `j < k`, whose bit is set to |0>.
pub open spec fn ancilla_resets(s: u8, m0: u32, k: nat) -> Seq<PhysOp>
    decreases k,
{
    if k == 0 {
        Seq::empty()
    } else {
        let j = (k - 1) as nat;
        ancilla_resets(s, m0, j) + if syndrome_bit(s, j as u8) {
            seq![PhysOp::X((m0 + j) as u32)]
        } else {
            Seq::empty()
        }
    }
}

/// The three bits of the X-stabilizer round (they locate a Z error).
pub open spec fn x_part(s: u8) -> u8 {
    s & 7u8
}

/// The three bits of the Z-stabilizer round (they locate an X error).
pub open spec fn z_part(s: u8) -> u8 {
    (s >> 3u8) & 7u8
}

/// Block offset of the qubit whose Z error gives the nonzero X-round syndrome `k`.
pub open spec fn err_x(k: u8) -> u32 {
    if k == 1 { 0 }
    else if k == 2 { 1 }
    else if k == 3 { 6 }
    else if k == 4 { 2 }
    else if k == 5 { 4 }
    else if k == 6 { 3 }
    else { 5 }
}

/// Block offset of the qubit whose X error gives the nonzero Z-round syndrome `k`.
pub open spec fn err_z(k: u8) -> u32 {
    if k == 1 { 3 }
    else if k == 2 { 4 }
    else if k == 3 { 6 }
    else if k == 4 { 5 }
    else if k == 5 { 0 }
    else if k == 6 { 1 }
    else { 2 }
}

/// The data corrections for syndrome `s` on the block at `offset`:
/// a Z where the X round points, then an X where the Z round points.
pub open spec fn corrections(s: u8, offset: u32) -> Seq<PhysOp> {
    (if x_part(s) != 0 {
        seq![PhysOp::Z((offset + err_x(x_part(s))) as u32)]
    } else {
        Seq::empty()
    }) + (if z_part(s) != 0 {
        seq![PhysOp::X((offset + err_z(z_part(s))) as u32)]
    } else {
        Seq::empty()
    })
}

/// Everything the recovery step emits for block `i` after reading syndrome `s`.
pub open spec fn recovery(s: u8, i: u32, m0: u32) -> Seq<PhysOp> {
    ancilla_resets(s, m0, 6) + corrections(s, (7 * i) as u32)
}

pub(crate) fn err_table_x(k: u8) -> (r: u32)
    requires
        1 <= k < 8,
    ensures
        r == err_x(k),
        r < 7,
{
    match k {
        1 => 0,
        2 => 1,
        3 => 6,
        4 => 2,
        5 => 4,
        6 => 3,
        _ => 5,
    }
}

pub(crate) fn err_table_z(k: u8) -> (r: u32)
    requires
        1 <= k < 8,
    ensures
        r == err_z(k),
        r < 7,
{
    match k {
        1 => 3,
        2 => 4,
        3 => 6,
        4 => 5,
        5 => 0,
        6 => 1,
        _ => 2,
    }
}

/// Appends the recovery of block `i` for the syndrome word `s`: ancilla
/// resets, then the data corrections.
pub fn push_recovery(i: u32, m0: u32, s: u8, ops: &mut Vec<PhysOp>)
    requires
        7 * i + 6 <= u32::MAX,
        m0 + 5 <= u32::MAX,
    ensures
        final(ops)@ == old(ops)@ + recovery(s, i, m0),
{
    let ghost start = old(ops)@;
    for j in 0..6u8
        invariant
            m0 + 5 <= u32::MAX,
            ops@ == start + ancilla_resets(s, m0, j as nat),
    {
        if (s >> j) & 1 == 1 {
            ops.push(PhysOp::X(m0 + j as u32));
        }
        assert(ops@ =~= start + ancilla_resets(s, m0, (j + 1) as nat));
    }
    let ghost mid = ops@;
    let offset = i * PHYSQUBIT_PER_LOGQUBIT;
    let sx = s & 7;
    assert(sx < 8) by (bit_vector)
        requires sx == s & 7u8;
    if sx != 0 {
        let e = err_table_x(sx);
        ops.push(PhysOp::Z(offset + e));
    }
    let sz = (s >> 3) & 7;
    assert(sz < 8) by (bit_vector)
        requires sz == (s >> 3u8) & 7u8;
    if sz != 0 {
        let e = err_table_z(sz);
        ops.push(PhysOp::X(offset + e));
    }
    assert(ops@ =~= mid + corrections(s, offset));
    assert(ops@ =~= start + recovery(s, i, m0));
}

/// Parity fan-in of the seven data qubits of block `q` into ancilla `m0`,
/// then measurement of `m0` into slot 0.
pub open spec fn measure_circuit(q: u32, m0: u32) -> Seq<PhysOp> {
    Seq::new(7, |i: int| PhysOp::Cx((7 * q + i) as u32, m0)).push(PhysOp::Measure(m0, 0))
}

/// Appends the encoded measurement circuit of logical qubit `q`.
pub fn push_measure_circuit(q: u32, m0: u32, ops: &mut Vec<PhysOp>)
    requires
        7 * q + 6 <= u32::MAX,
    ensures
        final(ops)@ == old(ops)@ + measure_circuit(q, m0),
{
    let ghost start = old(ops)@;
    let ghost fanin = Seq::new(7, |i: int| PhysOp::Cx((7 * q + i) as u32, m0));
    for i in 0..PHYSQUBIT_PER_LOGQUBIT
        invariant
            7 * q + 6 <= u32::MAX,
            fanin == Seq::new(7, |i: int| PhysOp::Cx((7 * q + i) as u32, m0)),
            ops@ == start + fanin.take(i as int),
    {
        let op = PhysOp::Cx(q * PHYSQUBIT_PER_LOGQUBIT + i, m0);
        ops.push(op);
        assert(fanin.take(i + 1) =~= fanin.take(i as int).push(op));
    }
    assert(fanin.take(7) =~= fanin);
    ops.push(PhysOp::Measure(m0, 0));
    assert(ops@ =~= start + measure_circuit(q, m0));
}

/// Every pair of both schedules names a data offset below 7 and an ancilla below 6.
pub proof fn lemma_schedules_in_range()
    ensures
        x_schedule().len() == 12,
        z_schedule().len() == 12,
        forall|k: int| 0 <= k < 12 ==> (#[trigger] x_schedule()[k]).0 < 7 && x_schedule()[k].1 < 6,
        forall|k: int| 0 <= k < 12 ==> (#[trigger] z_schedule()[k]).0 < 7 && z_schedule()[k].1 < 6,
{
}

} // verus!
