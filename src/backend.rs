//! The stabilizer simulator that carries the physical qubits, and what this
//! library relies on of it.
use vstd::prelude::*;
use lay::{Layer, Measured};
use lay::operations::{opid, OpArgs};
use lay::operations::OpArgs::{Empty, Q, QQ, QS};
use lay_simulator_gk::{BitArray, DefaultRng, GottesmanKnillSimulator};
use crate::ops::PhysOp;

verus! {

/// The Gottesman-Knill stabilizer simulator of lay-simulator-gk, opaque here.
#[verifier::external_type_specification]
#[verifier::external_body]
#[verifier::reject_recursive_types(Rng)]
pub struct ExGottesmanKnillSimulator<Rng>(GottesmanKnillSimulator<Rng>);

/// The simulator's random number generator, opaque here.
#[verifier::external_type_specification]
#[verifier::external_body]
pub struct ExDefaultRng(DefaultRng);

/// The simulator's measurement buffer, opaque here.
#[verifier::external_type_specification]
#[verifier::external_body]
pub struct ExBitArray(BitArray);

/// The simulator used as backend.
pub type Simulator = GottesmanKnillSimulator<DefaultRng>;

/// Number of qubits a simulator was made with.
pub uninterp spec fn sim_qubits(sim: GottesmanKnillSimulator<DefaultRng>) -> nat;

/// The simulator that `from_seed` makes of `n` qubits and seed `seed`.
pub uninterp spec fn seeded_simulator(n: u32, seed: u64) -> GottesmanKnillSimulator<DefaultRng>;

/// The simulator `sim` after it has applied `ops` in order (its random
/// number generator is part of its state).
pub uninterp spec fn after_batch(
    sim: GottesmanKnillSimulator<DefaultRng>,
    ops: Seq<PhysOp>,
) -> GottesmanKnillSimulator<DefaultRng>;

/// The measured bits a simulator holds, one per qubit.
pub uninterp spec fn measured_of(sim: GottesmanKnillSimulator<DefaultRng>) -> Seq<bool>;

/// The bits a measurement buffer holds, by slot.
pub uninterp spec fn bits_of(b: BitArray) -> Seq<bool>;

/// Every qubit and slot that `op` names is below `n`, and a CX has two
/// distinct qubits.
pub open spec fn op_fits(op: PhysOp, n: nat) -> bool {
    match op {
        PhysOp::Init => true,
        PhysOp::X(q) => q < n,
        PhysOp::Y(q) => q < n,
        PhysOp::Z(q) => q < n,
        PhysOp::H(q) => q < n,
        PhysOp::S(q) => q < n,
        PhysOp::Sdg(q) => q < n,
        PhysOp::Cx(c, t) => c < n && t < n && c != t,
        PhysOp::Measure(q, s) => q < n && s < n,
    }
}

pub open spec fn ops_fit(ops: Seq<PhysOp>, n: nat) -> bool {
    forall|k: int| 0 <= k < ops.len() ==> op_fits(#[trigger] ops[k], n)
}

/// Relies on GottesmanKnillSimulator::from_seed: a simulator of `n` qubits,
/// all in |0>, that depends on `n` and `seed` alone.
#[verifier::external_body]
pub(crate) fn new_simulator(n: u32, seed: u64) -> (r: Simulator)
    ensures
        r == seeded_simulator(n, seed),
        sim_qubits(r) == n,
{
    GottesmanKnillSimulator::from_seed(n, seed)
}

/// Relies on GottesmanKnillSimulator::n_qubits: the number of qubits.
#[verifier::external_body]
pub(crate) fn simulator_qubits(sim: &Simulator) -> (r: u32)
    ensures
        r == sim_qubits(*sim),
{
    sim.n_qubits()
}

/// Relies on the simulator's Layer::make_buffer: a zeroed buffer with one
/// bit per qubit.
#[verifier::external_body]
pub(crate) fn make_sim_buffer(sim: &Simulator) -> (r: BitArray)
    ensures
        bits_of(r).len() == sim_qubits(*sim),
        forall|k: int| 0 <= k < bits_of(r).len() ==> !bits_of(r)[k],
{
    sim.make_buffer()
}

/// Relies on the simulator's Layer::send: applies the operations in order,
/// the new state depending on the old one and the operations alone; the
/// number of qubits stays.
#[verifier::external_body]
pub(crate) fn backend_send(sim: &mut Simulator, ops: &Vec<PhysOp>)
    requires
        ops_fit(ops@, sim_qubits(*old(sim))),
    ensures
        *final(sim) == after_batch(*old(sim), ops@),
        sim_qubits(*final(sim)) == sim_qubits(*old(sim)),
{
    let v: Vec<OpArgs<Simulator>> = ops.iter().map(|op| match *op {
        PhysOp::Init => Empty(opid::INIT),
        PhysOp::X(q) => Q(opid::X, q),
        PhysOp::Y(q) => Q(opid::Y, q),
        PhysOp::Z(q) => Q(opid::Z, q),
        PhysOp::H(q) => Q(opid::H, q),
        PhysOp::S(q) => Q(opid::S, q),
        PhysOp::Sdg(q) => Q(opid::SDG, q),
        PhysOp::Cx(c, t) => QQ(opid::CX, c, t),
        PhysOp::Measure(q, s) => QS(opid::MEAS, q, s),
    }).collect();
    sim.send(&v)
}

/// Relies on the simulator's Layer::receive: copies the measured bits, one
/// per qubit, into `buf`; the simulator is left as it was.
#[verifier::external_body]
pub(crate) fn backend_receive(sim: &mut Simulator, buf: &mut BitArray)
    ensures
        *final(sim) == *old(sim),
        bits_of(*final(buf)) == measured_of(*old(sim)),
        bits_of(*final(buf)).len() == sim_qubits(*old(sim)),
{
    sim.receive(buf)
}

/// Relies on Measured::get of BitArray: the bit in slot `s`.
#[verifier::external_body]
pub(crate) fn buffer_get(buf: &BitArray, s: u32) -> (r: bool)
    requires
        s < bits_of(*buf).len(),
    ensures
        r == bits_of(*buf)[s as int],
{
    buf.get(s)
}

/// Relies on Measured::get_range_u8: the bits of slots `start..stop`,
/// little-endian, in one byte.
#[verifier::external_body]
pub(crate) fn buffer_get_range_u8(buf: &BitArray, start: usize, stop: usize) -> (r: u8)
    requires
        start <= stop,
        stop - start <= 8,
        stop <= bits_of(*buf).len(),
        stop <= u32::MAX,
    ensures
        forall|j: u8| #![trigger (r >> j)] j < 8 ==> (((r >> j) & 1u8 == 1u8) == (j < stop - start
            && bits_of(*buf)[start + j])),
{
    buf.get_range_u8(start, stop)
}

} // verus!
