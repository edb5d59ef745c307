//! Logical and physical operation streams.
use vstd::prelude::*;

verus! {

/// A single-qubit Clifford gate.
#[derive(Clone, Copy, Debug, PartialEq, Eq)]
pub enum Gate {
    X,
    Y,
    Z,
    H,
    S,
    Sdg,
}

/// An operation on the physical qubits of the backend.
#[derive(Clone, Copy, Debug, PartialEq, Eq)]
pub enum PhysOp {
    Init,
    X(u32),
    Y(u32),
    Z(u32),
    H(u32),
    S(u32),
    Sdg(u32),
    Cx(u32, u32),
    /// Measure a qubit into a classical slot.
    Measure(u32, u32),
}

/// An operation on the logical qubits of the layer.
#[derive(Clone, Copy, Debug, PartialEq, Eq)]
pub enum LogicalOp {
    /// Reset every qubit, then run one syndrome round.
    Init,
    /// Run one syndrome-extraction and recovery round on every block.
    UserSyndrome,
    Gate(Gate, u32),
    Cx(u32, u32),
    /// Measure a logical qubit into a logical slot.
    Meas(u32, u32),
}

/// The physical operation that applies `g` to physical qubit `q`.
pub open spec fn gate_on(g: Gate, q: u32) -> PhysOp {
    match g {
        Gate::X => PhysOp::X(q),
        Gate::Y => PhysOp::Y(q),
        Gate::Z => PhysOp::Z(q),
        Gate::H => PhysOp::H(q),
        Gate::S => PhysOp::S(q),
        Gate::Sdg => PhysOp::Sdg(q),
    }
}

/// The inverse of a single-qubit Clifford gate.
pub open spec fn inverse_gate(g: Gate) -> Gate {
    match g {
        Gate::S => Gate::Sdg,
        Gate::Sdg => Gate::S,
        _ => g,
    }
}

pub fn make_gate_op(g: Gate, q: u32) -> (r: PhysOp)
    ensures
        r == gate_on(g, q),
{
    match g {
        Gate::X => PhysOp::X(q),
        Gate::Y => PhysOp::Y(q),
        Gate::Z => PhysOp::Z(q),
        Gate::H => PhysOp::H(q),
        Gate::S => PhysOp::S(q),
        Gate::Sdg => PhysOp::Sdg(q),
    }
}

/// An append-only buffer of logical operations, cleared between frames.
pub struct LogicalOps {
    inner: Vec<LogicalOp>,
}

impl View for LogicalOps {
    type V = Seq<LogicalOp>;

    closed spec fn view(&self) -> Seq<LogicalOp> {
        self.inner@
    }
}

impl LogicalOps {
    pub fn new() -> (r: Self)
        ensures
            r@ == Seq::<LogicalOp>::empty(),
    {
        LogicalOps { inner: Vec::new() }
    }

    pub fn push(&mut self, op: LogicalOp)
        ensures
            final(self)@ == old(self)@.push(op),
    {
        self.inner.push(op);
    }

    pub fn initialize(&mut self)
        ensures
            final(self)@ == old(self)@.push(LogicalOp::Init),
    {
        self.push(LogicalOp::Init);
    }

    pub fn x(&mut self, q: u32)
        ensures
            final(self)@ == old(self)@.push(LogicalOp::Gate(Gate::X, q)),
    {
        self.push(LogicalOp::Gate(Gate::X, q));
    }

    pub fn y(&mut self, q: u32)
        ensures
            final(self)@ == old(self)@.push(LogicalOp::Gate(Gate::Y, q)),
    {
        self.push(LogicalOp::Gate(Gate::Y, q));
    }

    pub fn z(&mut self, q: u32)
        ensures
            final(self)@ == old(self)@.push(LogicalOp::Gate(Gate::Z, q)),
    {
        self.push(LogicalOp::Gate(Gate::Z, q));
    }

    pub fn h(&mut self, q: u32)
        ensures
            final(self)@ == old(self)@.push(LogicalOp::Gate(Gate::H, q)),
    {
        self.push(LogicalOp::Gate(Gate::H, q));
    }

    pub fn s(&mut self, q: u32)
        ensures
            final(self)@ == old(self)@.push(LogicalOp::Gate(Gate::S, q)),
    {
        self.push(LogicalOp::Gate(Gate::S, q));
    }

    pub fn sdg(&mut self, q: u32)
        ensures
            final(self)@ == old(self)@.push(LogicalOp::Gate(Gate::Sdg, q)),
    {
        self.push(LogicalOp::Gate(Gate::Sdg, q));
    }

    pub fn cx(&mut self, c: u32, t: u32)
        ensures
            final(self)@ == old(self)@.push(LogicalOp::Cx(c, t)),
    {
        self.push(LogicalOp::Cx(c, t));
    }

    pub fn measure(&mut self, q: u32, slot: u32)
        ensures
            final(self)@ == old(self)@.push(LogicalOp::Meas(q, slot)),
    {
        self.push(LogicalOp::Meas(q, slot));
    }

    pub fn clear(&mut self)
        ensures
            final(self)@ == Seq::<LogicalOp>::empty(),
    {
        self.inner.clear();
    }

    pub fn len(&self) -> (r: usize)
        ensures
            r == self@.len(),
    {
        self.inner.len()
    }

    pub fn as_slice(&self) -> (r: &[LogicalOp])
        ensures
            r@ == self@,
    {
        self.inner.as_slice()
    }
}

/// Operation buffers that can hold a syndrome-extraction round.
pub trait Syndrome {
    /// Appends one syndrome-extraction and recovery round.
    fn syndrome(&mut self);
}

impl Syndrome for LogicalOps {
    fn syndrome(&mut self)
        ensures
            final(self)@ == old(self)@.push(LogicalOp::UserSyndrome),
    {
        self.push(LogicalOp::UserSyndrome);
    }
}

} // verus!
