//! The error-correcting layer: it translates logical operation frames into
//! physical batches for the simulator, runs syndrome rounds and encoded
//! measurements, and delivers the logical measurement buffer.
use vstd::prelude::*;
use lay_simulator_gk::BitArray;
use crate::ops::{Gate, LogicalOp, LogicalOps, PhysOp, gate_on};
use crate::code::{
    PHYSQUBIT_PER_LOGQUBIT, MEASURE_ANCILLA_QUBITS, physical_count, required_physical_qubits,
    transversal, transversal_cx, push_transversal, push_transversal_cx, x_schedule, z_schedule,
    cx_round, ancilla_measures, syndrome_circuit, push_syndrome_circuit,
    lemma_schedules_in_range, syndrome_bit, ancilla_resets, x_part, z_part, err_x, err_z,
    err_table_x, err_table_z, corrections, recovery, push_recovery, measure_circuit,
    push_measure_circuit,
};
use crate::backend::{
    Simulator, sim_qubits, bits_of, seeded_simulator, after_batch, measured_of, op_fits, ops_fit, new_simulator, simulator_qubits,
    make_sim_buffer, backend_send, backend_receive, buffer_get, buffer_get_range_u8,
};

verus! {

/// What one syndrome round found on one block, and the corrections it applied.
#[derive(Clone, Copy, Debug, PartialEq, Eq)]
pub struct SyndromeReport {
    pub block: u32,
    /// The six ancilla bits, bit `j` from ancilla `j`.
    pub syndrome: u8,
    /// Physical qubit that received a Z correction, if any.
    pub z_correction: Option<u32>,
    /// Physical qubit that received an X correction, if any.
    pub x_correction: Option<u32>,
}

/// The report of block `i` for syndrome word `s`.
pub open spec fn report_for(i: u32, s: u8) -> SyndromeReport {
    SyndromeReport {
        block: i,
        syndrome: s,
        z_correction: if x_part(s) != 0 {
            Some((7 * i + err_x(x_part(s))) as u32)
        } else {
            None
        },
        x_correction: if z_part(s) != 0 {
            Some((7 * i + err_z(z_part(s))) as u32)
        } else {
            None
        },
    }
}

fn make_report(i: u32, s: u8) -> (r: SyndromeReport)
    requires
        7 * i + 6 <= u32::MAX,
    ensures
        r == report_for(i, s),
{
    let sx = s & 7;
    assert(sx < 8) by (bit_vector)
        requires sx == s & 7u8;
    let sz = (s >> 3) & 7;
    assert(sz < 8) by (bit_vector)
        requires sz == (s >> 3u8) & 7u8;
    let z_correction = if sx != 0 {
        Some(i * PHYSQUBIT_PER_LOGQUBIT + err_table_x(sx))
    } else {
        None
    };
    let x_correction = if sz != 0 {
        Some(i * PHYSQUBIT_PER_LOGQUBIT + err_table_z(sz))
    } else {
        None
    };
    SyndromeReport { block: i, syndrome: s, z_correction, x_correction }
}

/// The logical measurement buffer handed to callers: one bit per logical slot.
pub struct SteaneBuffer(Vec<bool>);

impl View for SteaneBuffer {
    type V = Seq<bool>;

    closed spec fn view(&self) -> Seq<bool> {
        self.0@
    }
}

impl SteaneBuffer {
    /// The bit in logical slot `s`.
    pub fn get(&self, s: u32) -> (r: bool)
        requires
            s < self@.len(),
        ensures
            r == self@[s as int],
    {
        self.0[s as usize]
    }

    pub fn len(&self) -> (r: usize)
        ensures
            r == self@.len(),
    {
        self.0.len()
    }
}

/// The state a frame works on: the batch not yet submitted, the simulator,
/// the batches submitted, the buffers read back from the simulator, the
/// logical measurement bits and the syndrome reports.
pub struct FrameState {
    pub pending: Seq<PhysOp>,
    pub backend: Simulator,
    pub sent: Seq<Seq<PhysOp>>,
    pub reads: Seq<Seq<bool>>,
    pub measured: Seq<bool>,
    pub reports: Seq<SyndromeReport>,
}

/// The syndrome word in slots `0..6` of a buffer read back: bit `j` is
/// slot `j`.
pub open spec fn syndrome_word(b: Seq<bool>) -> u8 {
    ((if b[0] { 1int } else { 0int }) + (if b[1] { 2int } else { 0int }) + (if b[2] {
        4int
    } else {
        0int
    }) + (if b[3] { 8int } else { 0int }) + (if b[4] { 16int } else { 0int }) + (if b[5] {
        32int
    } else {
        0int
    })) as u8
}

/// `st` after `batch` is submitted and the simulator's bits are read back.
pub open spec fn submit_and_read(st: FrameState, batch: Seq<PhysOp>) -> FrameState {
    let sim = after_batch(st.backend, batch);
    FrameState {
        pending: Seq::empty(),
        backend: sim,
        sent: st.sent.push(batch),
        reads: st.reads.push(measured_of(sim)),
        measured: st.measured,
        reports: st.reports,
    }
}

/// One block of a syndrome round with `n` logical qubits: the pending batch
/// and the block's circuit are submitted, the simulator's bits are read
/// back, and the recovery for their syndrome word becomes the new pending
/// batch.
pub open spec fn block_round(st: FrameState, n: u32, i: u32) -> FrameState {
    let r = submit_and_read(st, st.pending + syndrome_circuit(i, (7 * n) as u32));
    let s = syndrome_word(r.reads.last());
    FrameState {
        pending: recovery(s, i, (7 * n) as u32),
        backend: r.backend,
        sent: r.sent,
        reads: r.reads,
        measured: r.measured,
        reports: r.reports.push(report_for(i, s)),
    }
}

/// Blocks `0..k` of a syndrome round, in order.
pub open spec fn full_round(st: FrameState, n: u32, k: nat) -> FrameState
    decreases k,
{
    if k == 0 {
        st
    } else {
        block_round(full_round(st, n, (k - 1) as nat), n, (k - 1) as u32)
    }
}

/// Encoded measurement of logical qubit `q` into slot `slot`: the outcome
/// is slot 0 of the bits read back.
pub open spec fn measure_step(st: FrameState, n: u32, q: u32, slot: u32) -> FrameState {
    let r = submit_and_read(st, st.pending + measure_circuit(q, (7 * n) as u32));
    let bit = r.reads.last()[0];
    FrameState {
        pending: if bit {
            seq![PhysOp::X((7 * n) as u32)]
        } else {
            Seq::empty()
        },
        backend: r.backend,
        sent: r.sent,
        reads: r.reads,
        measured: r.measured.update(slot as int, bit),
        reports: r.reports,
    }
}

pub open spec fn with_pending(st: FrameState, p: Seq<PhysOp>) -> FrameState {
    FrameState {
        pending: p,
        backend: st.backend,
        sent: st.sent,
        reads: st.reads,
        measured: st.measured,
        reports: st.reports,
    }
}

/// One logical operation.
pub open spec fn op_step(st: FrameState, n: u32, op: LogicalOp) -> FrameState {
    match op {
        LogicalOp::Init => full_round(with_pending(st, st.pending.push(PhysOp::Init)), n, n as nat),
        LogicalOp::UserSyndrome => full_round(st, n, n as nat),
        LogicalOp::Gate(g, q) => with_pending(st, st.pending + transversal(g, q)),
        LogicalOp::Cx(c, t) => with_pending(st, st.pending + transversal_cx(c, t)),
        LogicalOp::Meas(q, slot) => measure_step(st, n, q, slot),
    }
}

/// The operations of a frame in order.
pub open spec fn frame_ops(st: FrameState, n: u32, ops: Seq<LogicalOp>) -> FrameState
    decreases ops.len(),
{
    if ops.len() == 0 {
        st
    } else {
        op_step(frame_ops(st, n, ops.drop_last()), n, ops.last())
    }
}

/// Whether a logical operation is well formed for `n` logical qubits.
pub open spec fn op_valid(op: LogicalOp, n: nat) -> bool {
    match op {
        LogicalOp::Init => true,
        LogicalOp::UserSyndrome => true,
        LogicalOp::Gate(_, q) => q < n,
        LogicalOp::Cx(c, t) => c < n && t < n && c != t,
        LogicalOp::Meas(q, slot) => q < n && slot < n,
    }
}

pub open spec fn ops_valid(ops: Seq<LogicalOp>, n: nat) -> bool {
    forall|k: int| 0 <= k < ops.len() ==> op_valid(#[trigger] ops[k], n)
}

/// The Steane layer over a Gottesman-Knill simulator.
pub struct SteaneLayer {
    instance: Simulator,
    n_logical_qubits: u32,
    instance_buf: BitArray,
    measured: Vec<bool>,
    reports: Vec<SyndromeReport>,
    sent: Ghost<Seq<Seq<PhysOp>>>,
    reads: Ghost<Seq<Seq<bool>>>,
}

impl SteaneLayer {
    pub closed spec fn n(&self) -> nat {
        self.n_logical_qubits as nat
    }

    /// Number of qubits of the simulator underneath.
    pub closed spec fn qubits(&self) -> nat {
        sim_qubits(self.instance)
    }

    /// The logical measurement bits of the current frame.
    pub closed spec fn measured_bits(&self) -> Seq<bool> {
        self.measured@
    }

    /// The syndrome reports of the last frame.
    pub closed spec fn report_log(&self) -> Seq<SyndromeReport> {
        self.reports@
    }

    /// The simulator underneath.
    pub closed spec fn backend(&self) -> Simulator {
        self.instance
    }

    /// Every buffer read back from the simulator for a syndrome round or a
    /// logical measurement, in order.
    pub closed spec fn read_log(&self) -> Seq<Seq<bool>> {
        self.reads@
    }

    /// Every batch submitted to the simulator by this layer, in order.
    pub closed spec fn sent_log(&self) -> Seq<Seq<PhysOp>> {
        self.sent@
    }

    pub closed spec fn wf(&self) -> bool {
        &&& physical_count(self.n_logical_qubits as nat) <= u32::MAX
        &&& physical_count(self.n_logical_qubits as nat) <= sim_qubits(self.instance)
        &&& self.measured@.len() == self.n_logical_qubits
    }

    /// The frame state of this layer with `pending` not yet submitted.
    pub closed spec fn state(&self, pending: Seq<PhysOp>) -> FrameState {
        FrameState {
            pending: pending,
            backend: self.instance,
            sent: self.sent@,
            reads: self.reads@,
            measured: self.measured@,
            reports: self.reports@,
        }
    }
}

/// The frame that runs `ops` on a layer with `n` logical qubits, simulator
/// `backend`, submitted batches `sent`, read-back log `reads` and
/// measurement bits `measured`: every operation in order, then the last
/// pending batch is submitted.
pub open spec fn run_frame(
    backend: Simulator,
    sent: Seq<Seq<PhysOp>>,
    reads: Seq<Seq<bool>>,
    measured: Seq<bool>,
    n: u32,
    ops: Seq<LogicalOp>,
) -> FrameState {
    let st = frame_ops(
        FrameState { pending: Seq::empty(), backend, sent, reads, measured, reports: Seq::empty() },
        n,
        ops,
    );
    FrameState {
        pending: Seq::empty(),
        backend: after_batch(st.backend, st.pending),
        sent: st.sent.push(st.pending),
        reads: st.reads,
        measured: st.measured,
        reports: st.reports,
    }
}

proof fn lemma_fit_append(a: Seq<PhysOp>, b: Seq<PhysOp>, n: nat)
    requires
        ops_fit(a, n),
        ops_fit(b, n),
    ensures
        ops_fit(a + b, n),
{
    assert forall|k: int| 0 <= k < (a + b).len() implies op_fits(#[trigger] (a + b)[k], n) by {
        if k < a.len() {
            assert((a + b)[k] == a[k]);
        } else {
            assert((a + b)[k] == b[k - a.len()]);
        }
    }
}

proof fn lemma_fit_transversal(g: Gate, q: u32, n: nat)
    requires
        7 * q + 7 <= n,
    ensures
        ops_fit(transversal(g, q), n),
{
    assert forall|k: int| 0 <= k < transversal(g, q).len() implies op_fits(
        #[trigger] transversal(g, q)[k],
        n,
    ) by {
        assert(transversal(g, q)[k] == gate_on(g, (7 * q + k) as u32));
    }
}

proof fn lemma_fit_syndrome_circuit(i: u32, n: u32, qubits: nat)
    requires
        i < n,
        7 * n + 6 <= qubits,
        7 * n + 6 <= u32::MAX,
    ensures
        ops_fit(syndrome_circuit(i, (7 * n) as u32), qubits),
{
    let m0 = (7 * n) as u32;
    let offset = (7 * i) as u32;
    lemma_schedules_in_range();
    lemma_fit_transversal(Gate::H, i, qubits);
    assert(ops_fit(cx_round(offset, m0, x_schedule()), qubits)) by {
        assert forall|k: int| 0 <= k < cx_round(offset, m0, x_schedule()).len() implies op_fits(
            #[trigger] cx_round(offset, m0, x_schedule())[k],
            qubits,
        ) by {
            assert(x_schedule()[k].0 < 7 && x_schedule()[k].1 < 6);
        }
    }
    assert(ops_fit(cx_round(offset, m0, z_schedule()), qubits)) by {
        assert forall|k: int| 0 <= k < cx_round(offset, m0, z_schedule()).len() implies op_fits(
            #[trigger] cx_round(offset, m0, z_schedule())[k],
            qubits,
        ) by {
            assert(z_schedule()[k].0 < 7 && z_schedule()[k].1 < 6);
        }
    }
    assert(ops_fit(ancilla_measures(m0), qubits));
    let a = transversal(Gate::H, i);
    let b = cx_round(offset, m0, x_schedule());
    let c = cx_round(offset, m0, z_schedule());
    let d = ancilla_measures(m0);
    lemma_fit_append(a, b, qubits);
    lemma_fit_append(a + b, a, qubits);
    lemma_fit_append(a + b + a, c, qubits);
    lemma_fit_append(a + b + a + c, d, qubits);
}

proof fn lemma_fit_resets(s: u8, m0: u32, k: nat, qubits: nat)
    requires
        k <= 6,
        m0 + 6 <= qubits,
    ensures
        ops_fit(ancilla_resets(s, m0, k), qubits),
    decreases k,
{
    if k > 0 {
        let j = (k - 1) as nat;
        lemma_fit_resets(s, m0, j, qubits);
        let tail = if syndrome_bit(s, j as u8) {
            seq![PhysOp::X((m0 + j) as u32)]
        } else {
            Seq::empty()
        };
        assert(ops_fit(tail, qubits));
        lemma_fit_append(ancilla_resets(s, m0, j), tail, qubits);
    }
}

proof fn lemma_fit_recovery(s: u8, i: u32, n: u32, qubits: nat)
    requires
        i < n,
        7 * n + 6 <= qubits,
        7 * n + 6 <= u32::MAX,
    ensures
        ops_fit(recovery(s, i, (7 * n) as u32), qubits),
{
    let m0 = (7 * n) as u32;
    lemma_fit_resets(s, m0, 6, qubits);
    let offset = (7 * i) as u32;
    assert(err_x(x_part(s)) < 7 && err_z(z_part(s)) < 7);
    assert(ops_fit(corrections(s, offset), qubits));
    lemma_fit_append(ancilla_resets(s, m0, 6), corrections(s, offset), qubits);
}

fn clear_bits(v: &mut Vec<bool>)
    ensures
        final(v)@ == Seq::new(old(v)@.len(), |_i: int| false),
{
    let len = v.len();
    for k in 0..len
        invariant
            len == v@.len(),
            forall|j: int| 0 <= j < k ==> !v@[j],
    {
        v.set(k, false);
    }
    assert(v@ =~= Seq::new(len as nat, |_i: int| false));
}

fn falses(n: u32) -> (r: Vec<bool>)
    ensures
        r@ == Seq::new(n as nat, |_i: int| false),
{
    let mut v: Vec<bool> = Vec::new();
    for i in 0..n
        invariant
            v@ == Seq::new(i as nat, |_i: int| false),
    {
        v.push(false);
        assert(v@ =~= Seq::new((i + 1) as nat, |_i: int| false));
    }
    v
}

impl SteaneLayer {
    fn assemble(instance: Simulator, n_logical_qubits: u32) -> (r: Self)
        requires
            physical_count(n_logical_qubits as nat) <= u32::MAX,
            physical_count(n_logical_qubits as nat) <= sim_qubits(instance),
        ensures
            r.wf(),
            r.n() == n_logical_qubits,
            r.qubits() == sim_qubits(instance),
            r.measured_bits() == Seq::new(n_logical_qubits as nat, |_i: int| false),
            r.report_log() == Seq::<SyndromeReport>::empty(),
            r.sent_log() == Seq::<Seq<PhysOp>>::empty(),
            r.read_log() == Seq::<Seq<bool>>::empty(),
            r.backend() == instance,
    {
        let instance_buf = make_sim_buffer(&instance);
        SteaneLayer {
            instance,
            n_logical_qubits,
            instance_buf,
            measured: falses(n_logical_qubits),
            reports: Vec::new(),
            sent: Ghost(Seq::empty()),
            reads: Ghost(Seq::empty()),
        }
    }

    /// A layer of `n_logical_qubits` over `instance`; `None` where the
    /// simulator has fewer than `7 * n_logical_qubits + 6` qubits or that
    /// count does not fit in `u32`.
    pub fn from_instance(instance: Simulator, n_logical_qubits: u32) -> (r: Option<Self>)
        ensures
            r.is_some() <==> (physical_count(n_logical_qubits as nat) <= u32::MAX
                && physical_count(n_logical_qubits as nat) <= sim_qubits(instance)),
            r matches Some(l) ==> {
                &&& l.wf()
                &&& l.n() == n_logical_qubits
                &&& l.qubits() == sim_qubits(instance)
                &&& l.measured_bits() == Seq::new(n_logical_qubits as nat, |_i: int| false)
                &&& l.report_log() == Seq::<SyndromeReport>::empty()
                &&& l.sent_log() == Seq::<Seq<PhysOp>>::empty()
                &&& l.read_log() == Seq::<Seq<bool>>::empty()
                &&& l.backend() == instance
            },
    {
        if n_logical_qubits > (u32::MAX - MEASURE_ANCILLA_QUBITS) / PHYSQUBIT_PER_LOGQUBIT {
            return None;
        }
        let need = required_physical_qubits(n_logical_qubits);
        if simulator_qubits(&instance) < need {
            return None;
        }
        Some(Self::assemble(instance, n_logical_qubits))
    }

    /// A layer of `n_logical_qubits` over a fresh simulator of exactly
    /// `7 * n_logical_qubits + 6` qubits seeded with `seed`.
    pub fn from_seed_with_gk(n_logical_qubits: u32, seed: u64) -> (r: Self)
        requires
            physical_count(n_logical_qubits as nat) <= u32::MAX,
        ensures
            r.wf(),
            r.n() == n_logical_qubits,
            r.qubits() == physical_count(n_logical_qubits as nat),
            r.backend() == seeded_simulator(physical_count(n_logical_qubits as nat) as u32, seed),
            r.measured_bits() == Seq::new(n_logical_qubits as nat, |_i: int| false),
            r.report_log() == Seq::<SyndromeReport>::empty(),
            r.sent_log() == Seq::<Seq<PhysOp>>::empty(),
            r.read_log() == Seq::<Seq<bool>>::empty(),
    {
        let instance = new_simulator(required_physical_qubits(n_logical_qubits), seed);
        Self::assemble(instance, n_logical_qubits)
    }

    pub fn n_logical_qubits(&self) -> (r: u32)
        ensures
            r == self.n(),
    {
        self.n_logical_qubits
    }

    /// A zeroed logical measurement buffer of the right size.
    pub fn make_buffer(&self) -> (r: SteaneBuffer)
        ensures
            r@ == Seq::new(self.n(), |_i: int| false),
    {
        SteaneBuffer(falses(self.n_logical_qubits))
    }

    /// The reports of the syndrome rounds of the last frame, block by block.
    pub fn reports(&self) -> (r: &Vec<SyndromeReport>)
        ensures
            r@ == self.report_log(),
    {
        &self.reports
    }

    /// Runs the syndrome-extraction and recovery round on every block in
    /// turn.
    fn syndrome_measure_and_recover(&mut self, pending: &mut Vec<PhysOp>)
        requires
            old(self).wf(),
            ops_fit(old(pending)@, old(self).qubits()),
        ensures
            final(self).wf(),
            final(self).n() == old(self).n(),
            final(self).qubits() == old(self).qubits(),
            ops_fit(final(pending)@, final(self).qubits()),
            final(self).state(final(pending)@) == full_round(
                old(self).state(old(pending)@),
                old(self).n() as u32,
                old(self).n(),
            ),
    {
        let n = self.n_logical_qubits;
        let m0 = n * PHYSQUBIT_PER_LOGQUBIT;
        let ghost st0 = self.state(pending@);
        let ghost qubits = self.qubits();
        for i in 0..n
            invariant
                self.wf(),
                self.n_logical_qubits == n,
                m0 == 7 * n,
                self.qubits() == qubits,
                ops_fit(pending@, qubits),
                self.state(pending@) == full_round(st0, n, i as nat),
        {
            let ghost before = self.state(pending@);
            push_syndrome_circuit(i, m0, pending);
            proof {
                lemma_fit_syndrome_circuit(i, n, qubits);
                lemma_fit_append(before.pending, syndrome_circuit(i, m0), qubits);
            }
            backend_send(&mut self.instance, pending);
            self.sent = Ghost(self.sent@.push(pending@));
            backend_receive(&mut self.instance, &mut self.instance_buf);
            let ghost b = bits_of(self.instance_buf);
            self.reads = Ghost(self.reads@.push(b));
            let s = buffer_get_range_u8(&self.instance_buf, 0, 6);
            proof {
                lemma_packed_word(s, b);
            }
            pending.clear();
            push_recovery(i, m0, s, pending);
            proof {
                lemma_fit_recovery(s, i, n, qubits);
                assert(pending@ =~= recovery(s, i, m0));
            }
            let rep = make_report(i, s);
            self.reports.push(rep);
            proof {
                assert(self.state(pending@) =~= block_round(before, n, i));
            }
        }
    }

    /// Encoded measurement of logical qubit `q` into logical slot `slot`;
    /// the result is slot 0 of the bits read back.
    fn measure(&mut self, q: u32, slot: u32, pending: &mut Vec<PhysOp>) -> (r: bool)
        requires
            old(self).wf(),
            q < old(self).n(),
            slot < old(self).n(),
            ops_fit(old(pending)@, old(self).qubits()),
        ensures
            final(self).wf(),
            final(self).n() == old(self).n(),
            final(self).qubits() == old(self).qubits(),
            ops_fit(final(pending)@, final(self).qubits()),
            r == final(self).read_log().last()[0],
            final(self).state(final(pending)@) == measure_step(
                old(self).state(old(pending)@),
                old(self).n() as u32,
                q,
                slot,
            ),
    {
        let ghost before = self.state(pending@);
        let ghost qubits = self.qubits();
        let m0 = self.n_logical_qubits * PHYSQUBIT_PER_LOGQUBIT;
        push_measure_circuit(q, m0, pending);
        proof {
            assert(ops_fit(measure_circuit(q, m0), qubits));
            lemma_fit_append(before.pending, measure_circuit(q, m0), qubits);
        }
        backend_send(&mut self.instance, pending);
        self.sent = Ghost(self.sent@.push(pending@));
        backend_receive(&mut self.instance, &mut self.instance_buf);
        let ghost b = bits_of(self.instance_buf);
        self.reads = Ghost(self.reads@.push(b));
        let r = buffer_get(&self.instance_buf, 0);
        self.measured.set(slot as usize, r);
        pending.clear();
        if r {
            pending.push(PhysOp::X(m0));
        }
        proof {
            assert(self.state(pending@) =~= measure_step(before, self.n_logical_qubits, q, slot));
        }
        r
    }

    /// Applies a frame of logical operations. Operations are translated in
    /// order into one pending physical batch; a syndrome round or a logical
    /// measurement submits it and reads the simulator back; what is left is
    /// submitted at the end. The reports of the frame replace the earlier ones.
    pub fn send(&mut self, ops: &[LogicalOp])
        requires
            old(self).wf(),
            ops_valid(ops@, old(self).n()),
        ensures
            final(self).wf(),
            final(self).n() == old(self).n(),
            final(self).qubits() == old(self).qubits(),
            ({
                let fr = run_frame(
                    old(self).backend(),
                    old(self).sent_log(),
                    old(self).read_log(),
                    old(self).measured_bits(),
                    old(self).n() as u32,
                    ops@,
                );
                &&& final(self).backend() == fr.backend
                &&& final(self).sent_log() == fr.sent
                &&& final(self).read_log() == fr.reads
                &&& final(self).measured_bits() == fr.measured
                &&& final(self).report_log() == fr.reports
            }),
    {
        let n = self.n_logical_qubits;
        let ghost qubits = self.qubits();
        let mut pending: Vec<PhysOp> = Vec::new();
        self.reports.clear();
        let ghost st0 = self.state(pending@);
        for k in 0..ops.len()
            invariant
                self.wf(),
                self.n_logical_qubits == n,
                self.qubits() == qubits,
                ops_valid(ops@, n as nat),
                ops_fit(pending@, qubits),
                self.state(pending@) == frame_ops(st0, n, ops@.take(k as int)),
        {
            let ghost before = self.state(pending@);
            let op = ops[k];
            assert(op_valid(ops@[k as int], n as nat));
            match op {
                LogicalOp::Init => {
                    pending.push(PhysOp::Init);
                    proof {
                        lemma_fit_append(before.pending, seq![PhysOp::Init], qubits);
                        assert(pending@ =~= before.pending + seq![PhysOp::Init]);
                    }
                    self.syndrome_measure_and_recover(&mut pending);
                },
                LogicalOp::UserSyndrome => {
                    self.syndrome_measure_and_recover(&mut pending);
                },
                LogicalOp::Gate(g, q) => {
                    push_transversal(g, q, &mut pending);
                    proof {
                        lemma_fit_transversal(g, q, qubits);
                        lemma_fit_append(before.pending, transversal(g, q), qubits);
                    }
                },
                LogicalOp::Cx(c, t) => {
                    push_transversal_cx(c, t, &mut pending);
                    proof {
                        assert(ops_fit(transversal_cx(c, t), qubits));
                        lemma_fit_append(before.pending, transversal_cx(c, t), qubits);
                    }
                },
                LogicalOp::Meas(q, slot) => {
                    self.measure(q, slot, &mut pending);
                },
            }
            proof {
                assert(ops@.take(k + 1).drop_last() =~= ops@.take(k as int));
                assert(self.state(pending@) == op_step(before, n, op));
            }
        }
        backend_send(&mut self.instance, &pending);
        self.sent = Ghost(self.sent@.push(pending@));
        proof {
            assert(ops@.take(ops@.len() as int) =~= ops@);
            assert(st0 == FrameState {
                pending: Seq::<PhysOp>::empty(),
                backend: old(self).backend(),
                sent: old(self).sent_log(),
                reads: old(self).read_log(),
                measured: old(self).measured_bits(),
                reports: Seq::<SyndromeReport>::empty(),
            });
        }
    }

    /// Hands the logical measurement bits of the frame to the caller by
    /// swapping them with `buf`; the layer keeps the vector of `buf`,
    /// zeroed, for the next frame.
    pub fn receive(&mut self, buf: &mut SteaneBuffer)
        requires
            old(self).wf(),
            old(buf)@.len() == old(self).n(),
        ensures
            final(self).wf(),
            final(self).n() == old(self).n(),
            final(self).qubits() == old(self).qubits(),
            final(self).backend() == old(self).backend(),
            final(self).sent_log() == old(self).sent_log(),
            final(self).read_log() == old(self).read_log(),
            final(self).report_log() == old(self).report_log(),
            final(buf)@ == old(self).measured_bits(),
            final(self).measured_bits() == Seq::new(old(self).n(), |_i: int| false),
    {
        backend_receive(&mut self.instance, &mut self.instance_buf);
        std::mem::swap(&mut self.measured, &mut buf.0);
        clear_bits(&mut self.measured);
    }

    /// `send`, then `receive`.
    pub fn send_receive(&mut self, ops: &[LogicalOp], buf: &mut SteaneBuffer)
        requires
            old(self).wf(),
            ops_valid(ops@, old(self).n()),
            old(buf)@.len() == old(self).n(),
        ensures
            final(self).wf(),
            final(self).n() == old(self).n(),
            final(self).qubits() == old(self).qubits(),
            final(self).measured_bits() == Seq::new(old(self).n(), |_i: int| false),
            ({
                let fr = run_frame(
                    old(self).backend(),
                    old(self).sent_log(),
                    old(self).read_log(),
                    old(self).measured_bits(),
                    old(self).n() as u32,
                    ops@,
                );
                &&& final(self).backend() == fr.backend
                &&& final(self).sent_log() == fr.sent
                &&& final(self).read_log() == fr.reads
                &&& final(buf)@ == fr.measured
                &&& final(self).report_log() == fr.reports
            }),
    {
        self.send(ops);
        self.receive(buf);
    }

    /// An empty logical operation buffer.
    pub fn opsvec(&self) -> (r: LogicalOps)
        ensures
            r@ == Seq::<LogicalOp>::empty(),
    {
        LogicalOps::new()
    }

    /// Submits physical operations straight to the simulator, past the
    /// encoding (to inject an error, say). Where an operation names a qubit
    /// or slot the simulator lacks, nothing is submitted and the result is
    /// `false`.
    pub fn send_physical(&mut self, ops: &Vec<PhysOp>) -> (r: bool)
        requires
            old(self).wf(),
        ensures
            final(self).wf(),
            final(self).n() == old(self).n(),
            final(self).qubits() == old(self).qubits(),
            final(self).measured_bits() == old(self).measured_bits(),
            final(self).report_log() == old(self).report_log(),
            final(self).read_log() == old(self).read_log(),
            r == ops_fit(ops@, old(self).qubits()),
            final(self).backend() == if r {
                after_batch(old(self).backend(), ops@)
            } else {
                old(self).backend()
            },
            final(self).sent_log() == if r {
                old(self).sent_log().push(ops@)
            } else {
                old(self).sent_log()
            },
    {
        let qubits = simulator_qubits(&self.instance);
        if !all_fit_within(ops, qubits) {
            return false;
        }
        backend_send(&mut self.instance, ops);
        self.sent = Ghost(self.sent@.push(ops@));
        true
    }
}

fn all_fit_within(ops: &Vec<PhysOp>, n: u32) -> (r: bool)
    ensures
        r == ops_fit(ops@, n as nat),
{
    for k in 0..ops.len()
        invariant
            forall|j: int| 0 <= j < k ==> op_fits(#[trigger] ops@[j], n as nat),
    {
        if !op_fits_within(ops[k], n) {
            return false;
        }
    }
    true
}

fn op_fits_within(op: PhysOp, n: u32) -> (r: bool)
    ensures
        r == op_fits(op, n as nat),
{
    match op {
        PhysOp::Init => true,
        PhysOp::X(q) => q < n,
        PhysOp::Y(q) => q < n,
        PhysOp::Z(q) => q < n,
        PhysOp::H(q) => q < n,
        PhysOp::S(q) => q < n,
        PhysOp::Sdg(q) => q < n,
        PhysOp::Cx(c, t) => c < n && t < n && c != t,
        PhysOp::Measure(q, s) => q < n && s < n,
    }
}

/// The bits of a word packed from slots `0..6` of `b` (bit `j` from slot
/// `j`, the two top bits clear) make the word `syndrome_word(b)`.
proof fn lemma_packed_word(s: u8, b: Seq<bool>)
    requires
        b.len() >= 6,
        forall|j: u8| #![trigger (s >> j)] j < 8 ==> (((s >> j) & 1u8 == 1u8) == (j < 6 && b[j as int])),
    ensures
        s == syndrome_word(b),
{
    let b0 = (s >> 0u8) & 1u8;
    let b1 = (s >> 1u8) & 1u8;
    let b2 = (s >> 2u8) & 1u8;
    let b3 = (s >> 3u8) & 1u8;
    let b4 = (s >> 4u8) & 1u8;
    let b5 = (s >> 5u8) & 1u8;
    let b6 = (s >> 6u8) & 1u8;
    let b7 = (s >> 7u8) & 1u8;
    assert(s == b0 + 2 * b1 + 4 * b2 + 8 * b3 + 16 * b4 + 32 * b5 + 64 * b6 + 128 * b7 && b0 < 2
        && b1 < 2 && b2 < 2 && b3 < 2 && b4 < 2 && b5 < 2 && b6 < 2 && b7 < 2) by (bit_vector)
        requires
            b0 == (s >> 0u8) & 1u8,
            b1 == (s >> 1u8) & 1u8,
            b2 == (s >> 2u8) & 1u8,
            b3 == (s >> 3u8) & 1u8,
            b4 == (s >> 4u8) & 1u8,
            b5 == (s >> 5u8) & 1u8,
            b6 == (s >> 6u8) & 1u8,
            b7 == (s >> 7u8) & 1u8,
    ;
}

} // verus!
