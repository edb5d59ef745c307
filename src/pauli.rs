//! Pauli operators under conjugation with physical circuits, and two
//! circuit identities of the code.
use vstd::prelude::*;
use crate::ops::{Gate, PhysOp, gate_on, inverse_gate};
use crate::code::{transversal, transversal_cx};

verus! {

/// A Pauli operator on the physical qubits: `X` on the qubits of `x`, `Z`
/// on those of `z` (`Y` where both hold), with sign `-1` when `neg`.
pub struct PauliString {
    pub x: Set<int>,
    pub z: Set<int>,
    pub neg: bool,
}

pub open spec fn set_to(s: Set<int>, q: int, b: bool) -> Set<int> {
    if b {
        s.insert(q)
    } else {
        s.remove(q)
    }
}

/// The conjugate of `p` under the unitary of `op`. Initialization and
/// measurement are not unitary and leave `p` as it is.
pub open spec fn conj_op(op: PhysOp, p: PauliString) -> PauliString {
    match op {
        PhysOp::X(q) => PauliString { x: p.x, z: p.z, neg: p.neg != p.z.contains(q as int) },
        PhysOp::Z(q) => PauliString { x: p.x, z: p.z, neg: p.neg != p.x.contains(q as int) },
        PhysOp::Y(q) => PauliString {
            x: p.x,
            z: p.z,
            neg: p.neg != (p.x.contains(q as int) != p.z.contains(q as int)),
        },
        PhysOp::H(q) => {
            let xb = p.x.contains(q as int);
            let zb = p.z.contains(q as int);
            PauliString { x: set_to(p.x, q as int, zb), z: set_to(p.z, q as int, xb), neg: p.neg != (xb && zb) }
        },
        PhysOp::S(q) => {
            let xb = p.x.contains(q as int);
            let zb = p.z.contains(q as int);
            PauliString { x: p.x, z: set_to(p.z, q as int, zb != xb), neg: p.neg != (xb && zb) }
        },
        PhysOp::Sdg(q) => {
            let xb = p.x.contains(q as int);
            let zb = p.z.contains(q as int);
            PauliString { x: p.x, z: set_to(p.z, q as int, zb != xb), neg: p.neg != (xb && !zb) }
        },
        PhysOp::Cx(c, t) => {
            if c == t {
                p
            } else {
                let xc = p.x.contains(c as int);
                let zc = p.z.contains(c as int);
                let xt = p.x.contains(t as int);
                let zt = p.z.contains(t as int);
                PauliString {
                    x: set_to(p.x, t as int, xt != xc),
                    z: set_to(p.z, c as int, zc != zt),
                    neg: p.neg != (xc && zt && (xt == zc)),
                }
            }
        },
        _ => p,
    }
}

/// The conjugate of `p` under the circuit that applies `ops` in order.
pub open spec fn conj_seq(ops: Seq<PhysOp>, p: PauliString) -> PauliString
    decreases ops.len(),
{
    if ops.len() == 0 {
        p
    } else {
        conj_op(ops.last(), conj_seq(ops.drop_last(), p))
    }
}

/// The physical qubits an operation acts on, as a pair (the same qubit
/// twice for a single-qubit operation; none, written `-1`, for `Init`).
pub open spec fn acts_on(op: PhysOp) -> (int, int) {
    match op {
        PhysOp::Init => (-1, -1),
        PhysOp::X(q) => (q as int, q as int),
        PhysOp::Y(q) => (q as int, q as int),
        PhysOp::Z(q) => (q as int, q as int),
        PhysOp::H(q) => (q as int, q as int),
        PhysOp::S(q) => (q as int, q as int),
        PhysOp::Sdg(q) => (q as int, q as int),
        PhysOp::Cx(c, t) => (c as int, t as int),
        PhysOp::Measure(q, _) => (q as int, q as int),
    }
}

/// Whether two operations act on no common qubit.
pub open spec fn apart(a: PhysOp, b: PhysOp) -> bool {
    let (a0, a1) = acts_on(a);
    let (b0, b1) = acts_on(b);
    (a0 == -1 || b0 == -1) || (a0 != b0 && a0 != b1 && a1 != b0 && a1 != b1)
}

pub proof fn lemma_conj_append(a: Seq<PhysOp>, b: Seq<PhysOp>, p: PauliString)
    ensures
        conj_seq(a + b, p) == conj_seq(b, conj_seq(a, p)),
    decreases b.len(),
{
    if b.len() == 0 {
        assert(a + b =~= a);
    } else {
        lemma_conj_append(a, b.drop_last(), p);
        assert((a + b).drop_last() =~= a + b.drop_last());
        assert((a + b).last() == b.last());
    }
}

proof fn lemma_conj_push(s: Seq<PhysOp>, op: PhysOp, p: PauliString)
    ensures
        conj_seq(s.push(op), p) == conj_op(op, conj_seq(s, p)),
{
    assert(s.push(op).drop_last() =~= s);
}

/// Operations on disjoint qubits commute.
proof fn lemma_commute(a: PhysOp, b: PhysOp, p: PauliString)
    requires
        apart(a, b),
    ensures
        conj_op(a, conj_op(b, p)) == conj_op(b, conj_op(a, p)),
{
    let l = conj_op(a, conj_op(b, p));
    let r = conj_op(b, conj_op(a, p));
    assert(l.x =~= r.x);
    assert(l.z =~= r.z);
}

/// An operation commutes with a circuit on qubits it does not touch.
proof fn lemma_commute_seq(a: PhysOp, s: Seq<PhysOp>, p: PauliString)
    requires
        forall|k: int| 0 <= k < s.len() ==> apart(a, #[trigger] s[k]),
    ensures
        conj_seq(s, conj_op(a, p)) == conj_op(a, conj_seq(s, p)),
    decreases s.len(),
{
    if s.len() > 0 {
        let t = s.drop_last();
        assert forall|k: int| 0 <= k < t.len() implies apart(a, #[trigger] t[k]) by {
            assert(t[k] == s[k]);
        }
        lemma_commute_seq(a, t, p);
        lemma_commute(a, s.last(), conj_seq(t, p));
    }
}

proof fn lemma_gate_then_inverse(g: Gate, q: u32, p: PauliString)
    ensures
        conj_op(gate_on(inverse_gate(g), q), conj_op(gate_on(g, q), p)) == p,
{
    let r = conj_op(gate_on(inverse_gate(g), q), conj_op(gate_on(g, q), p));
    assert(r.x =~= p.x);
    assert(r.z =~= p.z);
}

proof fn lemma_prefix_then_inverse(g: Gate, q: u32, k: int, p: PauliString)
    requires
        0 <= k <= 7,
        7 * q + 6 <= u32::MAX,
    ensures
        conj_seq(transversal(inverse_gate(g), q).take(k), conj_seq(transversal(g, q).take(k), p)) == p,
    decreases k,
{
    if k > 0 {
        let j = k - 1;
        let tg = transversal(g, q);
        let ti = transversal(inverse_gate(g), q);
        let gj = tg[j];
        let ij = ti[j];
        let r = (7 * q + j) as u32;
        assert(gj == gate_on(g, r));
        assert(ij == gate_on(inverse_gate(g), r));
        assert(tg.take(k) =~= tg.take(j).push(gj));
        assert(ti.take(k) =~= ti.take(j).push(ij));
        let pp = conj_seq(tg.take(j), p);
        lemma_conj_push(tg.take(j), gj, p);
        lemma_conj_push(ti.take(j), ij, conj_op(gj, pp));
        assert forall|i: int| 0 <= i < ti.take(j).len() implies apart(gj, #[trigger] ti.take(j)[i]) by {
            assert(ti.take(j)[i] == gate_on(inverse_gate(g), (7 * q + i) as u32));
        }
        lemma_commute_seq(gj, ti.take(j), pp);
        lemma_gate_then_inverse(g, r, conj_seq(ti.take(j), pp));
        lemma_prefix_then_inverse(g, q, j, p);
    }
}

/// A single-qubit logical Clifford followed by its inverse is the identity:
/// the two transversal layers together fix every Pauli operator, so no
/// measurement can tell them from doing nothing.
pub proof fn lemma_transversal_then_inverse(g: Gate, q: u32, p: PauliString)
    requires
        7 * q + 6 <= u32::MAX,
    ensures
        conj_seq(transversal(g, q) + transversal(inverse_gate(g), q), p) == p,
{
    lemma_conj_append(transversal(g, q), transversal(inverse_gate(g), q), p);
    lemma_prefix_then_inverse(g, q, 7, p);
    assert(transversal(g, q).take(7) =~= transversal(g, q));
    assert(transversal(inverse_gate(g), q).take(7) =~= transversal(inverse_gate(g), q));
}

proof fn lemma_pair_cx_x(c: u32, t: u32, p: PauliString)
    requires
        c != t,
    ensures
        conj_op(PhysOp::X(c), conj_op(PhysOp::Cx(c, t), p)) == conj_op(
            PhysOp::X(t),
            conj_op(PhysOp::Cx(c, t), conj_op(PhysOp::X(c), p)),
        ),
{
    let l = conj_op(PhysOp::X(c), conj_op(PhysOp::Cx(c, t), p));
    let r = conj_op(PhysOp::X(t), conj_op(PhysOp::Cx(c, t), conj_op(PhysOp::X(c), p)));
    assert(l.x =~= r.x);
    assert(l.z =~= r.z);
}

proof fn lemma_prefix_cx_x(c: u32, t: u32, k: int, p: PauliString)
    requires
        0 <= k <= 7,
        c != t,
        7 * c + 6 <= u32::MAX,
        7 * t + 6 <= u32::MAX,
    ensures
        conj_seq(transversal(Gate::X, c).take(k), conj_seq(transversal_cx(c, t).take(k), p))
            == conj_seq(
            transversal(Gate::X, t).take(k),
            conj_seq(transversal_cx(c, t).take(k), conj_seq(transversal(Gate::X, c).take(k), p)),
        ),
    decreases k,
{
    if k > 0 {
        let j = k - 1;
        let cx = transversal_cx(c, t);
        let xc = transversal(Gate::X, c);
        let xt = transversal(Gate::X, t);
        let cxj = cx[j];
        let xcj = xc[j];
        let xtj = xt[j];
        assert(cxj == PhysOp::Cx((7 * c + j) as u32, (7 * t + j) as u32));
        assert(xcj == PhysOp::X((7 * c + j) as u32));
        assert(xtj == PhysOp::X((7 * t + j) as u32));
        let cx1 = cx.take(j);
        let xc1 = xc.take(j);
        let xt1 = xt.take(j);
        assert(cx.take(k) =~= cx1.push(cxj));
        assert(xc.take(k) =~= xc1.push(xcj));
        assert(xt.take(k) =~= xt1.push(xtj));
        assert forall|i: int| 0 <= i < j implies #[trigger] cx1[i] == PhysOp::Cx(
            (7 * c + i) as u32,
            (7 * t + i) as u32,
        ) && xc1[i] == PhysOp::X((7 * c + i) as u32) && xt1[i] == PhysOp::X((7 * t + i) as u32) by {}
        assert forall|i: int| 0 <= i < xc1.len() implies apart(cxj, #[trigger] xc1[i]) by {
            assert(cx1[i] == PhysOp::Cx((7 * c + i) as u32, (7 * t + i) as u32));
        }
        assert forall|i: int| 0 <= i < xt1.len() implies apart(xcj, #[trigger] xt1[i]) by {
            assert(cx1[i] == PhysOp::Cx((7 * c + i) as u32, (7 * t + i) as u32));
        }
        assert forall|i: int| 0 <= i < cx1.len() implies apart(xcj, #[trigger] cx1[i]) by {
            assert(cx1[i] == PhysOp::Cx((7 * c + i) as u32, (7 * t + i) as u32));
        }
        assert forall|i: int| 0 <= i < xt1.len() implies apart(cxj, #[trigger] xt1[i]) by {
            assert(cx1[i] == PhysOp::Cx((7 * c + i) as u32, (7 * t + i) as u32));
        }
        // left side
        lemma_conj_push(cx1, cxj, p);
        lemma_conj_push(xc1, xcj, conj_op(cxj, conj_seq(cx1, p)));
        lemma_commute_seq(cxj, xc1, conj_seq(cx1, p));
        lemma_prefix_cx_x(c, t, j, p);
        let w = conj_seq(xc1, p);
        let v = conj_seq(cx1, w);
        let b = conj_seq(xt1, v);
        lemma_pair_cx_x((7 * c + j) as u32, (7 * t + j) as u32, b);
        // right side
        lemma_commute_seq(xcj, xt1, v);
        lemma_commute_seq(xcj, cx1, w);
        let u = conj_seq(cx1, conj_op(xcj, w));
        lemma_commute_seq(cxj, xt1, u);
        lemma_conj_push(xc1, xcj, p);
        lemma_conj_push(cx1, cxj, conj_op(xcj, w));
        lemma_conj_push(xt1, xtj, conj_op(cxj, u));
    }
}

/// A logical X on the control commutes past a transversal CX by adding a
/// logical X on the target: CX then X(c) is the same circuit as X(c), then
/// CX, then X(t).
pub proof fn lemma_cx_then_x(c: u32, t: u32, p: PauliString)
    requires
        c != t,
        7 * c + 6 <= u32::MAX,
        7 * t + 6 <= u32::MAX,
    ensures
        conj_seq(transversal_cx(c, t) + transversal(Gate::X, c), p) == conj_seq(
            transversal(Gate::X, c) + transversal_cx(c, t) + transversal(Gate::X, t),
            p,
        ),
{
    let cx = transversal_cx(c, t);
    let xc = transversal(Gate::X, c);
    let xt = transversal(Gate::X, t);
    lemma_conj_append(cx, xc, p);
    lemma_conj_append(xc, cx, p);
    lemma_conj_append(xc + cx, xt, p);
    lemma_prefix_cx_x(c, t, 7, p);
    assert(cx.take(7) =~= cx);
    assert(xc.take(7) =~= xc);
    assert(xt.take(7) =~= xt);
}

} // verus!
