//! Single-error correction: the parity checks that the syndrome schedules
//! implement, and what recovery does with the syndrome of a single error.
use vstd::prelude::*;
use crate::ops::PhysOp;
use crate::code::{
    x_schedule, z_schedule, x_part, z_part, err_x, err_z, corrections, recovery, ancilla_resets,
    syndrome_bit,
};
use crate::layer::{report_for, FrameState, block_round, syndrome_word};
use crate::pauli::{PauliString, conj_op, conj_seq, lemma_conj_append};
use crate::code::{transversal, cx_round, ancilla_measures, syndrome_circuit, lemma_schedules_in_range};
use crate::ops::Gate;

verus! {

/// A single-qubit Pauli error.
#[derive(Clone, Copy, Debug, PartialEq, Eq)]
pub enum PauliError {
    X,
    Y,
    Z,
}

pub open spec fn has_x(e: PauliError) -> bool {
    e is X || e is Y
}

pub open spec fn has_z(e: PauliError) -> bool {
    e is Z || e is Y
}

/// The value of ancilla bit `a` in a syndrome word.
pub open spec fn ancilla_weight(a: u32) -> nat {
    if a == 0 { 1 }
    else if a == 1 { 2 }
    else if a == 2 { 4 }
    else if a == 3 { 8 }
    else if a == 4 { 16 }
    else { 32 }
}

/// The ancilla bits that the first `k` CXs of `sched` tie to data offset `j`.
pub open spec fn check_word(sched: Seq<(u32, u32)>, j: u32, k: nat) -> nat
    decreases k,
{
    if k == 0 {
        0
    } else {
        check_word(sched, j, (k - 1) as nat) + if sched[k - 1].0 == j {
            ancilla_weight(sched[k - 1].1)
        } else {
            0
        }
    }
}

/// The syndrome word a single error `e` on data offset `j` of a block leaves:
/// its Z part flips the X-round ancillas tied to `j`, its X part the Z-round
/// ones.
pub open spec fn error_syndrome(e: PauliError, j: u32) -> u8 {
    ((if has_z(e) { check_word(x_schedule(), j, 12) } else { 0 }) + (if has_x(e) {
        check_word(z_schedule(), j, 12)
    } else {
        0
    })) as u8
}

/// The error `e` on physical qubit `q` written as Pauli gates, Z part first.
pub open spec fn error_ops(e: PauliError, q: u32) -> Seq<PhysOp> {
    (if has_z(e) {
        seq![PhysOp::Z(q)]
    } else {
        Seq::empty()
    }) + (if has_x(e) {
        seq![PhysOp::X(q)]
    } else {
        Seq::empty()
    })
}

proof fn lemma_check_words(j: u32)
    requires
        j < 7,
    ensures
        check_word(x_schedule(), j, 12) == (if j == 0 { 1nat }
            else if j == 1 { 2nat }
            else if j == 2 { 4nat }
            else if j == 3 { 6nat }
            else if j == 4 { 5nat }
            else if j == 5 { 7nat }
            else { 3nat }),
        check_word(z_schedule(), j, 12) == 8 * (if j == 0 { 5nat }
            else if j == 1 { 6nat }
            else if j == 2 { 7nat }
            else if j == 3 { 1nat }
            else if j == 4 { 2nat }
            else if j == 5 { 4nat }
            else { 3nat }),
{
    reveal_with_fuel(check_word, 13);
}

proof fn lemma_split_word(s: u8, a: u8, b: u8)
    requires
        a < 8,
        b < 8,
        s == a + 8 * b,
    ensures
        s & 7 == a,
        (s >> 3) & 7 == b,
{
    assert(s & 7 == a && (s >> 3) & 7 == b) by (bit_vector)
        requires
            a < 8,
            b < 8,
            s == a + 8 * b,
    ;
}

/// Each single-qubit error on a block has its own syndrome, and recovery
/// corrects exactly the qubit it names: a Z correction on that qubit where
/// the error has a Z part, an X correction where it has an X part (a `Y`
/// error gets both).
pub proof fn lemma_syndrome_locates_error(i: u32, j: u32, e: PauliError)
    requires
        j < 7,
        7 * i + 6 <= u32::MAX,
    ensures
        error_syndrome(e, j) != 0,
        corrections(error_syndrome(e, j), (7 * i) as u32) == error_ops(e, (7 * i + j) as u32),
        report_for(i, error_syndrome(e, j)).z_correction == (if has_z(e) {
            Some((7 * i + j) as u32)
        } else {
            None
        }),
        report_for(i, error_syndrome(e, j)).x_correction == (if has_x(e) {
            Some((7 * i + j) as u32)
        } else {
            None
        }),
{
    lemma_check_words(j);
    let xw = check_word(x_schedule(), j, 12);
    let zw = check_word(z_schedule(), j, 12) / 8;
    let a: nat = if has_z(e) { xw } else { 0 };
    let b: nat = if has_x(e) { zw } else { 0 };
    let s = error_syndrome(e, j);
    assert(s == (a + 8 * b) as u8);
    lemma_split_word(s, a as u8, b as u8);
    assert(x_part(s) == a && z_part(s) == b);
    assert(err_x(xw as u8) == j && err_z(zw as u8) == j) by {
        if j == 0 {} else if j == 1 {} else if j == 2 {} else if j == 3 {}
        else if j == 4 {} else if j == 5 {} else {}
    }
    assert(corrections(s, (7 * i) as u32) =~= error_ops(e, (7 * i + j) as u32));
}

/// A block whose syndrome is 0 gets no ancilla reset and no correction, and
/// its report names no qubit.
pub proof fn lemma_quiet_block(i: u32, m0: u32)
    ensures
        recovery(0u8, i, m0) == Seq::<PhysOp>::empty(),
        report_for(i, 0u8).z_correction is None,
        report_for(i, 0u8).x_correction is None,
{
    assert forall|j: u8| j < 6 implies !syndrome_bit(0u8, j) by {
        assert((0u8 >> j) & 1u8 == 0u8) by (bit_vector);
    }
    assert(ancilla_resets(0u8, m0, 6) =~= Seq::<PhysOp>::empty()) by {
        reveal_with_fuel(ancilla_resets, 7);
        assert(!syndrome_bit(0u8, 0u8) && !syndrome_bit(0u8, 1u8) && !syndrome_bit(0u8, 2u8));
        assert(!syndrome_bit(0u8, 3u8) && !syndrome_bit(0u8, 4u8) && !syndrome_bit(0u8, 5u8));
    }
    assert(x_part(0u8) == 0 && z_part(0u8) == 0) by (bit_vector);
    assert(corrections(0u8, (7 * i) as u32) =~= Seq::<PhysOp>::empty());
    assert(recovery(0u8, i, m0) =~= Seq::<PhysOp>::empty());
}

/// `s` with `r` added where absent and removed where present.
pub open spec fn toggle(s: Set<int>, r: int) -> Set<int> {
    if s.contains(r) {
        s.remove(r)
    } else {
        s.insert(r)
    }
}

/// The X support `x` after the first `k` CXs of `sched` carry an X on data
/// offset `j` to the ancillae from `m0`.
pub open spec fn flipped(sched: Seq<(u32, u32)>, j: u32, m0: u32, x: Set<int>, k: nat) -> Set<int>
    decreases k,
{
    if k == 0 {
        x
    } else {
        let prev = flipped(sched, j, m0, x, (k - 1) as nat);
        if sched[k - 1].0 == j {
            toggle(prev, m0 + sched[k - 1].1)
        } else {
            prev
        }
    }
}

/// The first `k` ancillae from `m0` that lie in `x`, read as a syndrome word.
pub open spec fn word_of(x: Set<int>, m0: u32, k: nat) -> nat
    decreases k,
{
    if k == 0 {
        0
    } else {
        word_of(x, m0, (k - 1) as nat) + if x.contains(m0 + k - 1) {
            ancilla_weight((k - 1) as u32)
        } else {
            0
        }
    }
}

/// The error `e` on physical qubit `q` as a Pauli operator.
pub open spec fn error_string(e: PauliError, q: u32) -> PauliString {
    PauliString {
        x: if has_x(e) { set![q as int] } else { Set::empty() },
        z: if has_z(e) { set![q as int] } else { Set::empty() },
        neg: false,
    }
}

proof fn lemma_flipped_below(sched: Seq<(u32, u32)>, j: u32, m0: u32, x: Set<int>, k: nat, r: int)
    requires
        r < m0,
    ensures
        flipped(sched, j, m0, x, k).contains(r) == x.contains(r),
    decreases k,
{
    if k > 0 {
        lemma_flipped_below(sched, j, m0, x, (k - 1) as nat, r);
    }
}

proof fn lemma_h_layer_single(i: u32, j: u32, k: int, p: PauliString)
    requires
        0 <= k <= 7,
        j < 7,
        7 * i + 6 <= u32::MAX,
        forall|r: int|
            #![trigger p.x.contains(r)]
            #![trigger p.z.contains(r)]
            7 * i <= r < 7 * i + 7 && r != 7 * i + j ==> !p.x.contains(r) && !p.z.contains(r),
    ensures
        conj_seq(transversal(Gate::H, i).take(k), p) == if j < k {
            conj_op(PhysOp::H((7 * i + j) as u32), p)
        } else {
            p
        },
    decreases k,
{
    if k > 0 {
        let t = transversal(Gate::H, i);
        lemma_h_layer_single(i, j, k - 1, p);
        assert(t.take(k).drop_last() =~= t.take(k - 1));
        assert(t.take(k).last() == PhysOp::H((7 * i + k - 1) as u32));
        if k - 1 != j {
            let cur = conj_seq(t.take(k - 1), p);
            let r = 7 * i + k - 1;
            assert(!cur.x.contains(r) && !cur.z.contains(r));
            let nxt = conj_op(PhysOp::H(r as u32), cur);
            assert(nxt.x =~= cur.x);
            assert(nxt.z =~= cur.z);
        }
    }
}

proof fn lemma_cx_round_carries_x(
    offset: u32,
    m0: u32,
    sched: Seq<(u32, u32)>,
    j: u32,
    k: nat,
    p: PauliString,
)
    requires
        k <= sched.len(),
        forall|i: int| 0 <= i < sched.len() ==> (#[trigger] sched[i]).0 < 7 && sched[i].1 < 6,
        offset + 7 <= m0,
        m0 + 6 <= u32::MAX,
        j < 7,
        forall|r: int| offset <= r < offset + 7 && r != offset + j ==> !(#[trigger] p.x.contains(r)),
        forall|r: int| m0 <= r < m0 + 6 ==> !(#[trigger] p.z.contains(r)),
    ensures
        conj_seq(cx_round(offset, m0, sched).take(k as int), p) == (PauliString {
            x: if p.x.contains(offset + j) {
                flipped(sched, j, m0, p.x, k)
            } else {
                p.x
            },
            z: p.z,
            neg: p.neg,
        }),
    decreases k,
{
    if k > 0 {
        let c = cx_round(offset, m0, sched);
        lemma_cx_round_carries_x(offset, m0, sched, j, (k - 1) as nat, p);
        assert(c.take(k as int).drop_last() =~= c.take(k - 1));
        let e = sched[k - 1];
        assert(c.take(k as int).last() == PhysOp::Cx((offset + e.0) as u32, (m0 + e.1) as u32));
        let cur = conj_seq(c.take(k - 1), p);
        let cc = offset + e.0;
        let tt = m0 + e.1;
        lemma_flipped_below(sched, j, m0, p.x, (k - 1) as nat, cc);
        assert(cur.x.contains(cc) == (e.0 == j && p.x.contains(offset + j)));
        assert(!cur.z.contains(tt));
        let nxt = conj_op(PhysOp::Cx(cc as u32, tt as u32), cur);
        let want_x = if p.x.contains(offset + j) {
            flipped(sched, j, m0, p.x, k)
        } else {
            p.x
        };
        assert(nxt.x =~= want_x);
        assert(nxt.z =~= p.z);
    }
}

proof fn lemma_measures_inert(m0: u32, k: int, p: PauliString)
    requires
        0 <= k <= 6,
    ensures
        conj_seq(ancilla_measures(m0).take(k), p) == p,
    decreases k,
{
    if k > 0 {
        lemma_measures_inert(m0, k - 1, p);
        assert(ancilla_measures(m0).take(k).drop_last() =~= ancilla_measures(m0).take(k - 1));
    }
}

proof fn lemma_word_of_agree(x: Set<int>, y: Set<int>, m0: u32, k: nat)
    requires
        forall|r: int| m0 <= r < m0 + k ==> (x.contains(r) == y.contains(r)),
    ensures
        word_of(x, m0, k) == word_of(y, m0, k),
    decreases k,
{
    if k > 0 {
        lemma_word_of_agree(x, y, m0, (k - 1) as nat);
    }
}

proof fn lemma_word_of_empty(m0: u32, k: nat)
    ensures
        word_of(Set::empty(), m0, k) == 0,
    decreases k,
{
    if k > 0 {
        lemma_word_of_empty(m0, (k - 1) as nat);
    }
}

proof fn lemma_x_round_word(j: u32, m0: u32, x: Set<int>)
    requires
        j < 7,
        forall|r: int| m0 <= r < m0 + 6 ==> !(#[trigger] x.contains(r)),
    ensures
        word_of(flipped(x_schedule(), j, m0, x, 12), m0, 6) == check_word(x_schedule(), j, 12),
        forall|r: int|
            (r < m0 || r >= m0 + 3) ==> (#[trigger] flipped(x_schedule(), j, m0, x, 12).contains(r)
                == x.contains(r)),
{
    lemma_check_words(j);
    reveal_with_fuel(flipped, 13);
    reveal_with_fuel(word_of, 7);
    assert(!x.contains(m0 + 0) && !x.contains(m0 + 1) && !x.contains(m0 + 2));
    assert(!x.contains(m0 + 3) && !x.contains(m0 + 4) && !x.contains(m0 + 5));
    if j == 0 {} else if j == 1 {} else if j == 2 {} else if j == 3 {}
    else if j == 4 {} else if j == 5 {} else {}
}

proof fn lemma_z_round_word(j: u32, m0: u32, x: Set<int>)
    requires
        j < 7,
        forall|r: int| m0 + 3 <= r < m0 + 6 ==> !(#[trigger] x.contains(r)),
    ensures
        word_of(flipped(z_schedule(), j, m0, x, 12), m0, 6) == word_of(x, m0, 6) + check_word(
            z_schedule(),
            j,
            12,
        ),
        forall|r: int|
            (r < m0 + 3 || r >= m0 + 6) ==> (#[trigger] flipped(z_schedule(), j, m0, x, 12).contains(r)
                == x.contains(r)),
{
    lemma_check_words(j);
    reveal_with_fuel(flipped, 13);
    reveal_with_fuel(word_of, 7);
    assert(!x.contains(m0 + 3) && !x.contains(m0 + 4) && !x.contains(m0 + 5));
    if j == 0 {} else if j == 1 {} else if j == 2 {} else if j == 3 {}
    else if j == 4 {} else if j == 5 {} else {}
}

/// A single error on data qubit `7i + j` passes through the syndrome
/// circuit of block `i` unchanged on the data, and flips exactly the
/// ancillae of its syndrome word: measuring the ancillae reads
/// `error_syndrome(e, j)`, nothing else is touched, and no sign appears.
pub proof fn lemma_round_reads_error(i: u32, n: u32, j: u32, e: PauliError)
    requires
        i < n,
        j < 7,
        7 * n + 6 <= u32::MAX,
    ensures
        ({
            let m0 = (7 * n) as u32;
            let q = (7 * i + j) as u32;
            let r = conj_seq(syndrome_circuit(i, m0), error_string(e, q));
            &&& r.z == error_string(e, q).z
            &&& !r.neg
            &&& forall|d: int| d < m0 ==> (#[trigger] r.x.contains(d) == error_string(e, q).x.contains(d))
            &&& forall|d: int| d >= m0 + 6 ==> !(#[trigger] r.x.contains(d))
            &&& word_of(r.x, m0, 6) == error_syndrome(e, j) as nat
        }),
{
    let m0 = (7 * n) as u32;
    let q = (7 * i + j) as u32;
    let offset = (7 * i) as u32;
    let e0 = error_string(e, q);
    lemma_schedules_in_range();
    let h = transversal(Gate::H, i);
    let xr = cx_round(offset, m0, x_schedule());
    let zr = cx_round(offset, m0, z_schedule());
    let ms = ancilla_measures(m0);
    lemma_conj_append(h + xr + h + zr, ms, e0);
    lemma_conj_append(h + xr + h, zr, e0);
    lemma_conj_append(h + xr, h, e0);
    lemma_conj_append(h, xr, e0);
    assert(h.take(7) =~= h);
    assert(xr.take(12) =~= xr);
    assert(zr.take(12) =~= zr);
    assert(ms.take(6) =~= ms);

    lemma_h_layer_single(i, j, 7, e0);
    let e1 = conj_op(PhysOp::H(q), e0);
    assert(e1.x =~= (if has_z(e) { set![q as int] } else { Set::empty() }));
    assert(e1.z =~= (if has_x(e) { set![q as int] } else { Set::empty() }));

    lemma_cx_round_carries_x(offset, m0, x_schedule(), j, 12, e1);
    let e2 = conj_seq(xr, e1);
    assert forall|r: int|
        #![trigger e2.x.contains(r)]
        #![trigger e2.z.contains(r)]
        7 * i <= r < 7 * i + 7 && r != 7 * i + j implies !e2.x.contains(r) && !e2.z.contains(r) by {
        lemma_flipped_below(x_schedule(), j, m0, e1.x, 12, r);
    }
    lemma_h_layer_single(i, j, 7, e2);
    let e3 = conj_op(PhysOp::H(q), e2);
    lemma_flipped_below(x_schedule(), j, m0, e1.x, 12, q as int);
    assert(e3.x.contains(q as int) == has_x(e));
    assert(!e3.neg);

    lemma_x_round_word(j, m0, e1.x);
    lemma_word_of_agree(e3.x, e2.x, m0, 6);
    assert forall|r: int| m0 + 3 <= r < m0 + 6 implies !(#[trigger] e3.x.contains(r)) by {
        assert(e2.x.contains(r) == e1.x.contains(r));
    }
    lemma_cx_round_carries_x(offset, m0, z_schedule(), j, 12, e3);
    let e4 = conj_seq(zr, e3);
    lemma_z_round_word(j, m0, e3.x);
    lemma_measures_inert(m0, 6, e4);
    lemma_word_of_empty(m0, 6);
    lemma_word_of_agree(e1.x, Set::empty(), m0, 6);
    lemma_check_words(j);

    assert forall|d: int| d < m0 implies (#[trigger] e4.x.contains(d) == e0.x.contains(d)) by {
        lemma_flipped_below(z_schedule(), j, m0, e3.x, 12, d);
        lemma_flipped_below(x_schedule(), j, m0, e1.x, 12, d);
    }
    assert(e4.z =~= e0.z);
}

/// The Pauli frame `f` multiplied by the Pauli gates of `ops` in order,
/// up to phase: each X, Y or Z flips the X part, both parts or the Z part of
/// its qubit. Other operations are not Pauli gates and leave `f` as it is.
pub open spec fn times_paulis(ops: Seq<PhysOp>, f: PauliString) -> PauliString
    decreases ops.len(),
{
    if ops.len() == 0 {
        f
    } else {
        let g = times_paulis(ops.drop_last(), f);
        match ops.last() {
            PhysOp::X(q) => PauliString { x: toggle(g.x, q as int), z: g.z, neg: g.neg },
            PhysOp::Z(q) => PauliString { x: g.x, z: toggle(g.z, q as int), neg: g.neg },
            PhysOp::Y(q) => PauliString { x: toggle(g.x, q as int), z: toggle(g.z, q as int), neg: g.neg },
            _ => g,
        }
    }
}

proof fn lemma_times_append(a: Seq<PhysOp>, b: Seq<PhysOp>, f: PauliString)
    ensures
        times_paulis(a + b, f) == times_paulis(b, times_paulis(a, f)),
    decreases b.len(),
{
    if b.len() == 0 {
        assert(a + b =~= a);
    } else {
        lemma_times_append(a, b.drop_last(), f);
        assert((a + b).drop_last() =~= a + b.drop_last());
        assert((a + b).last() == b.last());
    }
}

/// The bits of a syndrome word below 64 are those of its ancilla reading.
proof fn lemma_word_bits(x: Set<int>, m0: u32, s: u8)
    requires
        word_of(x, m0, 6) == s as nat,
    ensures
        forall|a: u8| a < 6 ==> (#[trigger] syndrome_bit(s, a) == x.contains(m0 + a)),
{
    reveal_with_fuel(word_of, 7);
    let b0 = (s >> 0u8) & 1u8;
    let b1 = (s >> 1u8) & 1u8;
    let b2 = (s >> 2u8) & 1u8;
    let b3 = (s >> 3u8) & 1u8;
    let b4 = (s >> 4u8) & 1u8;
    let b5 = (s >> 5u8) & 1u8;
    assert(s < 64 ==> (s == b0 + 2 * b1 + 4 * b2 + 8 * b3 + 16 * b4 + 32 * b5 && b0 < 2 && b1 < 2
        && b2 < 2 && b3 < 2 && b4 < 2 && b5 < 2)) by (bit_vector)
        requires
            b0 == (s >> 0u8) & 1u8,
            b1 == (s >> 1u8) & 1u8,
            b2 == (s >> 2u8) & 1u8,
            b3 == (s >> 3u8) & 1u8,
            b4 == (s >> 4u8) & 1u8,
            b5 == (s >> 5u8) & 1u8,
    ;
    assert(s < 64);
    assert forall|a: u8| a < 6 implies (#[trigger] syndrome_bit(s, a) == x.contains(m0 + a)) by {
        if a == 0 {} else if a == 1 {} else if a == 2 {} else if a == 3 {} else if a == 4 {} else {}
    }
}

proof fn lemma_resets_clear(s: u8, m0: u32, k: nat, f: PauliString)
    requires
        k <= 6,
        m0 + 6 <= u32::MAX,
    ensures
        times_paulis(ancilla_resets(s, m0, k), f).z == f.z,
        forall|r: int|
            #[trigger] times_paulis(ancilla_resets(s, m0, k), f).x.contains(r) == if m0 <= r < m0 + k
                && syndrome_bit(s, (r - m0) as u8) {
                !f.x.contains(r)
            } else {
                f.x.contains(r)
            },
    decreases k,
{
    if k > 0 {
        let j = (k - 1) as nat;
        lemma_resets_clear(s, m0, j, f);
        let tail = if syndrome_bit(s, j as u8) {
            seq![PhysOp::X((m0 + j) as u32)]
        } else {
            Seq::empty()
        };
        lemma_times_append(ancilla_resets(s, m0, j), tail, f);
        reveal_with_fuel(times_paulis, 2);
        assert(tail.len() > 0 ==> tail.drop_last() =~= Seq::<PhysOp>::empty());
        let prev = times_paulis(ancilla_resets(s, m0, j), f);
        let cur = times_paulis(ancilla_resets(s, m0, k), f);
        assert forall|r: int| #[trigger] cur.x.contains(r) == if m0 <= r < m0 + k && syndrome_bit(
            s,
            (r - m0) as u8,
        ) {
            !f.x.contains(r)
        } else {
            f.x.contains(r)
        } by {
            assert(prev.x.contains(r) == if m0 <= r < m0 + j && syndrome_bit(s, (r - m0) as u8) {
                !f.x.contains(r)
            } else {
                f.x.contains(r)
            });
            if r == m0 + j {
                assert((r - m0) as u8 == j as u8);
            }
        }
    }
}

/// A single error on a block, carried through the block's syndrome circuit
/// and then multiplied by the recovery for the syndrome the round reads,
/// leaves no error anywhere: the data qubits are back to their state before
/// the error and the ancillae are back in |0> (up to a global phase).
pub proof fn lemma_round_corrects_error(i: u32, n: u32, j: u32, e: PauliError)
    requires
        i < n,
        j < 7,
        7 * n + 6 <= u32::MAX,
    ensures
        ({
            let m0 = (7 * n) as u32;
            let q = (7 * i + j) as u32;
            let r = conj_seq(syndrome_circuit(i, m0), error_string(e, q));
            let left = times_paulis(recovery(error_syndrome(e, j), i, m0), r);
            &&& left.x == Set::<int>::empty()
            &&& left.z == Set::<int>::empty()
        }),
{
    let m0 = (7 * n) as u32;
    let q = (7 * i + j) as u32;
    let s = error_syndrome(e, j);
    let r = conj_seq(syndrome_circuit(i, m0), error_string(e, q));
    lemma_round_reads_error(i, n, j, e);
    lemma_syndrome_locates_error(i, j, e);
    lemma_word_bits(r.x, m0, s);
    let resets = ancilla_resets(s, m0, 6);
    let fixes = corrections(s, (7 * i) as u32);
    lemma_times_append(resets, fixes, r);
    lemma_resets_clear(s, m0, 6, r);
    assert(recovery(s, i, m0) == resets + fixes);
    let mid = times_paulis(resets, r);
    assert forall|d: int| #[trigger] mid.x.contains(d) <==> (d == q && has_x(e)) by {
        if m0 <= d < m0 + 6 {
            assert(syndrome_bit(s, (d - m0) as u8) == r.x.contains(m0 + (d - m0) as u8));
        }
    }
    reveal_with_fuel(times_paulis, 3);
    let fin = times_paulis(fixes, mid);
    assert(fin.x =~= Set::<int>::empty()) by {
        if has_z(e) && has_x(e) {
            assert(fixes.drop_last() =~= seq![PhysOp::Z(q)]);
            assert(seq![PhysOp::Z(q)].drop_last() =~= Seq::<PhysOp>::empty());
        } else if has_z(e) {
            assert(fixes.drop_last() =~= Seq::<PhysOp>::empty());
        } else {
            assert(fixes.drop_last() =~= Seq::<PhysOp>::empty());
        }
    }
    assert(fin.z =~= Set::<int>::empty()) by {
        if has_z(e) && has_x(e) {
            assert(fixes.drop_last() =~= seq![PhysOp::Z(q)]);
            assert(seq![PhysOp::Z(q)].drop_last() =~= Seq::<PhysOp>::empty());
        } else if has_z(e) {
            assert(fixes.drop_last() =~= Seq::<PhysOp>::empty());
        } else {
            assert(fixes.drop_last() =~= Seq::<PhysOp>::empty());
        }
    }
    assert(recovery(s, i, m0) == resets + fixes);
}

proof fn lemma_no_error_stays(ops: Seq<PhysOp>, f: PauliString)
    requires
        f.x == Set::<int>::empty(),
        f.z == Set::<int>::empty(),
    ensures
        conj_seq(ops, f).x == Set::<int>::empty(),
        conj_seq(ops, f).z == Set::<int>::empty(),
    decreases ops.len(),
{
    if ops.len() > 0 {
        lemma_no_error_stays(ops.drop_last(), f);
        let g = conj_seq(ops.drop_last(), f);
        let h = conj_op(ops.last(), g);
        assert(h.x =~= Set::<int>::empty());
        assert(h.z =~= Set::<int>::empty());
    }
}

/// Right after a round has corrected a single error, a second round finds
/// nothing: its ancillae read syndrome 0, so recovery emits no operation and
/// the report names no qubit.
pub proof fn lemma_second_round_quiet(i: u32, n: u32, j: u32, e: PauliError)
    requires
        i < n,
        j < 7,
        7 * n + 6 <= u32::MAX,
    ensures
        ({
            let m0 = (7 * n) as u32;
            let q = (7 * i + j) as u32;
            let r = conj_seq(syndrome_circuit(i, m0), error_string(e, q));
            let left = times_paulis(recovery(error_syndrome(e, j), i, m0), r);
            let again = conj_seq(syndrome_circuit(i, m0), left);
            &&& again.x == Set::<int>::empty()
            &&& again.z == Set::<int>::empty()
            &&& word_of(again.x, m0, 6) == 0
            &&& recovery(0u8, i, m0) == Seq::<PhysOp>::empty()
            &&& report_for(i, 0u8).z_correction is None
            &&& report_for(i, 0u8).x_correction is None
        }),
{
    let m0 = (7 * n) as u32;
    let q = (7 * i + j) as u32;
    let r = conj_seq(syndrome_circuit(i, m0), error_string(e, q));
    let left = times_paulis(recovery(error_syndrome(e, j), i, m0), r);
    lemma_round_corrects_error(i, n, j, e);
    lemma_no_error_stays(syndrome_circuit(i, m0), left);
    lemma_word_of_empty(m0, 6);
    lemma_quiet_block(i, m0);
}

/// A syndrome round on block `i`, as `send` runs it, where the bits read
/// back from the simulator show on slots `0..6` the ancillae that the
/// block's circuit carries a single error `e` on qubit `7i + j` to: the word
/// used is that error's syndrome, the report names the qubit of the error,
/// and the recovery left pending is the one that removes the error
/// (`lemma_round_corrects_error`).
pub proof fn lemma_block_round_on_error(st: FrameState, n: u32, i: u32, j: u32, e: PauliError)
    requires
        i < n,
        j < 7,
        7 * n + 6 <= u32::MAX,
        block_round(st, n, i).reads.last().len() >= 6,
        forall|a: int|
            0 <= a < 6 ==> #[trigger] block_round(st, n, i).reads.last()[a] == conj_seq(
                syndrome_circuit(i, (7 * n) as u32),
                error_string(e, (7 * i + j) as u32),
            ).x.contains(7 * n + a),
    ensures
        syndrome_word(block_round(st, n, i).reads.last()) == error_syndrome(e, j),
        block_round(st, n, i).pending == recovery(error_syndrome(e, j), i, (7 * n) as u32),
        block_round(st, n, i).reports.last().z_correction == (if has_z(e) {
            Some((7 * i + j) as u32)
        } else {
            None
        }),
        block_round(st, n, i).reports.last().x_correction == (if has_x(e) {
            Some((7 * i + j) as u32)
        } else {
            None
        }),
{
    let m0 = (7 * n) as u32;
    let b = block_round(st, n, i).reads.last();
    let r = conj_seq(syndrome_circuit(i, m0), error_string(e, (7 * i + j) as u32));
    lemma_round_reads_error(i, n, j, e);
    lemma_syndrome_locates_error(i, j, e);
    reveal_with_fuel(word_of, 7);
    assert(b[0] == r.x.contains(m0 + 0) && b[1] == r.x.contains(m0 + 1) && b[2] == r.x.contains(m0 + 2));
    assert(b[3] == r.x.contains(m0 + 3) && b[4] == r.x.contains(m0 + 4) && b[5] == r.x.contains(m0 + 5));
    assert(syndrome_word(b) as nat == word_of(r.x, m0, 6));
}

/// A syndrome round on block `i`, as `send` runs it, where the bits read
/// back show no flipped ancilla (a block in the code space, or one whose
/// error the previous round removed): the word is 0, nothing becomes
/// pending and the report names no qubit.
pub proof fn lemma_block_round_quiet(st: FrameState, n: u32, i: u32)
    requires
        block_round(st, n, i).reads.last().len() >= 6,
        forall|a: int| 0 <= a < 6 ==> !(#[trigger] block_round(st, n, i).reads.last()[a]),
    ensures
        syndrome_word(block_round(st, n, i).reads.last()) == 0,
        block_round(st, n, i).pending == Seq::<PhysOp>::empty(),
        block_round(st, n, i).reports.last().z_correction is None,
        block_round(st, n, i).reports.last().x_correction is None,
{
    let b = block_round(st, n, i).reads.last();
    assert(!b[0] && !b[1] && !b[2] && !b[3] && !b[4] && !b[5]);
    lemma_quiet_block(i, (7 * n) as u32);
}

} // verus!
