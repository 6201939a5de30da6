//! What the memory's contracts add up to, stated over histories.
use vstd::prelude::*;

use crate::ram::prover_ram::read_spec;
use crate::tx::{challenge_of, reads_only, sends_only, TxChannel};

verus! {

/// One access of the memory, as the circuit issues it.
pub enum MemOp {
    Read(u64),
    Write(u64, int),
}

/// The contents after one access: a read puts back what it found, a
/// write stores its value.
pub open spec fn apply_op(m: Map<u64, int>, op: MemOp) -> Map<u64, int> {
    match op {
        MemOp::Read(a) => m.insert(a, read_spec(m, a)),
        MemOp::Write(a, v) => m.insert(a, v),
    }
}

/// The contents after a history of accesses to a fresh memory.
pub open spec fn replay(ops: Seq<MemOp>) -> Map<u64, int>
    decreases ops.len(),
{
    if ops.len() == 0 {
        Map::empty()
    } else {
        apply_op(replay(ops.drop_last()), ops.last())
    }
}

/// Whether an access writes address `a`.
pub open spec fn is_write_to(op: MemOp, a: u64) -> bool {
    match op {
        MemOp::Write(b, _) => b == a,
        MemOp::Read(_) => false,
    }
}

/// Whether some access of the history writes address `a`.
pub open spec fn writes_to(ops: Seq<MemOp>, a: u64) -> bool {
    exists|i: int| 0 <= i < ops.len() && is_write_to(#[trigger] ops[i], a)
}

/// A read right after writing `v` to an address returns `v`.
pub proof fn lemma_round_trip(m: Map<u64, int>, a: u64, v: int)
    ensures
        read_spec(apply_op(m, MemOp::Write(a, v)), a) == v,
        apply_op(apply_op(m, MemOp::Write(a, v)), MemOp::Read(a)) == apply_op(m, MemOp::Write(a, v)),
{
    assert(apply_op(apply_op(m, MemOp::Write(a, v)), MemOp::Read(a)) =~= apply_op(m, MemOp::Write(a, v)));
}

/// An address that no access of the history wrote reads as zero.
pub proof fn lemma_default_read(ops: Seq<MemOp>, a: u64)
    requires
        !writes_to(ops, a),
    ensures
        read_spec(replay(ops), a) == 0,
    decreases ops.len(),
{
    if ops.len() > 0 {
        let t = ops.drop_last();
        assert(!writes_to(t, a)) by {
            if writes_to(t, a) {
                let i = choose|i: int| 0 <= i < t.len() && is_write_to(#[trigger] t[i], a);
                assert(ops[i] == t[i]);
            }
        }
        lemma_default_read(t, a);
        assert(!is_write_to(ops[ops.len() - 1], a));
    }
}

/// A second write to an address replaces the first.
pub proof fn lemma_overwrite(m: Map<u64, int>, a: u64, v1: int, v2: int)
    ensures
        read_spec(apply_op(apply_op(m, MemOp::Write(a, v1)), MemOp::Write(a, v2)), a) == v2,
{
}

/// Accesses to other addresses leave an address's value alone.
pub proof fn lemma_other_address(m: Map<u64, int>, op: MemOp, a: u64)
    requires
        match op {
            MemOp::Read(b) => b != a,
            MemOp::Write(b, _) => b != a,
        },
    ensures
        read_spec(apply_op(m, op), a) == read_spec(m, a),
{
}

/// Whether a prover's and a verifier's channel are in lock-step: the
/// prover has absorbed what the verifier has absorbed, then what was
/// delivered to the verifier and not read yet, then what the prover still
/// has queued.
pub open spec fn lockstep(pch: TxChannel, vch: TxChannel) -> bool {
    pch.transcript() == vch.transcript() + vch.incoming() + pch.outgoing()
}

/// Two fresh channels are in lock-step.
pub proof fn lemma_lockstep_start(pch: TxChannel, vch: TxChannel)
    requires
        pch.transcript().len() == 0,
        pch.outgoing().len() == 0,
        vch.transcript().len() == 0,
        vch.incoming().len() == 0,
    ensures
        lockstep(pch, vch),
{
    assert(pch.transcript() == vch.transcript() + vch.incoming() + pch.outgoing());
}

/// A prover step that only sends keeps lock-step.
pub proof fn lemma_lockstep_send(p1: TxChannel, p2: TxChannel, vch: TxChannel)
    requires
        lockstep(p1, vch),
        sends_only(p1, p2),
    ensures
        lockstep(p2, vch),
{
    let n = p1.outgoing().len() as int;
    let m = p2.outgoing().subrange(n, p2.outgoing().len() as int);
    let (t, i) = (vch.transcript(), vch.incoming());
    assert(p2.outgoing() == p1.outgoing() + m);
    assert(p2.transcript() == (t + i + p1.outgoing()) + m);
    assert((t + i + p1.outgoing()) + m == t + i + (p1.outgoing() + m));
}

/// A verifier step that only reads keeps lock-step.
pub proof fn lemma_lockstep_read(pch: TxChannel, v1: TxChannel, v2: TxChannel)
    requires
        lockstep(pch, v1),
        reads_only(v1, v2),
    ensures
        lockstep(pch, v2),
{
    let k = v1.incoming().len() - v2.incoming().len();
    let x = v1.incoming().subrange(0, k);
    let o = pch.outgoing();
    assert(v1.incoming() == x + v2.incoming());
    assert(pch.transcript() == v1.transcript() + (x + v2.incoming()) + o);
    assert(v1.transcript() + (x + v2.incoming()) == (v1.transcript() + x) + v2.incoming());
}

/// Handing the prover's queued bytes to the verifier keeps lock-step.
pub proof fn lemma_lockstep_deliver(p1: TxChannel, p2: TxChannel, v1: TxChannel, v2: TxChannel)
    requires
        lockstep(p1, v1),
        p2.transcript() == p1.transcript(),
        p2.outgoing().len() == 0,
        v2.transcript() == v1.transcript(),
        v2.incoming() == v1.incoming() + p1.outgoing(),
    ensures
        lockstep(p2, v2),
{
    assert(p2.transcript() == v2.transcript() + v2.incoming() + p2.outgoing());
}

/// In lock-step with nothing in flight, the two transcripts are the same,
/// so both parties derive the same challenges.
pub proof fn lemma_lockstep_challenges(pch: TxChannel, vch: TxChannel)
    requires
        lockstep(pch, vch),
        vch.incoming().len() == 0,
        pch.outgoing().len() == 0,
    ensures
        pch.transcript() == vch.transcript(),
        challenge_of(pch.transcript()) == challenge_of(vch.transcript()),
{
    assert(vch.transcript() + vch.incoming() + pch.outgoing() == vch.transcript());
}

} // verus!
