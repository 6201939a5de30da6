//! The memory as a capability of a proving backend: the interface the
//! circuit evaluator calls, and the two parties' backends that offer it.
use vstd::prelude::*;

use crate::error::RamError;
use crate::field::{elem_at, elem_ok, fmul, fsub, p, Fp};
use crate::homcom::{prover_public, HomcomProver, HomcomVerifier, MacProver, MacVerifier};
use crate::ram::memory::logged_access;
use crate::ram::perm::{perm_accepts, words_ok};
use crate::ram::{MemoryProver, MemoryVerifier};

verus! {

/// A backend that offers a memory over its committed wires.
pub trait BackendRamT {
    type Wire;

    spec fn ready(&self) -> bool;

    /// Ends the memory, running its permutation argument.
    fn finalize_ram(&mut self) -> (r: Result<(), RamError>)
        requires
            old(self).ready(),
        ensures
            final(self).ready(),
    ;

    fn ram_read(&mut self, addr: &Self::Wire) -> (r: Result<Self::Wire, RamError>)
        requires
            old(self).ready(),
        ensures
            final(self).ready(),
    ;

    fn ram_write(&mut self, addr: &Self::Wire, new: &Self::Wire) -> (r: Result<(), RamError>)
        requires
            old(self).ready(),
        ensures
            final(self).ready(),
    ;
}

fn append_all(v: &mut Vec<u8>, b: Vec<u8>)
    ensures
        final(v)@ == old(v)@ + b@,
{
    let mut b = b;
    v.append(&mut b);
}

/// The prover's backend: its commitments and its memory, sharing one
/// channel.
pub struct RamProverBackend {
    hp: HomcomProver,
    mem: MemoryProver,
    pending: Vec<u8>,
}

impl RamProverBackend {
    pub closed spec fn wf(self) -> bool {
        self.hp.wf() && self.mem.wf()
    }

    pub closed spec fn memory(self) -> MemoryProver {
        self.mem
    }

    pub closed spec fn commitments(self) -> HomcomProver {
        self.hp
    }

    /// Bytes of ended memories not yet taken for sending.
    pub closed spec fn pending_bytes(self) -> Seq<u8> {
        self.pending@
    }

    /// A backend with the given correlated pairs and a memory of `bound`
    /// addresses.
    pub fn new(voles: Vec<(Fp, Fp)>, bound: usize) -> (r: RamProverBackend)
        requires
            bound as int <= p(),
        ensures
            r.wf(),
            r.memory().bound() == bound,
            r.memory().values() == Map::<u64, int>::empty(),
            r.memory().read_count() == 0,
            r.memory().in_range(),
            r.commitments().unused() == voles@,
    {
        RamProverBackend { hp: HomcomProver::new(voles), mem: MemoryProver::new(bound), pending: Vec::new() }
    }

    /// Commits to a private value.
    pub fn input_private(&mut self, x: Fp) -> (r: Result<MacProver, RamError>)
        requires
            old(self).wf(),
        ensures
            final(self).wf(),
            final(self).memory().values() == old(self).memory().values(),
            final(self).memory().bound() == old(self).memory().bound(),
            final(self).memory().in_range() == old(self).memory().in_range(),
            old(self).commitments().unused().len() > 0 <==> r is Ok,
            r matches Ok(w) ==> w.value == x,
    {
        self.mem.commit(&mut self.hp, x)
    }

    /// Commits to a value both parties know.
    pub fn input_public(&self, c: Fp) -> (r: MacProver)
        ensures
            r.value == c,
            r.tag.val() == 0,
    {
        prover_public(c)
    }

    /// The memory's read, with its full contract.
    pub fn read(&mut self, addr: MacProver) -> (r: Result<MacProver, RamError>)
        requires
            old(self).wf(),
        ensures
            final(self).wf(),
            final(self).memory().bound() == old(self).memory().bound(),
            old(self).commitments().unused().len() >= 3 <==> r is Ok,
            r matches Ok(v) ==> ({
                let k = addr.value.val() as u64;
                &&& v.value.val() == crate::ram::prover_ram::read_spec(old(self).memory().values(), k)
                &&& final(self).memory().values() == old(self).memory().values().insert(k, v.value.val())
                &&& final(self).memory().in_range() == (old(self).memory().in_range() && (k as int) < old(
                    self,
                ).memory().bound())
            }),
    {
        self.mem.read(&mut self.hp, addr)
    }

    /// The memory's write, with its full contract.
    pub fn write(&mut self, addr: MacProver, value: MacProver) -> (r: Result<(), RamError>)
        requires
            old(self).wf(),
        ensures
            final(self).wf(),
            final(self).memory().bound() == old(self).memory().bound(),
            old(self).commitments().unused().len() >= 3 <==> r is Ok,
            r is Ok ==> ({
                let k = addr.value.val() as u64;
                &&& final(self).memory().values() == old(self).memory().values().insert(k, value.value.val())
                &&& final(self).memory().in_range() == (old(self).memory().in_range() && (k as int) < old(
                    self,
                ).memory().bound())
            }),
    {
        self.mem.write(&mut self.hp, addr, value)
    }

    /// Ends the memory and then checks every product: where every access
    /// stayed within the bound and the pairs suffice, it succeeds.
    pub fn finalize(&mut self) -> (r: Result<(), RamError>)
        requires
            old(self).wf(),
        ensures
            final(self).wf(),
            !final(self).memory().started(),
            r is Err ==> r == Err::<(), RamError>(RamError::Exhausted) || r == Err::<(), RamError>(
                RamError::CheckFailed,
            ),
            old(self).memory().in_range() ==> r != Err::<(), RamError>(RamError::CheckFailed),
            old(self).commitments().unused().len() >= 5 * old(self).memory().bound() + old(
                self,
            ).memory().read_count() + old(self).memory().write_count() + 1 && old(self).memory().in_range()
                ==> r is Ok,
            !old(self).memory().started() ==> r is Ok && final(self).commitments() == old(self).commitments()
                && final(self).pending_bytes() == old(self).pending_bytes(),
    {
        if !self.mem.is_started() {
            return Ok(());
        }
        let mut ch = self.mem.finalize(&mut self.hp)?;
        self.hp.finalize(&mut ch)?;
        let b = ch.take_outgoing();
        append_all(&mut self.pending, b);
        Ok(())
    }

    /// Bytes written for the verifier and not yet taken.
    pub fn take_outgoing(&mut self) -> (r: Vec<u8>)
        requires
            old(self).wf(),
        ensures
            final(self).wf(),
            final(self).memory().values() == old(self).memory().values(),
            final(self).memory().bound() == old(self).memory().bound(),
            final(self).memory().in_range() == old(self).memory().in_range(),
            final(self).commitments() == old(self).commitments(),
    {
        let mut out: Vec<u8> = Vec::new();
        std::mem::swap(&mut out, &mut self.pending);
        let rest = self.mem.take_outgoing();
        append_all(&mut out, rest);
        out
    }
}

impl BackendRamT for RamProverBackend {
    type Wire = MacProver;

    open spec fn ready(&self) -> bool {
        self.wf()
    }

    fn finalize_ram(&mut self) -> (r: Result<(), RamError>) {
        self.finalize()
    }

    fn ram_read(&mut self, addr: &MacProver) -> (r: Result<MacProver, RamError>) {
        self.read(*addr)
    }

    fn ram_write(&mut self, addr: &MacProver, new: &MacProver) -> (r: Result<(), RamError>) {
        self.write(*addr, *new)
    }
}

/// The verifier's backend: its commitments and its memory, sharing one
/// channel.
pub struct RamVerifierBackend {
    hv: HomcomVerifier,
    mem: MemoryVerifier,
}

impl RamVerifierBackend {
    pub closed spec fn wf(self) -> bool {
        self.hv.wf() && self.mem.wf()
    }

    pub closed spec fn memory(self) -> MemoryVerifier {
        self.mem
    }

    pub closed spec fn commitments(self) -> HomcomVerifier {
        self.hv
    }

    /// A backend with global key `delta`, the given correlated keys and a
    /// memory of `bound` addresses.
    pub fn new(delta: Fp, keys: Vec<Fp>, bound: usize) -> (r: RamVerifierBackend)
        requires
            bound as int <= p(),
        ensures
            r.wf(),
            r.memory().bound() == bound,
            r.memory().read_count() == 0,
            r.commitments().delta() == delta,
            r.commitments().unused() == keys@,
    {
        RamVerifierBackend { hv: HomcomVerifier::new(delta, keys), mem: MemoryVerifier::new(bound) }
    }

    /// Receives a commitment to the prover's private value.
    pub fn input_private(&mut self) -> (r: Result<MacVerifier, RamError>)
        requires
            old(self).wf(),
        ensures
            final(self).wf(),
            final(self).memory().read_count() == old(self).memory().read_count(),
            final(self).commitments().delta() == old(self).commitments().delta(),
            r is Ok <==> old(self).commitments().unused().len() > 0 && elem_ok(old(self).memory().incoming(), 0),
            r matches Ok(k) ==> k.key.val() == fsub(
                old(self).commitments().unused()[0].val(),
                fmul(elem_at(old(self).memory().incoming(), 0), old(self).commitments().delta().val()),
            ),
    {
        self.mem.commit(&mut self.hv)
    }

    /// Commits to a value both parties know.
    pub fn input_public(&self, c: Fp) -> (r: MacVerifier)
        requires
            self.wf(),
        ensures
            r.key.val() == fsub(0, fmul(c.val(), self.commitments().delta().val())),
    {
        self.hv.input_public(c)
    }

    /// The memory's read, with its full contract.
    pub fn read(&mut self, addr: MacVerifier) -> (r: Result<MacVerifier, RamError>)
        requires
            old(self).wf(),
        ensures
            final(self).wf(),
            final(self).memory().bound() == old(self).memory().bound(),
            final(self).commitments().delta() == old(self).commitments().delta(),
            r is Ok <==> old(self).commitments().unused().len() >= 3 && elem_ok(old(self).memory().incoming(), 0)
                && elem_ok(old(self).memory().incoming(), 1) && elem_ok(old(self).memory().incoming(), 2),
            r matches Ok(k) ==> k.key.val() == fsub(
                old(self).commitments().unused()[0].val(),
                fmul(elem_at(old(self).memory().incoming(), 0), old(self).commitments().delta().val()),
            ),
            r matches Ok(k) ==> logged_access(old(self).memory(), final(self).memory(), old(self).commitments(), addr, k),
            final(self).memory().read_count() == final(self).memory().write_count(),
    {
        self.mem.read(&mut self.hv, addr)
    }

    /// The memory's write, with its full contract.
    pub fn write(&mut self, addr: MacVerifier, value: MacVerifier) -> (r: Result<(), RamError>)
        requires
            old(self).wf(),
        ensures
            final(self).wf(),
            final(self).memory().bound() == old(self).memory().bound(),
            final(self).commitments().delta() == old(self).commitments().delta(),
            r is Ok <==> old(self).commitments().unused().len() >= 3 && elem_ok(old(self).memory().incoming(), 0)
                && elem_ok(old(self).memory().incoming(), 1) && elem_ok(old(self).memory().incoming(), 2),
            r is Ok ==> logged_access(old(self).memory(), final(self).memory(), old(self).commitments(), addr, value),
            final(self).memory().read_count() == final(self).memory().write_count(),
    {
        self.mem.write(&mut self.hv, addr, value)
    }

    /// Ends the memory and then checks every product. A memory never
    /// accessed leaves only the product check. Otherwise the memory must
    /// accept as `MemoryVerifier::finalize` states, and the products must
    /// pass the check that `HomcomVerifier::finalize` states, on what is
    /// left.
    pub fn finalize(&mut self) -> (r: Result<(), RamError>)
        requires
            old(self).wf(),
        ensures
            final(self).wf(),
            !final(self).memory().started(),
            final(self).commitments().delta() == old(self).commitments().delta(),
            old(self).memory().started() && r is Ok ==> ({
                let b = old(self).memory().bound() as int;
                let u = old(self).commitments().unused();
                let inc = old(self).memory().incoming();
                &&& u.len() >= 3 * b
                &&& words_ok(inc, 0, 3 * b)
                &&& perm_accepts(
                    u.subrange(3 * b, u.len() as int),
                    inc.subrange(24 * b, inc.len() as int),
                    old(self).memory().write_count() + b,
                    old(self).memory().read_count() + b,
                    old(self).commitments().delta().val(),
                )
            }),
            !old(self).memory().started() ==> r is Ok && final(self).commitments() == old(self).commitments(),
    {
        if !self.mem.is_started() {
            return Ok(());
        }
        let mut ch = self.mem.finalize(&mut self.hv)?;
        self.hv.finalize(&mut ch)
    }

    /// Hands over bytes that arrived from the prover.
    pub fn deliver(&mut self, b: &[u8])
        requires
            old(self).wf(),
        ensures
            final(self).wf(),
            final(self).memory().read_count() == old(self).memory().read_count(),
            final(self).memory().incoming() == old(self).memory().incoming() + b@,
            final(self).memory().started() == (old(self).memory().started() || b@.len() > 0),
            final(self).commitments() == old(self).commitments(),
    {
        self.mem.deliver(b)
    }
}

impl BackendRamT for RamVerifierBackend {
    type Wire = MacVerifier;

    open spec fn ready(&self) -> bool {
        self.wf()
    }

    fn finalize_ram(&mut self) -> (r: Result<(), RamError>) {
        self.finalize()
    }

    fn ram_read(&mut self, addr: &MacVerifier) -> (r: Result<MacVerifier, RamError>) {
        self.read(*addr)
    }

    fn ram_write(&mut self, addr: &MacVerifier, new: &MacVerifier) -> (r: Result<(), RamError>) {
        self.write(*addr, *new)
    }
}

} // verus!
