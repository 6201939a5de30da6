//! The memory as the circuit evaluator sees it: `read`, `write` and one
//! final `finalize`, each access a remove followed by an insert.
use vstd::prelude::*;

use crate::error::RamError;
use crate::field::{elem_at, elem_ok, fmul, fsub, p, Fp};
use crate::homcom::{HomcomProver, HomcomVerifier, MacProver, MacVerifier};
use crate::ram::prover_ram::{read_spec, Prover};
use crate::ram::verifier_ram::{public_key, read_keys, Verifier};
use crate::ram::perm::{perm_accepts, words_ok};
use crate::ram::{Bounded, SIZE_DIM};
use crate::tx::{challenge_of, TxChannel};

verus! {

/// The number of addresses of a memory made by `default`.
pub const RAM_SIZE: usize = 1048576;

/// How many correlated pairs one memory uses when the circuit commits
/// `commits` values and makes `accesses` reads and writes over `bound`
/// addresses: three per access and per drained address, two products
/// per record of each log, and one mask for the product check; `None`
/// where that overflows.
pub fn correlations_needed(commits: usize, accesses: usize, bound: usize) -> (r: Option<usize>)
    ensures
        commits + 5 * accesses + 5 * bound + 1 <= usize::MAX ==> r == Some((commits + 5 * accesses + 5 * bound
            + 1) as usize),
        commits + 5 * accesses + 5 * bound + 1 > usize::MAX ==> r is None,
{
    let a = accesses.checked_mul(5)?;
    let b = bound.checked_mul(5)?;
    let s = commits.checked_add(a)?;
    let s = s.checked_add(b)?;
    s.checked_add(1)
}

/// The records one access of the verifier's memory logs: a read record
/// of the address with the three keys received, and a write record of
/// the address, the new value's key and the public challenge drawn after
/// the read.
pub open spec fn logged_access(
    m1: MemoryVerifier,
    m2: MemoryVerifier,
    hv: HomcomVerifier,
    addr: MacVerifier,
    value: MacVerifier,
) -> bool {
    let inc = m1.incoming();
    let delta = hv.delta().val();
    let c = challenge_of(m1.transcript() + inc.subrange(0, 24));
    let e = m2.read_log().last();
    let w = m2.write_log().last();
    &&& m2.read_log().len() == m1.read_log().len() + 1
    &&& m2.read_log().drop_last() == m1.read_log()
    &&& m2.write_log().len() == m1.write_log().len() + 1
    &&& m2.write_log().drop_last() == m1.write_log()
    &&& e[0] == addr
    &&& read_keys(e, hv.unused(), inc, 0, delta)
    &&& w[0] == addr && w[1] == value
    &&& w[2].key.val() == public_key(c.0, delta)
    &&& w[3].key.val() == public_key(c.1, delta)
}

/// The prover's memory; the underlying `Prover` is made on first access.
pub struct MemoryProver {
    bound: usize,
    prover: Option<Prover>,
}

impl MemoryProver {
    pub closed spec fn wf(self) -> bool {
        &&& self.bound as int <= p()
        &&& match self.prover {
            Some(pr) => pr.wf() && pr.settled() && pr.space().spec_bound() == self.bound,
            None => true,
        }
    }

    /// The number of addresses.
    pub closed spec fn bound(self) -> nat {
        self.bound as nat
    }

    /// Whether the memory has been accessed since it was made or last
    /// ended.
    pub closed spec fn started(self) -> bool {
        self.prover is Some
    }

    /// The value of each address written or read so far.
    pub closed spec fn values(self) -> Map<u64, int> {
        match self.prover {
            Some(pr) => pr.values(),
            None => Map::empty(),
        }
    }

    pub closed spec fn read_count(self) -> nat {
        match self.prover {
            Some(pr) => pr.read_log().len(),
            None => 0,
        }
    }

    pub closed spec fn write_count(self) -> nat {
        match self.prover {
            Some(pr) => pr.write_log().len(),
            None => 0,
        }
    }

    /// Whether every address accessed so far is below the bound.
    pub closed spec fn in_range(self) -> bool {
        match self.prover {
            Some(pr) => pr.within_space(),
            None => true,
        }
    }

    pub fn is_started(&self) -> (r: bool)
        ensures
            r == self.started(),
    {
        self.prover.is_some()
    }

    /// A memory of addresses `0..bound`, all holding zero.
    pub fn new(bound: usize) -> (r: MemoryProver)
        requires
            bound as int <= p(),
        ensures
            r.wf(),
            r.bound() == bound,
            r.values() == Map::<u64, int>::empty(),
            r.read_count() == 0,
            r.write_count() == 0,
            r.in_range(),
    {
        MemoryProver { bound, prover: None }
    }

    /// A memory of `RAM_SIZE` addresses.
    pub fn default() -> (r: MemoryProver)
        ensures
            r.wf(),
            r.bound() == RAM_SIZE,
            r.values() == Map::<u64, int>::empty(),
            r.read_count() == 0,
            r.write_count() == 0,
            r.in_range(),
    {
        MemoryProver::new(RAM_SIZE)
    }

    fn activate(&mut self) -> (pr: Prover)
        requires
            old(self).wf(),
        ensures
            final(self).prover is None,
            final(self).bound == old(self).bound,
            pr.wf(),
            pr.settled(),
            pr.space().spec_bound() == old(self).bound,
            pr.values() == old(self).values(),
            pr.read_log().len() == old(self).read_count(),
            pr.write_log().len() == old(self).write_count(),
            pr.within_space() == old(self).in_range(),
    {
        match self.prover.take() {
            Some(pr) => pr,
            None => {
                let pr = Prover::with_capacity(Bounded::new(self.bound), self.bound);
                proof {
                    assert(pr.values() =~= Map::<u64, int>::empty());
                }
                pr
            },
        }
    }

    /// Reads an address: removes the cell and inserts the same value
    /// back. Returns what was last written there, or zero.
    pub fn read(&mut self, hp: &mut HomcomProver, addr: MacProver) -> (r: Result<MacProver, RamError>)
        requires
            old(self).wf(),
            old(hp).wf(),
        ensures
            final(self).wf(),
            final(hp).wf(),
            final(self).bound() == old(self).bound(),
            final(self).read_count() == final(self).write_count(),
            old(hp).unused().len() >= 3 <==> r is Ok,
            r is Err ==> r == Err::<MacProver, RamError>(RamError::Exhausted) && final(self).values() == old(
                self,
            ).values() && final(self).read_count() == old(self).read_count() && final(self).in_range() == old(
                self,
            ).in_range(),
            r matches Ok(v) ==> ({
                let k = addr.value.val() as u64;
                &&& v.value.val() == read_spec(old(self).values(), k)
                &&& final(self).values() == old(self).values().insert(k, v.value.val())
                &&& final(self).read_count() == old(self).read_count() + 1
                &&& final(self).in_range() == (old(self).in_range() && (k as int) < old(self).bound())
                &&& final(hp).unused().len() == old(hp).unused().len() - 3
            }),
    {
        let mut pr = self.activate();
        let ghost mid0 = pr;
        let v = match pr.remove(hp, addr) {
            Ok(v) => v,
            Err(e) => {
                self.prover = Some(pr);
                return Err(e);
            },
        };
        let ins = pr.insert(addr, v);
        proof {
            let k = addr.value.val() as u64;
            assert(ins is Ok);
            assert(pr.touched() =~= pr.contents().dom());
            assert(pr.values() =~= old(self).values().insert(k, v.value.val()));
            assert(pr.touched() == mid0.touched().insert(k));
            if pr.within_space() {
                assert forall|j: u64| mid0.touched().contains(j) implies (j as int) < mid0.space().spec_bound() by {
                    assert(pr.touched().contains(j));
                }
                assert(pr.touched().contains(k));
            }
            if mid0.within_space() && (k as int) < old(self).bound() {
                assert(pr.within_space());
            }
        }
        self.prover = Some(pr);
        Ok(v)
    }

    /// Writes an address: removes the cell, discarding its value, and
    /// inserts the new one.
    pub fn write(&mut self, hp: &mut HomcomProver, addr: MacProver, value: MacProver) -> (r: Result<(), RamError>)
        requires
            old(self).wf(),
            old(hp).wf(),
        ensures
            final(self).wf(),
            final(hp).wf(),
            final(self).bound() == old(self).bound(),
            final(self).read_count() == final(self).write_count(),
            old(hp).unused().len() >= 3 <==> r is Ok,
            r is Err ==> r == Err::<(), RamError>(RamError::Exhausted) && final(self).values() == old(self).values()
                && final(self).read_count() == old(self).read_count() && final(self).in_range() == old(
                self,
            ).in_range(),
            r is Ok ==> ({
                let k = addr.value.val() as u64;
                &&& final(self).values() == old(self).values().insert(k, value.value.val())
                &&& final(self).read_count() == old(self).read_count() + 1
                &&& final(self).in_range() == (old(self).in_range() && (k as int) < old(self).bound())
                &&& final(hp).unused().len() == old(hp).unused().len() - 3
            }),
    {
        let mut pr = self.activate();
        let ghost mid0 = pr;
        match pr.remove(hp, addr) {
            Ok(_) => {},
            Err(e) => {
                self.prover = Some(pr);
                return Err(e);
            },
        }
        let ins = pr.insert(addr, value);
        proof {
            let k = addr.value.val() as u64;
            assert(ins is Ok);
            assert(pr.touched() =~= pr.contents().dom());
            assert(pr.values() =~= old(self).values().insert(k, value.value.val()));
            assert(pr.touched() == mid0.touched().insert(k));
            if pr.within_space() {
                assert forall|j: u64| mid0.touched().contains(j) implies (j as int) < mid0.space().spec_bound() by {
                    assert(pr.touched().contains(j));
                }
                assert(pr.touched().contains(k));
            }
            if mid0.within_space() && (k as int) < old(self).bound() {
                assert(pr.within_space());
            }
        }
        self.prover = Some(pr);
        Ok(())
    }

    /// Lengths of the read log and the write log.
    pub fn log_lengths(&self) -> (r: (usize, usize))
        requires
            self.wf(),
        ensures
            r.0 == self.read_count(),
            r.1 == self.write_count(),
            r.0 == r.1,
    {
        match &self.prover {
            Some(pr) => pr.log_lengths(),
            None => (0, 0),
        }
    }

    /// Commits to a private value over the memory's channel, so that the
    /// wires the memory is accessed with share its transcript.
    pub fn commit(&mut self, hp: &mut HomcomProver, x: Fp) -> (r: Result<MacProver, RamError>)
        requires
            old(self).wf(),
            old(hp).wf(),
        ensures
            final(self).wf(),
            final(hp).wf(),
            final(self).bound() == old(self).bound(),
            final(self).values() == old(self).values(),
            final(self).read_count() == old(self).read_count(),
            final(self).write_count() == old(self).write_count(),
            final(self).in_range() == old(self).in_range(),
            old(hp).unused().len() > 0 <==> r is Ok,
            r is Err ==> r == Err::<MacProver, RamError>(RamError::Exhausted),
            r matches Ok(w) ==> w.value == x,
    {
        let mut pr = self.activate();
        let r = pr.commit(hp, x);
        self.prover = Some(pr);
        r
    }

    /// Bytes written for the verifier and not yet taken.
    pub fn take_outgoing(&mut self) -> (r: Vec<u8>)
        requires
            old(self).wf(),
        ensures
            final(self).wf(),
            final(self).bound() == old(self).bound(),
            final(self).values() == old(self).values(),
            final(self).read_count() == old(self).read_count(),
            final(self).write_count() == old(self).write_count(),
            final(self).in_range() == old(self).in_range(),
    {
        match self.prover.take() {
            Some(pr) => {
                let mut pr = pr;
                let out = pr.take_outgoing();
                self.prover = Some(pr);
                out
            },
            None => Vec::new(),
        }
    }

    /// Ends the memory: drains every address and runs the permutation
    /// argument, handing back the channel, which holds the bytes still to
    /// send, for the check of the products. A memory never accessed has
    /// nothing to prove and hands back a fresh channel. Where every access
    /// stayed within the bound and the pairs suffice, it succeeds.
    pub fn finalize(&mut self, hp: &mut HomcomProver) -> (r: Result<TxChannel, RamError>)
        requires
            old(self).wf(),
            old(hp).wf(),
        ensures
            final(self).wf(),
            final(hp).wf(),
            !final(self).started(),
            final(self).bound() == old(self).bound(),
            final(self).values() == Map::<u64, int>::empty(),
            final(self).read_count() == 0,
            final(self).write_count() == 0,
            r is Err ==> r == Err::<TxChannel, RamError>(RamError::Exhausted) || r == Err::<TxChannel, RamError>(
                RamError::CheckFailed,
            ),
            old(self).in_range() ==> r != Err::<TxChannel, RamError>(RamError::CheckFailed),
            old(hp).unused().len() >= 5 * old(self).bound() + old(self).read_count() + old(self).write_count()
                && old(self).in_range() ==> r is Ok,
            r matches Ok(ch) ==> ch.wf(),
            r is Ok ==> final(hp).unused().len() == old(hp).unused().len() - 5 * old(self).bound() - old(
                self,
            ).read_count() - old(self).write_count() || !old(self).started(),
            !old(self).started() ==> (r matches Ok(ch) && ch.outgoing().len() == 0 && ch.transcript().len() == 0
                && ch.incoming().len() == 0 && *final(hp) == *old(hp)),
    {
        match self.prover.take() {
            Some(pr) => pr.finalize(hp),
            None => Ok(TxChannel::new()),
        }
    }
}

/// The verifier's memory; the underlying `Verifier` is made on first
/// access.
pub struct MemoryVerifier {
    bound: usize,
    verifier: Option<Verifier>,
}

impl MemoryVerifier {
    pub closed spec fn wf(self) -> bool {
        &&& self.bound as int <= p()
        &&& match self.verifier {
            Some(v) => v.wf() && v.read_log().len() == v.write_log().len() && v.space().spec_bound()
                == self.bound,
            None => true,
        }
    }

    pub closed spec fn bound(self) -> nat {
        self.bound as nat
    }

    pub closed spec fn read_count(self) -> nat {
        match self.verifier {
            Some(v) => v.read_log().len(),
            None => 0,
        }
    }

    pub closed spec fn write_count(self) -> nat {
        match self.verifier {
            Some(v) => v.write_log().len(),
            None => 0,
        }
    }

    /// Whether the memory has been accessed since it was made or last
    /// ended.
    pub closed spec fn started(self) -> bool {
        self.verifier is Some
    }

    pub closed spec fn read_log(self) -> Seq<[MacVerifier; SIZE_DIM]> {
        match self.verifier {
            Some(v) => v.read_log(),
            None => Seq::empty(),
        }
    }

    pub closed spec fn write_log(self) -> Seq<[MacVerifier; SIZE_DIM]> {
        match self.verifier {
            Some(v) => v.write_log(),
            None => Seq::empty(),
        }
    }

    /// Every byte received so far, in order.
    pub closed spec fn transcript(self) -> Seq<u8> {
        match self.verifier {
            Some(v) => v.channel().transcript(),
            None => Seq::empty(),
        }
    }

    /// Bytes from the prover delivered and not yet read.
    pub closed spec fn incoming(self) -> Seq<u8> {
        match self.verifier {
            Some(v) => v.channel().incoming(),
            None => Seq::empty(),
        }
    }

    pub fn is_started(&self) -> (r: bool)
        ensures
            r == self.started(),
    {
        self.verifier.is_some()
    }

    pub fn new(bound: usize) -> (r: MemoryVerifier)
        requires
            bound as int <= p(),
        ensures
            r.wf(),
            r.bound() == bound,
            r.read_count() == 0,
            r.write_count() == 0,
    {
        MemoryVerifier { bound, verifier: None }
    }

    /// A memory of `RAM_SIZE` addresses.
    pub fn default() -> (r: MemoryVerifier)
        ensures
            r.wf(),
            r.bound() == RAM_SIZE,
            r.read_count() == 0,
            r.write_count() == 0,
    {
        MemoryVerifier::new(RAM_SIZE)
    }

    fn activate(&mut self) -> (v: Verifier)
        requires
            old(self).wf(),
        ensures
            final(self).verifier is None,
            final(self).bound == old(self).bound,
            v.wf(),
            v.read_log().len() == v.write_log().len(),
            v.space().spec_bound() == old(self).bound,
            v.read_log().len() == old(self).read_count(),
            v.channel().incoming() == old(self).incoming(),
            v.read_log() == old(self).read_log(),
            v.write_log() == old(self).write_log(),
            v.channel().transcript() == old(self).transcript(),
    {
        match self.verifier.take() {
            Some(v) => v,
            None => {
                let v = Verifier::with_capacity(Bounded::new(self.bound), self.bound);
                proof {
                    assert(v.channel().incoming() == Seq::<u8>::empty());
                    assert(v.read_log() == Seq::<[MacVerifier; SIZE_DIM]>::empty());
                    assert(v.write_log() == Seq::<[MacVerifier; SIZE_DIM]>::empty());
                }
                v
            },
        }
    }

    /// Reads an address: receives the commitment to the value it held and
    /// inserts that value back.
    pub fn read(&mut self, hv: &mut HomcomVerifier, addr: MacVerifier) -> (r: Result<MacVerifier, RamError>)
        requires
            old(self).wf(),
            old(hv).wf(),
        ensures
            final(self).wf(),
            final(hv).wf(),
            final(hv).delta() == old(hv).delta(),
            final(self).bound() == old(self).bound(),
            final(self).read_count() == final(self).write_count(),
            old(hv).unused().len() < 3 ==> r == Err::<MacVerifier, RamError>(RamError::Exhausted),
            r is Ok <==> old(hv).unused().len() >= 3 && elem_ok(old(self).incoming(), 0) && elem_ok(
                old(self).incoming(),
                1,
            ) && elem_ok(old(self).incoming(), 2),
            r matches Ok(k) ==> k.key.val() == fsub(
                old(hv).unused()[0].val(),
                fmul(elem_at(old(self).incoming(), 0), old(hv).delta().val()),
            ),
            r matches Ok(k) ==> logged_access(*old(self), *final(self), *old(hv), addr, k),
            r is Ok ==> final(self).read_count() == old(self).read_count() + 1,
            r is Err ==> final(self).read_count() == old(self).read_count(),
    {
        let mut v = self.activate();
        let value = match v.remove(hv, addr) {
            Ok(x) => x,
            Err(e) => {
                self.verifier = Some(v);
                return Err(e);
            },
        };
        let _ = v.insert(hv, addr, value);
        self.verifier = Some(v);
        Ok(value)
    }

    /// Writes an address: receives and discards the commitment to the
    /// old value and inserts the new one.
    pub fn write(&mut self, hv: &mut HomcomVerifier, addr: MacVerifier, value: MacVerifier) -> (r: Result<(), RamError>)
        requires
            old(self).wf(),
            old(hv).wf(),
        ensures
            final(self).wf(),
            final(hv).wf(),
            final(hv).delta() == old(hv).delta(),
            final(self).bound() == old(self).bound(),
            final(self).read_count() == final(self).write_count(),
            old(hv).unused().len() < 3 ==> r == Err::<(), RamError>(RamError::Exhausted),
            r is Ok <==> old(hv).unused().len() >= 3 && elem_ok(old(self).incoming(), 0) && elem_ok(
                old(self).incoming(),
                1,
            ) && elem_ok(old(self).incoming(), 2),
            r is Ok ==> final(self).read_count() == old(self).read_count() + 1,
            r is Ok ==> logged_access(*old(self), *final(self), *old(hv), addr, value),
            r is Err ==> final(self).read_count() == old(self).read_count(),
    {
        let mut v = self.activate();
        match v.remove(hv, addr) {
            Ok(_) => {},
            Err(e) => {
                self.verifier = Some(v);
                return Err(e);
            },
        }
        let _ = v.insert(hv, addr, value);
        self.verifier = Some(v);
        Ok(())
    }

    /// Receives a commitment to a private value over the memory's channel.
    pub fn commit(&mut self, hv: &mut HomcomVerifier) -> (r: Result<MacVerifier, RamError>)
        requires
            old(self).wf(),
            old(hv).wf(),
        ensures
            final(self).wf(),
            final(hv).wf(),
            final(hv).delta() == old(hv).delta(),
            final(self).bound() == old(self).bound(),
            final(self).read_count() == old(self).read_count(),
            final(self).write_count() == old(self).write_count(),
            old(hv).unused().len() == 0 ==> r == Err::<MacVerifier, RamError>(RamError::Exhausted),
            r is Ok <==> old(hv).unused().len() > 0 && elem_ok(old(self).incoming(), 0),
            r matches Ok(k) ==> k.key.val() == fsub(
                old(hv).unused()[0].val(),
                fmul(elem_at(old(self).incoming(), 0), old(hv).delta().val()),
            ),
    {
        let mut v = self.activate();
        let r = v.commit(hv);
        self.verifier = Some(v);
        r
    }

    /// Hands over bytes that arrived from the prover.
    pub fn deliver(&mut self, b: &[u8])
        requires
            old(self).wf(),
        ensures
            final(self).wf(),
            final(self).bound() == old(self).bound(),
            final(self).read_count() == old(self).read_count(),
            final(self).write_count() == old(self).write_count(),
            final(self).incoming() == old(self).incoming() + b@,
            final(self).started() == (old(self).started() || b@.len() > 0),
            final(self).read_log() == old(self).read_log(),
            final(self).write_log() == old(self).write_log(),
            final(self).transcript() == old(self).transcript(),
    {
        if b.len() == 0 {
            proof {
                assert(self.incoming() == old(self).incoming() + b@);
            }
            return;
        }
        let mut v = self.activate();
        v.deliver(b);
        self.verifier = Some(v);
    }

    /// Ends the memory: drains every address and checks the permutation
    /// argument, handing back the channel for the check of the products.
    /// A memory never accessed has nothing to check and hands back a fresh
    /// channel. Otherwise it accepts exactly as `Verifier::finalize` does.
    pub fn finalize(&mut self, hv: &mut HomcomVerifier) -> (r: Result<TxChannel, RamError>)
        requires
            old(self).wf(),
            old(hv).wf(),
        ensures
            final(self).wf(),
            final(hv).wf(),
            final(hv).delta() == old(hv).delta(),
            !final(self).started(),
            final(self).bound() == old(self).bound(),
            final(self).read_count() == 0,
            !old(self).started() ==> (r matches Ok(ch) && ch.outgoing().len() == 0 && ch.transcript().len() == 0
                && ch.incoming().len() == 0 && *final(hv) == *old(hv)),
            old(self).started() ==> (r is Ok <==> ({
                let b = old(self).bound() as int;
                let u = old(hv).unused();
                let inc = old(self).incoming();
                &&& u.len() >= 3 * b
                &&& words_ok(inc, 0, 3 * b)
                &&& perm_accepts(
                    u.subrange(3 * b, u.len() as int),
                    inc.subrange(24 * b, inc.len() as int),
                    old(self).write_count() + b,
                    old(self).read_count() + b,
                    old(hv).delta().val(),
                )
            })),
            r matches Ok(ch) ==> ch.wf(),
    {
        match self.verifier.take() {
            Some(v) => v.finalize(hv),
            None => Ok(TxChannel::new()),
        }
    }
}

} // verus!
