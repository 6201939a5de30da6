//! The verifier's side of the memory: it never sees a value, only keys of
//! commitments, and logs the same records as the prover.
use vstd::prelude::*;

use crate::error::RamError;
use crate::field::{elem_at, elem_ok, fmul, fsub, lemma_elem_shift, Fp};
use crate::homcom::{HomcomVerifier, MacVerifier};
use crate::ram::perm::{perm_accepts, permutation_verifier, words_ok};
use crate::ram::{collapse_keys, Bounded, MemorySpace, SIZE_DIM};
use crate::tx::{challenge_of, lemma_reads_only_refl, lemma_reads_only_trans, reads_only, TxChannel};

verus! {

/// The keys of a read record whose three stored fields were committed
/// with the keys `u[start..start + 3]` and the words `start..start + 3` of
/// `inc`.
pub open spec fn read_keys(e: [MacVerifier; SIZE_DIM], u: Seq<Fp>, inc: Seq<u8>, start: int, delta: int) -> bool {
    &&& e[1].key.val() == fsub(u[start].val(), fmul(elem_at(inc, start), delta))
    &&& e[2].key.val() == fsub(u[start + 1].val(), fmul(elem_at(inc, start + 1), delta))
    &&& e[3].key.val() == fsub(u[start + 2].val(), fmul(elem_at(inc, start + 2), delta))
}

/// The key of the public commitment to `c`.
pub open spec fn public_key(c: int, delta: int) -> int {
    fsub(0, fmul(c, delta))
}

/// The verifier's memory: the logs of reads and writes as keys.
pub struct Verifier {
    space: Bounded,
    ch: TxChannel,
    rds: Vec<[MacVerifier; SIZE_DIM]>,
    wrs: Vec<[MacVerifier; SIZE_DIM]>,
}

impl Verifier {
    pub closed spec fn wf(self) -> bool {
        self.ch.wf()
    }

    pub closed spec fn read_log(self) -> Seq<[MacVerifier; SIZE_DIM]> {
        self.rds@
    }

    pub closed spec fn write_log(self) -> Seq<[MacVerifier; SIZE_DIM]> {
        self.wrs@
    }

    pub closed spec fn space(self) -> Bounded {
        self.space
    }

    pub closed spec fn channel(self) -> TxChannel {
        self.ch
    }

    pub fn new(space: Bounded) -> (r: Verifier)
        ensures
            r.wf(),
            r.read_log() == Seq::<[MacVerifier; SIZE_DIM]>::empty(),
            r.write_log() == Seq::<[MacVerifier; SIZE_DIM]>::empty(),
            r.space() == space,
            r.channel().transcript() == Seq::<u8>::empty(),
            r.channel().outgoing() == Seq::<u8>::empty(),
            r.channel().incoming() == Seq::<u8>::empty(),
    {
        Verifier::with_capacity(space, 0)
    }

    /// As `new`, with both logs sized for `steps` accesses and the final
    /// walk over the address space, so that they need not grow.
    pub fn with_capacity(space: Bounded, steps: usize) -> (r: Verifier)
        ensures
            r.wf(),
            r.read_log() == Seq::<[MacVerifier; SIZE_DIM]>::empty(),
            r.write_log() == Seq::<[MacVerifier; SIZE_DIM]>::empty(),
            r.space() == space,
            r.channel().transcript() == Seq::<u8>::empty(),
            r.channel().outgoing() == Seq::<u8>::empty(),
            r.channel().incoming() == Seq::<u8>::empty(),
    {
        let cap = steps.saturating_add(space.size());
        Verifier { space, ch: TxChannel::new(), rds: Vec::with_capacity(cap), wrs: Vec::with_capacity(cap) }
    }

    /// Removes a cell: receives commitments to the value and challenge it
    /// held and logs the read record.
    pub fn remove(&mut self, hv: &mut HomcomVerifier, addr: MacVerifier) -> (r: Result<MacVerifier, RamError>)
        requires
            old(self).wf(),
            old(hv).wf(),
        ensures
            final(self).wf(),
            final(hv).wf(),
            final(hv).delta() == old(hv).delta(),
            final(self).space() == old(self).space(),
            final(self).write_log() == old(self).write_log(),
            final(self).channel().outgoing() == old(self).channel().outgoing(),
            reads_only(old(self).channel(), final(self).channel()),
            old(hv).unused().len() < 3 ==> r == Err::<MacVerifier, RamError>(RamError::Exhausted),
            old(hv).unused().len() >= 3 && elem_ok(old(self).channel().incoming(), 0) && elem_ok(
                old(self).channel().incoming(),
                1,
            ) && elem_ok(old(self).channel().incoming(), 2) <==> r is Ok,
            r is Err ==> final(self).read_log() == old(self).read_log(),
            r matches Ok(v) ==> ({
                let inc = old(self).channel().incoming();
                &&& final(self).read_log().len() == old(self).read_log().len() + 1
                &&& final(self).read_log().drop_last() == old(self).read_log()
                &&& final(self).read_log().last()[0] == addr
                &&& final(self).read_log().last()[1] == v
                &&& read_keys(final(self).read_log().last(), old(hv).unused(), inc, 0, old(hv).delta().val())
                &&& final(self).channel().transcript() == old(self).channel().transcript() + inc.subrange(0, 24)
                &&& final(self).channel().incoming() == inc.subrange(24, inc.len() as int)
                &&& final(hv).unused() == old(hv).unused().subrange(3, old(hv).unused().len() as int)
            }),
    {
        if hv.remaining() < 3 {
            proof {
                lemma_reads_only_refl(self.ch);
            }
            return Err(RamError::Exhausted);
        }
        let ghost inc = self.ch.incoming();
        let ghost ch0 = self.ch;
        let ghost u0 = hv.unused();
        let v = hv.input_private(&mut self.ch)?;
        let ghost inc1 = self.ch.incoming();
        let ghost ch1 = self.ch;
        proof {
            if inc.len() >= 16 {
                assert(inc1.subrange(0, 8) == inc.subrange(8, 16));
            }
        }
        let c0 = match hv.input_private(&mut self.ch) {
            Ok(x) => x,
            Err(e) => {
                proof {
                    lemma_reads_only_trans(ch0, ch1, self.ch);
                    if inc.len() >= 16 {
                        assert(inc1.subrange(0, 8) == inc.subrange(8, 16));
                    }
                }
                return Err(e);
            },
        };
        let ghost inc2 = self.ch.incoming();
        let ghost ch2 = self.ch;
        proof {
            lemma_reads_only_trans(ch0, ch1, ch2);
            assert(inc2 == inc.subrange(16, inc.len() as int));
            if inc.len() >= 24 {
                assert(inc2.subrange(0, 8) == inc.subrange(16, 24));
            }
        }
        let ghost u1 = hv.unused();
        let c1 = match hv.input_private(&mut self.ch) {
            Ok(x) => x,
            Err(e) => {
                proof {
                    lemma_reads_only_trans(ch0, ch2, self.ch);
                    if inc.len() >= 24 {
                        assert(inc2.subrange(0, 8) == inc.subrange(16, 24));
                    }
                }
                return Err(e);
            },
        };
        let flat = [addr, v, c0, c1];
        self.rds.push(flat);
        proof {
            assert(hv.unused() == u0.subrange(3, u0.len() as int));
            assert(u0[1] == u0.drop_first()[0]);
            assert(u0[2] == u1[0]);
            assert(elem_at(inc, 1) == elem_at(inc.subrange(8, inc.len() as int), 0)) by {
                lemma_elem_shift(inc, 1, 0);
            }
            assert(elem_at(inc, 2) == elem_at(inc.subrange(16, inc.len() as int), 0)) by {
                lemma_elem_shift(inc, 2, 0);
            }
            lemma_reads_only_trans(ch0, ch2, self.ch);
            assert(self.read_log().drop_last() == old(self).read_log());
            assert(inc.subrange(0, 8) + inc1.subrange(0, 8) + inc2.subrange(0, 8) == inc.subrange(0, 24));
            assert(self.ch.incoming() == inc.subrange(24, inc.len() as int));
        }
        Ok(v)
    }

    /// Inserts a cell: draws the write challenge from the transcript and
    /// logs the write record, the challenge as public commitments.
    pub fn insert(&mut self, hv: &HomcomVerifier, addr: MacVerifier, value: MacVerifier) -> (r: Result<(), RamError>)
        requires
            old(self).wf(),
        ensures
            final(self).wf(),
            r is Ok,
            final(self).space() == old(self).space(),
            final(self).channel() == old(self).channel(),
            reads_only(old(self).channel(), final(self).channel()),
            final(self).read_log() == old(self).read_log(),
            ({
                let (c0, c1) = challenge_of(old(self).channel().transcript());
                let w = final(self).write_log().last();
                &&& final(self).write_log().len() == old(self).write_log().len() + 1
                &&& final(self).write_log().drop_last() == old(self).write_log()
                &&& w[0] == addr && w[1] == value
                &&& w[2].key.val() == fsub(0, fmul(c0, hv.delta().val()))
                &&& w[3].key.val() == fsub(0, fmul(c1, hv.delta().val()))
            }),
    {
        let chal = self.ch.challenge();
        let flat = [addr, value, hv.input_public(chal[0]), hv.input_public(chal[1])];
        self.wrs.push(flat);
        proof {
            lemma_reads_only_refl(self.ch);
            assert(self.write_log().drop_last() == old(self).write_log());
        }
        Ok(())
    }

    /// Lengths of the read log and the write log.
    pub fn log_lengths(&self) -> (r: (usize, usize))
        ensures
            r.0 == self.read_log().len(),
            r.1 == self.write_log().len(),
    {
        (self.rds.len(), self.wrs.len())
    }

    /// The challenges that the transcript yields now.
    pub fn challenge(&self) -> (r: [Fp; 2])
        ensures
            r[0].val() == challenge_of(self.channel().transcript()).0,
            r[1].val() == challenge_of(self.channel().transcript()).1,
    {
        self.ch.challenge()
    }

    /// Receives a commitment to a private value over this memory's
    /// channel.
    pub fn commit(&mut self, hv: &mut HomcomVerifier) -> (r: Result<MacVerifier, RamError>)
        requires
            old(self).wf(),
            old(hv).wf(),
        ensures
            final(self).wf(),
            final(hv).wf(),
            final(hv).delta() == old(hv).delta(),
            old(hv).unused().len() == 0 ==> r == Err::<MacVerifier, RamError>(RamError::Exhausted),
            r is Ok <==> old(hv).unused().len() > 0 && elem_ok(old(self).channel().incoming(), 0),
            r matches Ok(k) ==> k.key.val() == fsub(
                old(hv).unused()[0].val(),
                fmul(elem_at(old(self).channel().incoming(), 0), old(hv).delta().val()),
            ),
            final(self).read_log() == old(self).read_log(),
            final(self).write_log() == old(self).write_log(),
            final(self).space() == old(self).space(),
            reads_only(old(self).channel(), final(self).channel()),
    {
        hv.input_private(&mut self.ch)
    }

    /// Sends the combination and permutation challenges, sampled by the
    /// caller, for the interactive mode.
    pub fn send_challenges(&mut self, c: [Fp; 2])
        requires
            old(self).wf(),
        ensures
            final(self).wf(),
            final(self).channel().outgoing() == old(self).channel().outgoing() + c[0].to_bytes_spec()
                + c[1].to_bytes_spec(),
            final(self).channel().incoming() == old(self).channel().incoming(),
            final(self).read_log() == old(self).read_log(),
            final(self).write_log() == old(self).write_log(),
            final(self).space() == old(self).space(),
    {
        self.ch.write_elem(c[0]);
        self.ch.write_elem(c[1]);
    }

    /// Bytes written for the prover and not yet taken.
    pub fn take_outgoing(&mut self) -> (r: Vec<u8>)
        requires
            old(self).wf(),
        ensures
            final(self).wf(),
            r@ == old(self).channel().outgoing(),
            final(self).channel().outgoing() == Seq::<u8>::empty(),
            final(self).channel().transcript() == old(self).channel().transcript(),
            final(self).channel().incoming() == old(self).channel().incoming(),
            final(self).read_log() == old(self).read_log(),
            final(self).write_log() == old(self).write_log(),
            final(self).space() == old(self).space(),
    {
        self.ch.take_outgoing()
    }

    /// Hands over bytes that arrived from the prover.
    pub fn deliver(&mut self, b: &[u8])
        requires
            old(self).wf(),
        ensures
            final(self).wf(),
            final(self).channel().incoming() == old(self).channel().incoming() + b@,
            final(self).channel().outgoing() == old(self).channel().outgoing(),
            final(self).channel().transcript() == old(self).channel().transcript(),
            final(self).read_log() == old(self).read_log(),
            final(self).write_log() == old(self).write_log(),
            final(self).space() == old(self).space(),
    {
        self.ch.deliver(b)
    }

    /// Walks the whole address space once, as the prover does: each
    /// address is removed, and a zero record stands for its initial
    /// content in the write log.
    pub fn drain(&mut self, hv: &mut HomcomVerifier) -> (r: Result<(), RamError>)
        requires
            old(self).wf(),
            old(hv).wf(),
        ensures
            final(self).wf(),
            final(hv).wf(),
            final(hv).delta() == old(hv).delta(),
            final(self).space() == old(self).space(),
            final(self).channel().outgoing() == old(self).channel().outgoing(),
            reads_only(old(self).channel(), final(self).channel()),
            r is Ok <==> old(hv).unused().len() >= 3 * old(self).space().spec_bound() && words_ok(
                old(self).channel().incoming(),
                0,
                3 * old(self).space().spec_bound() as int,
            ),
            r is Ok ==> ({
                let b = old(self).space().spec_bound() as int;
                let u = old(hv).unused();
                let inc = old(self).channel().incoming();
                let (n, m) = (old(self).read_log().len() as int, old(self).write_log().len() as int);
                let delta = old(hv).delta().val();
                &&& final(self).read_log().len() == n + b
                &&& final(self).write_log().len() == m + b
                &&& final(self).read_log().subrange(0, n) == old(self).read_log()
                &&& final(self).write_log().subrange(0, m) == old(self).write_log()
                &&& final(hv).unused() == u.subrange(3 * b, u.len() as int)
                &&& final(self).channel().incoming() == inc.subrange(24 * b, inc.len() as int)
                &&& forall|j: int|
                    0 <= j < b ==> {
                        let e = #[trigger] final(self).read_log()[n + j];
                        let w = final(self).write_log()[m + j];
                        &&& e[0].key.val() == public_key(j, delta)
                        &&& read_keys(e, u, inc, 3 * j, delta)
                        &&& w[0].key.val() == public_key(j, delta)
                        &&& w[1].key.val() == public_key(0, delta)
                        &&& w[2].key.val() == public_key(0, delta)
                        &&& w[3].key.val() == public_key(0, delta)
                    }
            }),
    {
        let addrs = self.space.enumerate();
        let z = hv.input_public(Fp::zero());
        let ghost b = addrs@.len() as int;
        let ghost u = hv.unused();
        let ghost inc = self.ch.incoming();
        let ghost (n, m) = (self.rds@.len() as int, self.wrs@.len() as int);
        let ghost delta = hv.delta().val();
        let mut i: usize = 0;
        proof {
            lemma_reads_only_refl(self.ch);
            assert(hv.unused() == u.subrange(0, u.len() as int));
            assert(self.ch.incoming() == inc.subrange(0, inc.len() as int));
        }
        while i < addrs.len()
            invariant
                i <= addrs@.len(),
                addrs@.len() == self.space.spec_bound(),
                b == addrs@.len(),
                forall|j: int| 0 <= j < addrs@.len() ==> (#[trigger] addrs@[j]).val() == j,
                self.wf(),
                hv.wf(),
                hv.delta() == old(hv).delta(),
                delta == hv.delta().val(),
                z.key.val() == public_key(0, delta),
                self.space == old(self).space,
                self.ch.outgoing() == old(self).ch.outgoing(),
                reads_only(old(self).ch, self.ch),
                u == old(hv).unused(),
                inc == old(self).ch.incoming(),
                n == old(self).rds@.len(),
                m == old(self).wrs@.len(),
                u.len() >= 3 * i,
                words_ok(inc, 0, 3 * i),
                inc.len() >= 24 * i,
                hv.unused() == u.subrange(3 * i, u.len() as int),
                self.ch.incoming() == inc.subrange(24 * i, inc.len() as int),
                self.rds@.len() == n + i,
                self.wrs@.len() == m + i,
                self.rds@.subrange(0, n) == old(self).rds@,
                self.wrs@.subrange(0, m) == old(self).wrs@,
                forall|j: int|
                    0 <= j < i ==> {
                        let e = #[trigger] self.rds@[n + j];
                        let w = self.wrs@[m + j];
                        &&& e[0].key.val() == public_key(j, delta)
                        &&& read_keys(e, u, inc, 3 * j, delta)
                        &&& w[0].key.val() == public_key(j, delta)
                        &&& w[1].key.val() == public_key(0, delta)
                        &&& w[2].key.val() == public_key(0, delta)
                        &&& w[3].key.val() == public_key(0, delta)
                    },
            decreases addrs@.len() - i,
        {
            let a = hv.input_public(addrs[i]);
            let ghost mid = *self;
            let ghost ui = hv.unused();
            let ghost inci = self.ch.incoming();
            proof {
                assert(addrs@[i as int].val() == i);
                lemma_elem_shift(inc, 3 * i, 0);
                lemma_elem_shift(inc, 3 * i, 1);
                lemma_elem_shift(inc, 3 * i, 2);
                assert(inci == inc.subrange(8 * (3 * i), inc.len() as int));
            }
            let res = self.remove(hv, a);
            proof {
                lemma_reads_only_trans(old(self).ch, mid.ch, self.ch);
            }
            match res {
                Ok(_) => {},
                Err(e) => {
                    proof {
                        if u.len() >= 3 * b && words_ok(inc, 0, 3 * b) {
                            assert(elem_ok(inc, 3 * i));
                            assert(elem_ok(inc, 3 * i + 1));
                            assert(elem_ok(inc, 3 * i + 2));
                            assert(false);
                        }
                    }
                    return Err(e);
                },
            }
            self.wrs.push([a, z, z, z]);
            proof {
                assert(ui[0] == u[3 * i]);
                assert(ui[1] == u[3 * i + 1]);
                assert(ui[2] == u[3 * i + 2]);
                assert(hv.unused() == u.subrange(3 * i + 3, u.len() as int));
                assert(inci.len() >= 24);
                assert(self.ch.incoming() == inc.subrange(24 * (i + 1), inc.len() as int));
                assert(self.rds@.subrange(0, n) == mid.rds@.subrange(0, n));
                assert(self.wrs@.subrange(0, m) == mid.wrs@.subrange(0, m));
                assert(words_ok(inc, 0, 3 * i + 3)) by {
                    assert forall|t: int| 0 <= t < 3 * i + 3 implies elem_ok(inc, t) by {
                        if t >= 3 * i {
                            lemma_elem_shift(inc, 3 * i, t - 3 * i);
                        }
                    }
                }
                assert forall|j: int| 0 <= j < i + 1 implies {
                    let e = #[trigger] self.rds@[n + j];
                    let w = self.wrs@[m + j];
                    &&& e[0].key.val() == public_key(j, delta)
                    &&& read_keys(e, u, inc, 3 * j, delta)
                    &&& w[0].key.val() == public_key(j, delta)
                    &&& w[1].key.val() == public_key(0, delta)
                    &&& w[2].key.val() == public_key(0, delta)
                    &&& w[3].key.val() == public_key(0, delta)
                } by {
                    if j < i {
                        assert(self.rds@[n + j] == mid.rds@[n + j]);
                        assert(self.wrs@[m + j] == mid.wrs@[m + j]);
                    }
                }
            }
            i = i + 1;
        }
        proof {
            assert(self.rds@.len() == n + b);
        }
        Ok(())
    }

    /// Ends the memory with the given challenges, after `drain`: folds
    /// both logs with `chal_cmbn` and checks the permutation argument at
    /// `chal_perm`, handing back the channel for the check of the
    /// products. It accepts exactly on the condition `perm_accepts`, over
    /// the unused keys and the bytes not yet read.
    pub fn finalize_with(self, hv: &mut HomcomVerifier, chal_cmbn: Fp, chal_perm: Fp) -> (r: Result<TxChannel, RamError>)
        requires
            self.wf(),
            old(hv).wf(),
        ensures
            final(hv).wf(),
            final(hv).delta() == old(hv).delta(),
            r is Ok <==> perm_accepts(
                old(hv).unused(),
                self.channel().incoming(),
                self.write_log().len() as int,
                self.read_log().len() as int,
                old(hv).delta().val(),
            ),
            r matches Ok(ch) ==> ch.wf() && reads_only(self.channel(), ch) && ch.outgoing() == self.channel().outgoing(),
    {
        let mut me = self;
        let lw = collapse_keys(&me.wrs, chal_cmbn);
        let lr = collapse_keys(&me.rds, chal_cmbn);
        permutation_verifier(hv, &mut me.ch, chal_perm, &lw, &lr)?;
        Ok(me.ch)
    }

    /// Ends the memory: drains the address space, draws both challenges
    /// from the transcript and runs `finalize_with`. It accepts exactly
    /// when the drain's words arrive whole and the permutation argument
    /// over the drained logs accepts.
    pub fn finalize(self, hv: &mut HomcomVerifier) -> (r: Result<TxChannel, RamError>)
        requires
            self.wf(),
            old(hv).wf(),
        ensures
            final(hv).wf(),
            final(hv).delta() == old(hv).delta(),
            r is Ok <==> ({
                let b = self.space().spec_bound() as int;
                let u = old(hv).unused();
                let inc = self.channel().incoming();
                &&& u.len() >= 3 * b
                &&& words_ok(inc, 0, 3 * b)
                &&& perm_accepts(
                    u.subrange(3 * b, u.len() as int),
                    inc.subrange(24 * b, inc.len() as int),
                    self.write_log().len() + b,
                    self.read_log().len() + b,
                    old(hv).delta().val(),
                )
            }),
            r matches Ok(ch) ==> ch.wf() && reads_only(self.channel(), ch) && ch.outgoing() == self.channel().outgoing(),
    {
        let mut me = self;
        me.drain(hv)?;
        let c = me.ch.challenge();
        let ghost drained = me;
        let r = me.finalize_with(hv, c[0], c[1]);
        proof {
            match r {
                Ok(ref ch) => {
                    let ch = *ch;
                    lemma_reads_only_trans(self.channel(), drained.channel(), ch);
                },
                Err(_) => {},
            }
        }
        r
    }
}

} // verus!
