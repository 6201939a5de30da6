//! Commitments by information-theoretic MACs over the field.
//!
//! The verifier holds a global key `delta`; a committed value `x` is held
//! by the prover as `(x, tag)` and by the verifier as `key`, with
//! `tag == key + x * delta`. Commitments consume correlated pairs handed
//! in at construction: the prover's `(u, tag_u)` and the verifier's
//! `key_u`, related in the same way.
use vstd::prelude::*;

use crate::error::RamError;
use crate::field::{
    cong, elem_at, elem_bytes, elem_ok, fadd, fmul, fsub, lemma_cong_add, lemma_cong_eq, lemma_cong_mul,
    lemma_cong_ops, lemma_cong_sub, p, Fp,
};
use crate::tx::{
    challenge_of, lemma_reads_only_refl, lemma_reads_only_trans, lemma_sends_only_refl, lemma_sends_only_trans,
    reads_only, sends_only, TxChannel,
};

verus! {

/// A committed value as the prover holds it.
#[derive(Clone, Copy, PartialEq, Eq, Structural, Debug)]
pub struct MacProver {
    pub value: Fp,
    pub tag: Fp,
}

/// A committed value as the verifier holds it.
#[derive(Clone, Copy, PartialEq, Eq, Structural, Debug)]
pub struct MacVerifier {
    pub key: Fp,
}

/// The MAC relation between the two parties' halves of one commitment.
pub open spec fn authentic(m: MacProver, k: MacVerifier, delta: Fp) -> bool {
    m.tag.val() == fadd(k.key.val(), fmul(m.value.val(), delta.val()))
}

/// `x^n` in the field.
pub open spec fn fpow(x: int, n: nat) -> int
    decreases n,
{
    if n == 0 {
        1
    } else {
        fmul(fpow(x, (n - 1) as nat), x)
    }
}

/// The prover's first sum of the multiplication check:
/// `sum chi^i * tag_a * tag_b`.
pub open spec fn mul_check_a0(t: Seq<(MacProver, MacProver, MacProver)>, chi: int) -> int
    decreases t.len(),
{
    if t.len() == 0 {
        0
    } else {
        let (a, b, _) = t.last();
        fadd(
            mul_check_a0(t.drop_last(), chi),
            fmul(fpow(chi, (t.len() - 1) as nat), fmul(a.tag.val(), b.tag.val())),
        )
    }
}

/// The prover's second sum of the multiplication check:
/// `sum chi^i * (a * tag_b + b * tag_a - tag_c)`.
pub open spec fn mul_check_a1(t: Seq<(MacProver, MacProver, MacProver)>, chi: int) -> int
    decreases t.len(),
{
    if t.len() == 0 {
        0
    } else {
        let (a, b, c) = t.last();
        fadd(
            mul_check_a1(t.drop_last(), chi),
            fmul(
                fpow(chi, (t.len() - 1) as nat),
                fsub(fadd(fmul(a.value.val(), b.tag.val()), fmul(b.value.val(), a.tag.val())), c.tag.val()),
            ),
        )
    }
}

/// The verifier's sum of the multiplication check:
/// `sum chi^i * (key_a * key_b + key_c * delta)`.
pub open spec fn mul_check_b(t: Seq<(MacVerifier, MacVerifier, MacVerifier)>, chi: int, delta: int) -> int
    decreases t.len(),
{
    if t.len() == 0 {
        0
    } else {
        let (a, b, c) = t.last();
        fadd(
            mul_check_b(t.drop_last(), chi, delta),
            fmul(fpow(chi, (t.len() - 1) as nat), fadd(fmul(a.key.val(), b.key.val()), fmul(c.key.val(), delta))),
        )
    }
}

/// A commitment to a value both parties know: the prover's half.
pub fn prover_public(c: Fp) -> (r: MacProver)
    ensures
        r.value == c,
        r.tag.val() == 0,
{
    MacProver { value: c, tag: Fp::zero() }
}

/// A commitment to a value both parties know: the verifier's half.
pub fn verifier_public(c: Fp, delta: Fp) -> (r: MacVerifier)
    ensures
        r.key.val() == fsub(0, fmul(c.val(), delta.val())),
{
    MacVerifier { key: c.mul(delta).neg() }
}

pub fn prover_add(a: MacProver, b: MacProver) -> (r: MacProver)
    ensures
        r.value.val() == fadd(a.value.val(), b.value.val()),
        r.tag.val() == fadd(a.tag.val(), b.tag.val()),
{
    MacProver { value: a.value.add(b.value), tag: a.tag.add(b.tag) }
}

pub fn verifier_add(a: MacVerifier, b: MacVerifier) -> (r: MacVerifier)
    ensures
        r.key.val() == fadd(a.key.val(), b.key.val()),
{
    MacVerifier { key: a.key.add(b.key) }
}

pub fn prover_sub(a: MacProver, b: MacProver) -> (r: MacProver)
    ensures
        r.value.val() == fsub(a.value.val(), b.value.val()),
        r.tag.val() == fsub(a.tag.val(), b.tag.val()),
{
    MacProver { value: a.value.sub(b.value), tag: a.tag.sub(b.tag) }
}

pub fn verifier_sub(a: MacVerifier, b: MacVerifier) -> (r: MacVerifier)
    ensures
        r.key.val() == fsub(a.key.val(), b.key.val()),
{
    MacVerifier { key: a.key.sub(b.key) }
}

pub fn prover_mul_constant(a: MacProver, c: Fp) -> (r: MacProver)
    ensures
        r.value.val() == fmul(a.value.val(), c.val()),
        r.tag.val() == fmul(a.tag.val(), c.val()),
{
    MacProver { value: a.value.mul(c), tag: a.tag.mul(c) }
}

pub fn verifier_mul_constant(a: MacVerifier, c: Fp) -> (r: MacVerifier)
    ensures
        r.key.val() == fmul(a.key.val(), c.val()),
{
    MacVerifier { key: a.key.mul(c) }
}

pub fn prover_add_constant(a: MacProver, c: Fp) -> (r: MacProver)
    ensures
        r.value.val() == fadd(a.value.val(), c.val()),
        r.tag == a.tag,
{
    MacProver { value: a.value.add(c), tag: a.tag }
}

pub fn verifier_add_constant(a: MacVerifier, c: Fp, delta: Fp) -> (r: MacVerifier)
    ensures
        r.key.val() == fsub(a.key.val(), fmul(c.val(), delta.val())),
{
    MacVerifier { key: a.key.sub(c.mul(delta)) }
}

/// The prover's half `(u, key + u * delta)` of a correlated pair whose
/// verifier half is `key`.
pub fn correlated_pair(delta: Fp, u: Fp, key: Fp) -> (r: (Fp, Fp))
    ensures
        r.0 == u,
        r.1.val() == fadd(key.val(), fmul(u.val(), delta.val())),
{
    (u, key.add(u.mul(delta)))
}

/// The prover's side of the commitment functionality.
pub struct HomcomProver {
    voles: Vec<(Fp, Fp)>,
    next: usize,
    triples: Vec<(MacProver, MacProver, MacProver)>,
}

impl HomcomProver {
    pub closed spec fn wf(self) -> bool {
        self.next <= self.voles@.len()
    }

    /// Correlated pairs `(u, tag_u)` not used yet.
    pub closed spec fn unused(self) -> Seq<(Fp, Fp)> {
        self.voles@.subrange(self.next as int, self.voles@.len() as int)
    }

    /// Products awaiting the multiplication check.
    pub closed spec fn pending(self) -> Seq<(MacProver, MacProver, MacProver)> {
        self.triples@
    }

    pub fn new(voles: Vec<(Fp, Fp)>) -> (r: HomcomProver)
        ensures
            r.wf(),
            r.unused() == voles@,
            r.pending() == Seq::<(MacProver, MacProver, MacProver)>::empty(),
    {
        let r = HomcomProver { voles, next: 0, triples: Vec::new() };
        proof {
            assert(r.unused() == r.voles@.subrange(0, r.voles@.len() as int));
        }
        r
    }

    pub fn remaining(&self) -> (r: usize)
        requires
            self.wf(),
        ensures
            r == self.unused().len(),
    {
        self.voles.len() - self.next
    }

    /// Commits to a private value: sends `x - u` for the next pair
    /// `(u, tag_u)` and holds `(x, tag_u)`.
    pub fn input_private(&mut self, ch: &mut TxChannel, x: Fp) -> (r: Result<MacProver, RamError>)
        requires
            old(self).wf(),
            old(ch).wf(),
        ensures
            final(self).wf(),
            final(ch).wf(),
            final(self).pending() == old(self).pending(),
            final(ch).incoming() == old(ch).incoming(),
            sends_only(*old(ch), *final(ch)),
            old(self).unused().len() == 0 ==> r == Err::<MacProver, RamError>(RamError::Exhausted)
                && *final(self) == *old(self) && *final(ch) == *old(ch),
            old(self).unused().len() > 0 ==> ({
                let (u, tu) = old(self).unused()[0];
                let d = elem_bytes(fsub(x.val(), u.val()));
                &&& r == Ok::<MacProver, RamError>(MacProver { value: x, tag: tu })
                &&& final(self).unused() == old(self).unused().drop_first()
                &&& final(ch).transcript() == old(ch).transcript() + d
                &&& final(ch).outgoing() == old(ch).outgoing() + d
            }),
    {
        if self.next >= self.voles.len() {
            proof {
                lemma_sends_only_refl(*ch);
            }
            return Err(RamError::Exhausted);
        }
        let (u, tu) = self.voles[self.next];
        self.next = self.next + 1;
        ch.write_elem(x.sub(u));
        proof {
            assert(self.unused() == old(self).unused().drop_first());
        }
        Ok(MacProver { value: x, tag: tu })
    }

    /// Multiplies two committed values: commits to the product and keeps
    /// the three for the multiplication check.
    pub fn mul(&mut self, ch: &mut TxChannel, a: MacProver, b: MacProver) -> (r: Result<MacProver, RamError>)
        requires
            old(self).wf(),
            old(ch).wf(),
        ensures
            final(self).wf(),
            final(ch).wf(),
            final(ch).incoming() == old(ch).incoming(),
            sends_only(*old(ch), *final(ch)),
            old(self).unused().len() == 0 ==> r == Err::<MacProver, RamError>(RamError::Exhausted),
            old(self).unused().len() > 0 ==> ({
                let (u, tu) = old(self).unused()[0];
                let z = fmul(a.value.val(), b.value.val());
                let d = elem_bytes(fsub(z, u.val()));
                &&& r matches Ok(c) && c.value.val() == z && c.tag == tu
                    && final(self).pending() == old(self).pending().push((a, b, c))
                &&& final(self).unused() == old(self).unused().drop_first()
                &&& final(ch).transcript() == old(ch).transcript() + d
                &&& final(ch).outgoing() == old(ch).outgoing() + d
            }),
    {
        let c = self.input_private(ch, a.value.mul(b.value))?;
        self.triples.push((a, b, c));
        Ok(c)
    }

    /// Opens a commitment to zero: sends its tag. Refuses, sending
    /// nothing, where the value is not zero.
    pub fn assert_zero(&mut self, ch: &mut TxChannel, w: MacProver) -> (r: Result<(), RamError>)
        requires
            old(ch).wf(),
        ensures
            final(ch).wf(),
            *final(self) == *old(self),
            final(ch).incoming() == old(ch).incoming(),
            sends_only(*old(ch), *final(ch)),
            w.value.val() != 0 ==> r == Err::<(), RamError>(RamError::CheckFailed) && *final(ch) == *old(ch),
            w.value.val() == 0 ==> r is Ok
                && final(ch).transcript() == old(ch).transcript() + w.tag.to_bytes_spec()
                && final(ch).outgoing() == old(ch).outgoing() + w.tag.to_bytes_spec(),
    {
        if w.value.value() != 0 {
            proof {
                lemma_sends_only_refl(*ch);
            }
            return Err(RamError::CheckFailed);
        }
        ch.write_elem(w.tag);
        Ok(())
    }

    /// Runs the prover's half of the multiplication check over every
    /// pending product: with `chi` drawn from the transcript, sends
    /// `a0 + tag_u` and `a1 + u` for the next pair `(u, tag_u)`.
    pub fn finalize(&mut self, ch: &mut TxChannel) -> (r: Result<(), RamError>)
        requires
            old(self).wf(),
            old(ch).wf(),
        ensures
            final(self).wf(),
            final(ch).wf(),
            final(ch).incoming() == old(ch).incoming(),
            sends_only(*old(ch), *final(ch)),
            old(self).unused().len() == 0 <==> r is Err,
            r is Err ==> r == Err::<(), RamError>(RamError::Exhausted) && *final(self) == *old(self) && *final(ch) == *old(ch),
            r is Ok ==> ({
                let chi = challenge_of(old(ch).transcript()).0;
                let (u, tu) = old(self).unused()[0];
                let msg = elem_bytes(fadd(mul_check_a0(old(self).pending(), chi), tu.val()))
                    + elem_bytes(fadd(mul_check_a1(old(self).pending(), chi), u.val()));
                &&& final(self).pending() == Seq::<(MacProver, MacProver, MacProver)>::empty()
                &&& final(self).unused() == old(self).unused().drop_first()
                &&& final(ch).transcript() == old(ch).transcript() + msg
                &&& final(ch).outgoing() == old(ch).outgoing() + msg
            }),
    {
        if self.next >= self.voles.len() {
            proof {
                lemma_sends_only_refl(*ch);
            }
            return Err(RamError::Exhausted);
        }
        let chi = ch.challenge()[0];
        let mut a0 = Fp::zero();
        let mut a1 = Fp::zero();
        let mut pw = Fp::one();
        let mut i: usize = 0;
        while i < self.triples.len()
            invariant
                i <= self.triples@.len(),
                self == old(self),
                a0.val() == mul_check_a0(self.triples@.subrange(0, i as int), chi.val()),
                a1.val() == mul_check_a1(self.triples@.subrange(0, i as int), chi.val()),
                pw.val() == fpow(chi.val(), i as nat),
            decreases self.triples@.len() - i,
        {
            let (a, b, c) = self.triples[i];
            a0 = a0.add(pw.mul(a.tag.mul(b.tag)));
            a1 = a1.add(pw.mul(a.value.mul(b.tag).add(b.value.mul(a.tag)).sub(c.tag)));
            pw = pw.mul(chi);
            i = i + 1;
            proof {
                assert(self.triples@.subrange(0, i as int).drop_last() == self.triples@.subrange(0, i - 1 as int));
            }
        }
        proof {
            assert(self.triples@.subrange(0, i as int) == self.triples@);
        }
        let (u, tu) = self.voles[self.next];
        self.next = self.next + 1;
        let ghost c0 = *ch;
        ch.write_elem(a0.add(tu));
        let ghost c1 = *ch;
        ch.write_elem(a1.add(u));
        proof {
            lemma_sends_only_trans(c0, c1, *ch);
        }
        self.triples.clear();
        proof {
            assert(self.unused() == old(self).unused().drop_first());
        }
        Ok(())
    }
}

/// The verifier's side of the commitment functionality.
pub struct HomcomVerifier {
    delta: Fp,
    keys: Vec<Fp>,
    next: usize,
    triples: Vec<(MacVerifier, MacVerifier, MacVerifier)>,
}

impl HomcomVerifier {
    pub closed spec fn wf(self) -> bool {
        self.next <= self.keys@.len()
    }

    /// The global MAC key.
    pub closed spec fn delta(self) -> Fp {
        self.delta
    }

    /// Correlated keys `key_u` not used yet.
    pub closed spec fn unused(self) -> Seq<Fp> {
        self.keys@.subrange(self.next as int, self.keys@.len() as int)
    }

    /// Products awaiting the multiplication check.
    pub closed spec fn pending(self) -> Seq<(MacVerifier, MacVerifier, MacVerifier)> {
        self.triples@
    }

    pub fn new(delta: Fp, keys: Vec<Fp>) -> (r: HomcomVerifier)
        ensures
            r.wf(),
            r.delta() == delta,
            r.unused() == keys@,
            r.pending() == Seq::<(MacVerifier, MacVerifier, MacVerifier)>::empty(),
    {
        let r = HomcomVerifier { delta, keys, next: 0, triples: Vec::new() };
        proof {
            assert(r.unused() == r.keys@.subrange(0, r.keys@.len() as int));
        }
        r
    }

    pub fn get_delta(&self) -> (r: Fp)
        ensures
            r == self.delta(),
    {
        self.delta
    }

    pub fn remaining(&self) -> (r: usize)
        requires
            self.wf(),
        ensures
            r == self.unused().len(),
    {
        self.keys.len() - self.next
    }

    /// A commitment to a value both parties know.
    pub fn input_public(&self, c: Fp) -> (r: MacVerifier)
        ensures
            r.key.val() == fsub(0, fmul(c.val(), self.delta().val())),
    {
        verifier_public(c, self.delta)
    }

    /// Receives a commitment to the prover's private value: reads `d` and
    /// holds `key_u - d * delta` for the next key `key_u`.
    pub fn input_private(&mut self, ch: &mut TxChannel) -> (r: Result<MacVerifier, RamError>)
        requires
            old(self).wf(),
            old(ch).wf(),
        ensures
            final(self).wf(),
            final(ch).wf(),
            final(self).delta() == old(self).delta(),
            final(self).pending() == old(self).pending(),
            final(ch).outgoing() == old(ch).outgoing(),
            reads_only(*old(ch), *final(ch)),
            old(self).unused().len() == 0 ==> r == Err::<MacVerifier, RamError>(RamError::Exhausted)
                && *final(self) == *old(self) && *final(ch) == *old(ch),
            r is Ok <==> old(self).unused().len() > 0 && elem_ok(old(ch).incoming(), 0),
            r matches Ok(k) ==> ({
                let d = elem_at(old(ch).incoming(), 0);
                &&& k.key.val() == fsub(old(self).unused()[0].val(), fmul(d, old(self).delta().val()))
                &&& final(self).unused() == old(self).unused().drop_first()
                &&& final(ch).transcript() == old(ch).transcript() + old(ch).incoming().subrange(0, 8)
                &&& final(ch).incoming() == old(ch).incoming().subrange(8, old(ch).incoming().len() as int)
            }),
    {
        if self.next >= self.keys.len() {
            proof {
                lemma_reads_only_refl(*ch);
            }
            return Err(RamError::Exhausted);
        }
        let d = ch.read_elem()?;
        let ku = self.keys[self.next];
        self.next = self.next + 1;
        proof {
            assert(self.unused() == old(self).unused().drop_first());
        }
        Ok(MacVerifier { key: ku.sub(d.mul(self.delta)) })
    }

    /// Receives a commitment to a product of two committed values and
    /// keeps the three for the multiplication check.
    pub fn mul(&mut self, ch: &mut TxChannel, a: MacVerifier, b: MacVerifier) -> (r: Result<MacVerifier, RamError>)
        requires
            old(self).wf(),
            old(ch).wf(),
        ensures
            final(self).wf(),
            final(ch).wf(),
            final(self).delta() == old(self).delta(),
            final(ch).outgoing() == old(ch).outgoing(),
            reads_only(*old(ch), *final(ch)),
            r is Ok <==> old(self).unused().len() > 0 && elem_ok(old(ch).incoming(), 0),
            r matches Ok(c) ==> ({
                let d = elem_at(old(ch).incoming(), 0);
                &&& c.key.val() == fsub(old(self).unused()[0].val(), fmul(d, old(self).delta().val()))
                &&& final(self).pending() == old(self).pending().push((a, b, c))
                &&& final(self).unused() == old(self).unused().drop_first()
                &&& final(ch).transcript() == old(ch).transcript() + old(ch).incoming().subrange(0, 8)
                &&& final(ch).incoming() == old(ch).incoming().subrange(8, old(ch).incoming().len() as int)
            }),
    {
        let c = self.input_private(ch)?;
        self.triples.push((a, b, c));
        Ok(c)
    }

    /// Checks the opening of a commitment to zero: reads a tag and accepts
    /// exactly when it equals the key.
    pub fn assert_zero(&mut self, ch: &mut TxChannel, w: MacVerifier) -> (r: Result<(), RamError>)
        requires
            old(ch).wf(),
        ensures
            final(ch).wf(),
            *final(self) == *old(self),
            final(ch).outgoing() == old(ch).outgoing(),
            reads_only(*old(ch), *final(ch)),
            r is Ok <==> elem_ok(old(ch).incoming(), 0) && elem_at(old(ch).incoming(), 0) == w.key.val(),
            r is Ok ==> final(ch).transcript() == old(ch).transcript() + old(ch).incoming().subrange(0, 8)
                && final(ch).incoming() == old(ch).incoming().subrange(8, old(ch).incoming().len() as int),
    {
        let m = ch.read_elem()?;
        if m.value() == w.key.value() {
            Ok(())
        } else {
            Err(RamError::CheckFailed)
        }
    }

    /// Runs the verifier's half of the multiplication check over every
    /// pending product: with `chi` drawn from the transcript, reads `s0`
    /// and `s1` and accepts exactly when `b + key_u == s0 - s1 * delta`.
    pub fn finalize(&mut self, ch: &mut TxChannel) -> (r: Result<(), RamError>)
        requires
            old(self).wf(),
            old(ch).wf(),
        ensures
            final(self).wf(),
            final(ch).wf(),
            final(self).delta() == old(self).delta(),
            final(ch).outgoing() == old(ch).outgoing(),
            reads_only(*old(ch), *final(ch)),
            old(self).unused().len() == 0 ==> r == Err::<(), RamError>(RamError::Exhausted),
            r is Ok <==> ({
                let chi = challenge_of(old(ch).transcript()).0;
                let inc = old(ch).incoming();
                let delta = old(self).delta().val();
                &&& old(self).unused().len() > 0
                &&& elem_ok(inc, 0)
                &&& elem_ok(inc, 1)
                &&& fadd(mul_check_b(old(self).pending(), chi, delta), old(self).unused()[0].val())
                    == fsub(elem_at(inc, 0), fmul(elem_at(inc, 1), delta))
            }),
            r is Ok ==> final(self).pending() == Seq::<(MacVerifier, MacVerifier, MacVerifier)>::empty()
                && final(self).unused() == old(self).unused().drop_first()
                && final(ch).transcript() == old(ch).transcript() + old(ch).incoming().subrange(0, 16)
                && final(ch).incoming() == old(ch).incoming().subrange(16, old(ch).incoming().len() as int),
    {
        if self.next >= self.keys.len() {
            proof {
                lemma_reads_only_refl(*ch);
            }
            return Err(RamError::Exhausted);
        }
        let chi = ch.challenge()[0];
        let mut acc = Fp::zero();
        let mut pw = Fp::one();
        let mut i: usize = 0;
        while i < self.triples.len()
            invariant
                i <= self.triples@.len(),
                self == old(self),
                acc.val() == mul_check_b(self.triples@.subrange(0, i as int), chi.val(), self.delta.val()),
                pw.val() == fpow(chi.val(), i as nat),
            decreases self.triples@.len() - i,
        {
            let (a, b, c) = self.triples[i];
            acc = acc.add(pw.mul(a.key.mul(b.key).add(c.key.mul(self.delta))));
            pw = pw.mul(chi);
            i = i + 1;
            proof {
                assert(self.triples@.subrange(0, i as int).drop_last() == self.triples@.subrange(0, i - 1 as int));
            }
        }
        proof {
            assert(self.triples@.subrange(0, i as int) == self.triples@);
        }
        let ku = self.keys[self.next];
        let ghost inc = ch.incoming();
        let ghost c0 = *ch;
        let s0 = ch.read_elem()?;
        let ghost inc1 = ch.incoming();
        let ghost c1 = *ch;
        let s1 = match ch.read_elem() {
            Ok(x) => x,
            Err(e) => {
                proof {
                    lemma_reads_only_trans(c0, c1, *ch);
                    if inc.len() >= 16 {
                        assert(inc1.subrange(0, 8) == inc.subrange(8, 16));
                    }
                }
                return Err(e);
            },
        };
        proof {
            assert(inc1.subrange(0, 8) == inc.subrange(8, 16));
            assert(inc.subrange(0, 8) + inc.subrange(8, 16) == inc.subrange(0, 16));
            assert(inc1.subrange(8, inc1.len() as int) == inc.subrange(16, inc.len() as int));
        }
        proof {
            lemma_reads_only_trans(c0, c1, *ch);
        }
        if acc.add(ku).value() != s0.sub(s1.mul(self.delta)).value() {
            return Err(RamError::CheckFailed);
        }
        self.next = self.next + 1;
        self.triples.clear();
        proof {
            assert(self.unused() == old(self).unused().drop_first());
        }
        Ok(())
    }
}

/// The MAC relation of a commitment, over representatives: committing
/// to `x` with a pair `(u, tag_u)` whose key is `key_u` leaves the
/// verifier the key `key_u - (x - u) * delta` of the tag `tag_u`.
pub proof fn lemma_commit_relation(x: int, uv: int, tu: int, kv: int, d: int)
    requires
        0 <= tu < p(),
        tu == fadd(kv, fmul(uv, d)),
    ensures
        tu == fadd(fsub(kv, fmul(fsub(x, uv), d)), fmul(x, d)),
{
    let e = fsub(x, uv);
    let key = fsub(kv, fmul(e, d));
    lemma_cong_ops(x, uv);
    lemma_cong_ops(e, d);
    lemma_cong_mul(e, x - uv, d, d);
    lemma_cong_ops(kv, fmul(e, d));
    lemma_cong_sub(kv, kv, fmul(e, d), (x - uv) * d);
    lemma_cong_ops(x, d);
    lemma_cong_ops(key, fmul(x, d));
    lemma_cong_add(key, kv - (x - uv) * d, fmul(x, d), x * d);
    lemma_cong_ops(uv, d);
    lemma_cong_ops(kv, fmul(uv, d));
    lemma_cong_add(kv, kv, fmul(uv, d), uv * d);
    assert(kv - (x - uv) * d + x * d == kv + uv * d) by (nonlinear_arith);
    lemma_cong_eq(tu, fadd(key, fmul(x, d)));
}

/// Committing to `x` with a correlated pair, `(u, tag_u)` for the prover
/// and `key_u` for the verifier, gives halves in the MAC relation: the
/// prover holds `(x, tag_u)`, the verifier `key_u - (x - u) * delta`.
pub proof fn lemma_commit_authentic(x: Fp, u: Fp, tu: Fp, ku: Fp, key: Fp, delta: Fp)
    requires
        tu.val() == fadd(ku.val(), fmul(u.val(), delta.val())),
        key.val() == fsub(ku.val(), fmul(fsub(x.val(), u.val()), delta.val())),
    ensures
        authentic(MacProver { value: x, tag: tu }, MacVerifier { key }, delta),
{
    tu.lemma_range();
    lemma_commit_relation(x.val(), u.val(), tu.val(), ku.val(), delta.val());
}

/// The public commitment to `c`, over representatives: tag zero, key
/// `-c * delta`.
pub proof fn lemma_public_relation(c: int, d: int)
    ensures
        0 == fadd(fsub(0, fmul(c, d)), fmul(c, d)),
{
    lemma_cong_ops(c, d);
    lemma_cong_ops(0, fmul(c, d));
    lemma_cong_sub(0, 0, fmul(c, d), c * d);
    lemma_cong_ops(fsub(0, fmul(c, d)), fmul(c, d));
    lemma_cong_add(fsub(0, fmul(c, d)), 0 - c * d, fmul(c, d), c * d);
    lemma_cong_eq(0, fadd(fsub(0, fmul(c, d)), fmul(c, d)));
}

/// A public commitment is in the MAC relation.
pub proof fn lemma_public_authentic(pc: MacProver, vc: MacVerifier, delta: Fp)
    requires
        pc.tag.val() == 0,
        vc.key.val() == fsub(0, fmul(pc.value.val(), delta.val())),
    ensures
        authentic(pc, vc, delta),
{
    lemma_public_relation(pc.value.val(), delta.val());
}

/// Sums and differences of commitments, and multiples by constants, stay
/// in the MAC relation.
pub proof fn lemma_linear_authentic(
    pa: MacProver,
    va: MacVerifier,
    pb: MacProver,
    vb: MacVerifier,
    ps: MacProver,
    vs: MacVerifier,
    pd: MacProver,
    vd: MacVerifier,
    pm: MacProver,
    vm: MacVerifier,
    c: Fp,
    delta: Fp,
)
    requires
        authentic(pa, va, delta),
        authentic(pb, vb, delta),
        ps.value.val() == fadd(pa.value.val(), pb.value.val()),
        ps.tag.val() == fadd(pa.tag.val(), pb.tag.val()),
        vs.key.val() == fadd(va.key.val(), vb.key.val()),
        pd.value.val() == fsub(pa.value.val(), pb.value.val()),
        pd.tag.val() == fsub(pa.tag.val(), pb.tag.val()),
        vd.key.val() == fsub(va.key.val(), vb.key.val()),
        pm.value.val() == fmul(pa.value.val(), c.val()),
        pm.tag.val() == fmul(pa.tag.val(), c.val()),
        vm.key.val() == fmul(va.key.val(), c.val()),
    ensures
        authentic(ps, vs, delta),
        authentic(pd, vd, delta),
        authentic(pm, vm, delta),
{
    let d = delta.val();
    let (a, ta, ka) = (pa.value.val(), pa.tag.val(), va.key.val());
    let (b, tb, kb) = (pb.value.val(), pb.tag.val(), vb.key.val());
    let cv = c.val();
    lemma_cong_ops(ka, fmul(a, d));
    lemma_cong_ops(a, d);
    lemma_cong_add(ka, ka, fmul(a, d), a * d);
    lemma_cong_ops(kb, fmul(b, d));
    lemma_cong_ops(b, d);
    lemma_cong_add(kb, kb, fmul(b, d), b * d);
    // sum
    lemma_cong_ops(ta, tb);
    lemma_cong_add(ta, ka + a * d, tb, kb + b * d);
    lemma_cong_ops(ka, kb);
    lemma_cong_ops(a, b);
    lemma_cong_ops(ps.value.val(), d);
    lemma_cong_mul(ps.value.val(), a + b, d, d);
    lemma_cong_ops(vs.key.val(), fmul(ps.value.val(), d));
    lemma_cong_add(vs.key.val(), ka + kb, fmul(ps.value.val(), d), (a + b) * d);
    assert((ka + kb) + (a + b) * d == (ka + a * d) + (kb + b * d)) by (nonlinear_arith);
    ps.tag.lemma_range();
    lemma_cong_eq(ps.tag.val(), fadd(vs.key.val(), fmul(ps.value.val(), d)));
    // difference
    lemma_cong_sub(ta, ka + a * d, tb, kb + b * d);
    lemma_cong_ops(pd.value.val(), d);
    lemma_cong_mul(pd.value.val(), a - b, d, d);
    lemma_cong_ops(vd.key.val(), fmul(pd.value.val(), d));
    lemma_cong_add(vd.key.val(), ka - kb, fmul(pd.value.val(), d), (a - b) * d);
    assert((ka - kb) + (a - b) * d == (ka + a * d) - (kb + b * d)) by (nonlinear_arith);
    pd.tag.lemma_range();
    lemma_cong_eq(pd.tag.val(), fadd(vd.key.val(), fmul(pd.value.val(), d)));
    // multiple
    lemma_cong_ops(ta, cv);
    lemma_cong_mul(ta, ka + a * d, cv, cv);
    lemma_cong_ops(ka, cv);
    lemma_cong_ops(a, cv);
    lemma_cong_ops(pm.value.val(), d);
    lemma_cong_mul(pm.value.val(), a * cv, d, d);
    lemma_cong_ops(vm.key.val(), fmul(pm.value.val(), d));
    lemma_cong_add(vm.key.val(), ka * cv, fmul(pm.value.val(), d), a * cv * d);
    assert(ka * cv + a * cv * d == (ka + a * d) * cv) by (nonlinear_arith);
    pm.tag.lemma_range();
    lemma_cong_eq(pm.tag.val(), fadd(vm.key.val(), fmul(pm.value.val(), d)));
}

/// Opening a commitment to zero: its tag is its key, so the verifier
/// accepts the honest opening.
pub proof fn lemma_zero_opening(m: MacProver, k: MacVerifier, delta: Fp)
    requires
        authentic(m, k, delta),
        m.value.val() == 0,
    ensures
        m.tag.val() == k.key.val(),
{
    k.key.lemma_range();
    vstd::arithmetic::div_mod::lemma_small_mod(k.key.val() as nat, p() as nat);
}

/// The MAC relation as a congruence: `tag = key + value * delta`.
proof fn lemma_auth_cong(m: MacProver, k: MacVerifier, delta: Fp)
    requires
        authentic(m, k, delta),
    ensures
        cong(m.tag.val(), k.key.val() + m.value.val() * delta.val()),
{
    lemma_cong_ops(m.value.val(), delta.val());
    lemma_cong_ops(k.key.val(), fmul(m.value.val(), delta.val()));
    lemma_cong_add(k.key.val(), k.key.val(), fmul(m.value.val(), delta.val()), m.value.val() * delta.val());
}

/// Whether the two parties' halves of pending products match: every
/// commitment in the MAC relation and every product correct.
pub open spec fn products_honest(
    tp: Seq<(MacProver, MacProver, MacProver)>,
    tv: Seq<(MacVerifier, MacVerifier, MacVerifier)>,
    delta: Fp,
) -> bool {
    &&& tp.len() == tv.len()
    &&& forall|i: int|
        0 <= i < tp.len() ==> {
            let (a, b, c) = #[trigger] tp[i];
            let (ka, kb, kc) = tv[i];
            &&& authentic(a, ka, delta)
            &&& authentic(b, kb, delta)
            &&& authentic(c, kc, delta)
            &&& c.value.val() == fmul(a.value.val(), b.value.val())
        }
}

proof fn lemma_mul_term(a: MacProver, b: MacProver, c: MacProver, ka: MacVerifier, kb: MacVerifier, kc: MacVerifier, delta: Fp)
    requires
        authentic(a, ka, delta),
        authentic(b, kb, delta),
        authentic(c, kc, delta),
        c.value.val() == fmul(a.value.val(), b.value.val()),
    ensures
        cong(
            fadd(fmul(ka.key.val(), kb.key.val()), fmul(kc.key.val(), delta.val())),
            fmul(a.tag.val(), b.tag.val()) - fsub(
                fadd(fmul(a.value.val(), b.tag.val()), fmul(b.value.val(), a.tag.val())),
                c.tag.val(),
            ) * delta.val(),
        ),
{
    let d = delta.val();
    let (av, bv, cv) = (a.value.val(), b.value.val(), c.value.val());
    let (ta, tb, tc) = (a.tag.val(), b.tag.val(), c.tag.val());
    let (xa, xb, xc) = (ka.key.val(), kb.key.val(), kc.key.val());
    let big_a = xa + av * d;
    let big_b = xb + bv * d;
    lemma_auth_cong(a, ka, delta);
    lemma_auth_cong(b, kb, delta);
    lemma_auth_cong(c, kc, delta);
    let a0 = fmul(ta, tb);
    lemma_cong_ops(ta, tb);
    lemma_cong_mul(ta, big_a, tb, big_b);
    lemma_cong_ops(av, tb);
    lemma_cong_mul(av, av, tb, big_b);
    lemma_cong_ops(bv, ta);
    lemma_cong_mul(bv, bv, ta, big_a);
    let s1 = fadd(fmul(av, tb), fmul(bv, ta));
    lemma_cong_ops(fmul(av, tb), fmul(bv, ta));
    lemma_cong_add(fmul(av, tb), av * big_b, fmul(bv, ta), bv * big_a);
    lemma_cong_ops(av, bv);
    lemma_cong_mul(cv, av * bv, d, d);
    lemma_cong_add(xc, xc, cv * d, av * bv * d);
    let p1 = av * big_b + bv * big_a - (xc + av * bv * d);
    lemma_cong_sub(s1, av * big_b + bv * big_a, tc, xc + av * bv * d);
    let a1 = fsub(s1, tc);
    lemma_cong_ops(s1, tc);
    lemma_cong_mul(a1, p1, d, d);
    lemma_cong_sub(a0, big_a * big_b, a1 * d, p1 * d);
    lemma_cong_ops(xa, xb);
    lemma_cong_ops(xc, d);
    lemma_cong_ops(fmul(xa, xb), fmul(xc, d));
    lemma_cong_add(fmul(xa, xb), xa * xb, fmul(xc, d), xc * d);
    let q = av * bv * d;
    assert(big_a * big_b == xa * xb + xa * (bv * d) + (av * d) * xb + (av * d) * (bv * d)) by (nonlinear_arith)
        requires
            big_a == xa + av * d,
            big_b == xb + bv * d,
    ;
    assert(av * big_b + bv * big_a == av * xb + bv * xa + 2 * q) by (nonlinear_arith)
        requires
            big_a == xa + av * d,
            big_b == xb + bv * d,
            q == av * bv * d,
    ;
    assert(p1 == av * xb + bv * xa + q - xc);
    assert(p1 * d == (av * xb) * d + (bv * xa) * d + q * d - xc * d) by (nonlinear_arith)
        requires
            p1 == av * xb + bv * xa + q - xc,
    ;
    assert(xa * (bv * d) == (bv * xa) * d) by (nonlinear_arith);
    assert((av * d) * xb == (av * xb) * d) by (nonlinear_arith);
    assert((av * d) * (bv * d) == q * d) by (nonlinear_arith)
        requires
            q == av * bv * d,
    ;
    assert(big_a * big_b - p1 * d == xa * xb + xc * d);
}

/// Over honest halves the verifier's sum of the product check is the
/// prover's first sum minus `delta` times its second.
pub proof fn lemma_mul_check_sums(
    tp: Seq<(MacProver, MacProver, MacProver)>,
    tv: Seq<(MacVerifier, MacVerifier, MacVerifier)>,
    chi: int,
    delta: Fp,
)
    requires
        products_honest(tp, tv, delta),
    ensures
        cong(mul_check_b(tv, chi, delta.val()), mul_check_a0(tp, chi) - mul_check_a1(tp, chi) * delta.val()),
    decreases tp.len(),
{
    let d = delta.val();
    if tp.len() > 0 {
        let n = tp.len() - 1;
        let (tp1, tv1) = (tp.drop_last(), tv.drop_last());
        assert forall|i: int| 0 <= i < tp1.len() implies {
            let (a, b, c) = #[trigger] tp1[i];
            let (ka, kb, kc) = tv1[i];
            &&& authentic(a, ka, delta)
            &&& authentic(b, kb, delta)
            &&& authentic(c, kc, delta)
            &&& c.value.val() == fmul(a.value.val(), b.value.val())
        } by {
            assert(tp1[i] == tp[i]);
            assert(tv1[i] == tv[i]);
        }
        lemma_mul_check_sums(tp1, tv1, chi, delta);
        let (a, b, c) = tp[n];
        let (ka, kb, kc) = tv[n];
        assert(tp.last() == tp[n]);
        lemma_mul_term(a, b, c, ka, kb, kc, delta);
        let pw = fpow(chi, n as nat);
        let bf = fadd(fmul(ka.key.val(), kb.key.val()), fmul(kc.key.val(), d));
        let a0f = fmul(a.tag.val(), b.tag.val());
        let a1f = fsub(fadd(fmul(a.value.val(), b.tag.val()), fmul(b.value.val(), a.tag.val())), c.tag.val());
        let (b1, x1, y1) = (mul_check_b(tv1, chi, d), mul_check_a0(tp1, chi), mul_check_a1(tp1, chi));
        lemma_cong_ops(pw, bf);
        lemma_cong_ops(b1, fmul(pw, bf));
        lemma_cong_add(b1, b1, fmul(pw, bf), pw * bf);
        lemma_cong_ops(pw, a0f);
        lemma_cong_ops(x1, fmul(pw, a0f));
        lemma_cong_add(x1, x1, fmul(pw, a0f), pw * a0f);
        lemma_cong_ops(pw, a1f);
        lemma_cong_ops(y1, fmul(pw, a1f));
        lemma_cong_add(y1, y1, fmul(pw, a1f), pw * a1f);
        lemma_cong_mul(mul_check_a1(tp, chi), y1 + pw * a1f, d, d);
        lemma_cong_sub(mul_check_a0(tp, chi), x1 + pw * a0f, mul_check_a1(tp, chi) * d, (y1 + pw * a1f) * d);
        lemma_cong_mul(pw, pw, a0f - a1f * d, bf);
        lemma_cong_add(x1 - y1 * d, b1, pw * (a0f - a1f * d), pw * bf);
        assert((x1 + pw * a0f) - (y1 + pw * a1f) * d == (x1 - y1 * d) + pw * (a0f - a1f * d)) by (nonlinear_arith);
    }
}

/// Completeness of the product check: over honest halves of every
/// pending product, with a correlated mask pair `(u, tag_u)` / `key_u`,
/// what the prover sends, `a0 + tag_u` and `a1 + u`, passes the
/// verifier's test `b + key_u == s0 - s1 * delta`.
pub proof fn lemma_product_check_complete(
    tp: Seq<(MacProver, MacProver, MacProver)>,
    tv: Seq<(MacVerifier, MacVerifier, MacVerifier)>,
    chi: int,
    delta: Fp,
    u: Fp,
    tu: Fp,
    ku: Fp,
)
    requires
        products_honest(tp, tv, delta),
        tu.val() == fadd(ku.val(), fmul(u.val(), delta.val())),
    ensures
        fadd(mul_check_b(tv, chi, delta.val()), ku.val()) == fsub(
            fadd(mul_check_a0(tp, chi), tu.val()),
            fmul(fadd(mul_check_a1(tp, chi), u.val()), delta.val()),
        ),
{
    let d = delta.val();
    let (bb, x, y) = (mul_check_b(tv, chi, d), mul_check_a0(tp, chi), mul_check_a1(tp, chi));
    let (uv, tv0, kv) = (u.val(), tu.val(), ku.val());
    lemma_mul_check_sums(tp, tv, chi, delta);
    lemma_cong_ops(bb, kv);
    lemma_cong_add(bb, x - y * d, kv, kv);
    lemma_cong_ops(uv, d);
    lemma_cong_ops(kv, fmul(uv, d));
    lemma_cong_add(kv, kv, fmul(uv, d), uv * d);
    lemma_cong_ops(x, tv0);
    lemma_cong_add(x, x, tv0, kv + uv * d);
    lemma_cong_ops(y, uv);
    lemma_cong_ops(fadd(y, uv), d);
    lemma_cong_mul(fadd(y, uv), y + uv, d, d);
    lemma_cong_ops(fadd(x, tv0), fmul(fadd(y, uv), d));
    lemma_cong_sub(fadd(x, tv0), x + (kv + uv * d), fmul(fadd(y, uv), d), (y + uv) * d);
    assert(x + (kv + uv * d) - (y + uv) * d == (x - y * d) + kv) by (nonlinear_arith);
    lemma_cong_eq(fadd(bb, kv), fsub(fadd(x, tv0), fmul(fadd(y, uv), d)));
}

} // verus!
