//! The Fiat–Shamir transcript channel: every byte sent or received is
//! absorbed into one running BLAKE3 state, from which both parties
//! derive the same challenges.
use vstd::bytes::spec_u128_from_le_bytes;
use vstd::prelude::*;
use vstd::slice::slice_subrange;

use crate::error::RamError;
use crate::field::{elem_at, elem_ok, p, Fp, ELEM_BYTES};

verus! {

#[verifier::external_type_specification]
#[verifier::external_body]
pub struct ExHasher(blake3::Hasher);

/// The bytes that a BLAKE3 hasher has absorbed since it was made.
pub uninterp spec fn absorbed(h: blake3::Hasher) -> Seq<u8>;

/// The 32-byte BLAKE3 digest of a byte string.
pub uninterp spec fn blake3_digest(s: Seq<u8>) -> Seq<u8>;

/// Relies on `blake3::Hasher::new`: a hasher with no input yet.
#[verifier::external_body]
fn hasher_new() -> (r: blake3::Hasher)
    ensures
        absorbed(r) == Seq::<u8>::empty(),
{
    blake3::Hasher::new()
}

/// Relies on `blake3::Hasher::update`: the bytes are appended to the
/// hashed input.
#[verifier::external_body]
fn hasher_update(h: &mut blake3::Hasher, b: &[u8])
    ensures
        absorbed(*final(h)) == absorbed(*old(h)) + b@,
{
    h.update(b);
}

/// Relies on `blake3::Hasher::finalize`: the digest of all input so far,
/// leaving the state as it was.
#[verifier::external_body]
fn hasher_digest(h: &blake3::Hasher) -> (r: [u8; 32])
    ensures
        r@ == blake3_digest(absorbed(*h)),
{
    *h.finalize().as_bytes()
}

/// The two challenges that a transcript yields: each half of its digest,
/// read as a little-endian integer and reduced into the field.
pub open spec fn challenge_of(t: Seq<u8>) -> (int, int) {
    let d = blake3_digest(t);
    (
        spec_u128_from_le_bytes(d.subrange(0, 16)) as int % p(),
        spec_u128_from_le_bytes(d.subrange(16, 32)) as int % p(),
    )
}

/// From `a` to `b` the channel only sent: the bytes it absorbed are
/// exactly the bytes it queued for sending.
pub open spec fn sends_only(a: TxChannel, b: TxChannel) -> bool {
    let n = a.outgoing().len();
    &&& b.incoming() == a.incoming()
    &&& b.outgoing().len() >= n
    &&& b.outgoing().subrange(0, n as int) == a.outgoing()
    &&& b.transcript() == a.transcript() + b.outgoing().subrange(n as int, b.outgoing().len() as int)
}

/// From `a` to `b` the channel only received: the bytes it absorbed are
/// exactly the bytes it consumed from those delivered.
pub open spec fn reads_only(a: TxChannel, b: TxChannel) -> bool {
    let k = a.incoming().len() - b.incoming().len();
    &&& b.outgoing() == a.outgoing()
    &&& k >= 0
    &&& a.incoming().subrange(k, a.incoming().len() as int) == b.incoming()
    &&& b.transcript() == a.transcript() + a.incoming().subrange(0, k)
}

pub proof fn lemma_sends_only_refl(a: TxChannel)
    ensures
        sends_only(a, a),
{
    assert(a.outgoing().subrange(0, a.outgoing().len() as int) == a.outgoing());
    assert(a.transcript() + a.outgoing().subrange(a.outgoing().len() as int, a.outgoing().len() as int)
        == a.transcript());
}

pub proof fn lemma_sends_only_trans(a: TxChannel, b: TxChannel, c: TxChannel)
    requires
        sends_only(a, b),
        sends_only(b, c),
    ensures
        sends_only(a, c),
{
    let (n, m, l) = (a.outgoing().len() as int, b.outgoing().len() as int, c.outgoing().len() as int);
    let (x, y) = (b.outgoing().subrange(n, m), c.outgoing().subrange(m, l));
    assert(c.outgoing().subrange(0, n) == c.outgoing().subrange(0, m).subrange(0, n));
    assert(c.outgoing().subrange(0, n) == b.outgoing().subrange(0, n));
    assert(c.outgoing().subrange(n, m) == c.outgoing().subrange(0, m).subrange(n, m));
    assert(c.outgoing().subrange(n, l) == x + y);
    assert(c.transcript() == (a.transcript() + x) + y);
    assert((a.transcript() + x) + y == a.transcript() + (x + y));
}

pub proof fn lemma_reads_only_refl(a: TxChannel)
    ensures
        reads_only(a, a),
{
    assert(a.incoming().subrange(0, a.incoming().len() as int) == a.incoming());
    assert(a.transcript() + a.incoming().subrange(0, 0) == a.transcript());
}

pub proof fn lemma_reads_only_trans(a: TxChannel, b: TxChannel, c: TxChannel)
    requires
        reads_only(a, b),
        reads_only(b, c),
    ensures
        reads_only(a, c),
{
    let (la, lb, lc) = (a.incoming().len() as int, b.incoming().len() as int, c.incoming().len() as int);
    let (k1, k2) = (la - lb, lb - lc);
    let (x, y) = (a.incoming().subrange(0, k1), b.incoming().subrange(0, k2));
    assert(b.incoming().subrange(0, k2) == a.incoming().subrange(k1, la).subrange(0, k2));
    assert(a.incoming().subrange(0, k1 + k2) == x + y);
    assert(a.incoming().subrange(k1 + k2, la) == a.incoming().subrange(k1, la).subrange(k2, lb));
    assert(c.transcript() == (a.transcript() + x) + y);
    assert((a.transcript() + x) + y == a.transcript() + (x + y));
}

/// One party's end of the ordered byte channel, with its transcript.
///
/// Bytes written go to an outbox that the caller transmits; bytes that
/// arrive are delivered to an inbox that reads consume.
pub struct TxChannel {
    tx: blake3::Hasher,
    outbox: Vec<u8>,
    inbox: Vec<u8>,
    pos: usize,
}

fn append_bytes(v: &mut Vec<u8>, b: &[u8])
    ensures
        final(v)@ == old(v)@ + b@,
{
    let mut i: usize = 0;
    while i < b.len()
        invariant
            i <= b@.len(),
            v@ == old(v)@ + b@.subrange(0, i as int),
        decreases b@.len() - i,
    {
        v.push(b[i]);
        i = i + 1;
        proof {
            assert(b@.subrange(0, i as int) == b@.subrange(0, i - 1 as int).push(b@[i - 1]));
        }
    }
    proof {
        assert(b@.subrange(0, b@.len() as int) == b@);
    }
}

impl TxChannel {
    pub closed spec fn wf(self) -> bool {
        self.pos <= self.inbox@.len()
    }

    /// Every byte sent or received so far, in order.
    pub closed spec fn transcript(self) -> Seq<u8> {
        absorbed(self.tx)
    }

    /// Bytes written and not yet taken for transmission.
    pub closed spec fn outgoing(self) -> Seq<u8> {
        self.outbox@
    }

    /// Bytes delivered and not yet read.
    pub closed spec fn incoming(self) -> Seq<u8> {
        self.inbox@.subrange(self.pos as int, self.inbox@.len() as int)
    }

    pub fn new() -> (r: TxChannel)
        ensures
            r.wf(),
            r.transcript() == Seq::<u8>::empty(),
            r.outgoing() == Seq::<u8>::empty(),
            r.incoming() == Seq::<u8>::empty(),
    {
        TxChannel { tx: hasher_new(), outbox: Vec::new(), inbox: Vec::new(), pos: 0 }
    }

    /// Sends bytes, absorbing them into the transcript.
    pub fn write_bytes(&mut self, b: &[u8])
        requires
            old(self).wf(),
        ensures
            final(self).wf(),
            final(self).transcript() == old(self).transcript() + b@,
            final(self).outgoing() == old(self).outgoing() + b@,
            final(self).incoming() == old(self).incoming(),
            sends_only(*old(self), *final(self)),
    {
        hasher_update(&mut self.tx, b);
        append_bytes(&mut self.outbox, b);
        proof {
            let n = old(self).outgoing().len() as int;
            assert(self.outgoing().subrange(0, n) == old(self).outgoing());
            assert(self.outgoing().subrange(n, self.outgoing().len() as int) == b@);
        }
    }

    /// Receives `n` bytes, absorbing them into the transcript; fails with
    /// `Channel`, changing nothing, where fewer have arrived.
    pub fn read_bytes(&mut self, n: usize) -> (r: Result<Vec<u8>, RamError>)
        requires
            old(self).wf(),
        ensures
            final(self).wf(),
            final(self).outgoing() == old(self).outgoing(),
            n <= old(self).incoming().len() ==> (r matches Ok(b) && b@ == old(self).incoming().subrange(0, n as int)
                && final(self).transcript() == old(self).transcript() + b@
                && final(self).incoming() == old(self).incoming().subrange(n as int, old(self).incoming().len() as int)),
            n > old(self).incoming().len() ==> r == Err::<Vec<u8>, RamError>(RamError::Channel) && *final(self) == *old(self),
            reads_only(*old(self), *final(self)),
    {
        if n > self.inbox.len() - self.pos {
            proof {
                lemma_reads_only_refl(*self);
            }
            return Err(RamError::Channel);
        }
        let b = slice_subrange(self.inbox.as_slice(), self.pos, self.pos + n);
        let mut out: Vec<u8> = Vec::new();
        append_bytes(&mut out, b);
        hasher_update(&mut self.tx, b);
        self.pos = self.pos + n;
        proof {
            assert(out@ == old(self).incoming().subrange(0, n as int));
            assert(self.incoming() == old(self).incoming().subrange(n as int, old(self).incoming().len() as int));
            assert(old(self).incoming().len() - self.incoming().len() == n);
        }
        Ok(out)
    }

    /// Hands over bytes that arrived from the other party; they enter the
    /// transcript only when read.
    pub fn deliver(&mut self, b: &[u8])
        requires
            old(self).wf(),
        ensures
            final(self).wf(),
            final(self).transcript() == old(self).transcript(),
            final(self).outgoing() == old(self).outgoing(),
            final(self).incoming() == old(self).incoming() + b@,
    {
        if self.pos == self.inbox.len() {
            self.inbox.clear();
            self.pos = 0;
        }
        append_bytes(&mut self.inbox, b);
        proof {
            assert(self.incoming() == old(self).incoming() + b@);
        }
    }

    /// Takes the bytes written so far, for transmission.
    pub fn take_outgoing(&mut self) -> (r: Vec<u8>)
        requires
            old(self).wf(),
        ensures
            final(self).wf(),
            r@ == old(self).outgoing(),
            final(self).outgoing() == Seq::<u8>::empty(),
            final(self).transcript() == old(self).transcript(),
            final(self).incoming() == old(self).incoming(),
    {
        let mut r: Vec<u8> = Vec::new();
        std::mem::swap(&mut r, &mut self.outbox);
        r
    }

    /// The two challenges that the transcript yields now; deriving them
    /// leaves the transcript as it was.
    pub fn challenge(&self) -> (r: [Fp; 2])
        ensures
            r[0].val() == challenge_of(self.transcript()).0,
            r[1].val() == challenge_of(self.transcript()).1,
    {
        let d = hasher_digest(&self.tx);
        let a = Fp::from_uniform_bytes(slice_subrange(d.as_slice(), 0, 16));
        let b = Fp::from_uniform_bytes(slice_subrange(d.as_slice(), 16, 32));
        [a, b]
    }

    /// Sends a field element in its wire encoding.
    pub fn write_elem(&mut self, x: Fp)
        requires
            old(self).wf(),
        ensures
            final(self).wf(),
            final(self).transcript() == old(self).transcript() + x.to_bytes_spec(),
            final(self).outgoing() == old(self).outgoing() + x.to_bytes_spec(),
            final(self).incoming() == old(self).incoming(),
            sends_only(*old(self), *final(self)),
    {
        let b = x.to_bytes();
        self.write_bytes(b.as_slice());
    }

    /// Receives a field element; fails with `Channel` where too few bytes
    /// have arrived and with `Decode` where they encode no element.
    pub fn read_elem(&mut self) -> (r: Result<Fp, RamError>)
        requires
            old(self).wf(),
        ensures
            final(self).wf(),
            final(self).outgoing() == old(self).outgoing(),
            r is Ok <==> elem_ok(old(self).incoming(), 0),
            r matches Ok(x) ==> (x.val() == elem_at(old(self).incoming(), 0)
                && final(self).transcript() == old(self).transcript() + old(self).incoming().subrange(0, 8)
                && final(self).incoming() == old(self).incoming().subrange(8, old(self).incoming().len() as int)),
            old(self).incoming().len() < ELEM_BYTES ==> r == Err::<Fp, RamError>(RamError::Channel),
            reads_only(*old(self), *final(self)),
    {
        let b = self.read_bytes(ELEM_BYTES)?;
        match Fp::from_bytes(b.as_slice()) {
            Some(x) => Ok(x),
            None => Err(RamError::Decode),
        }
    }
}

} // verus!
