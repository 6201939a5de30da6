//! The prover's side of the memory: it keeps every cell in the clear and
//! commits to what each access reads.
use rustc_hash::FxHashMap;
use vstd::multiset::Multiset;
use vstd::prelude::*;

use crate::error::RamError;
use crate::field::{elem_at, elem_bytes, elem_ok, fadd, fmul, fsub, lemma_cong_ops, lemma_elem_decodes, lemma_elem_shift, Fp};
use crate::homcom::{prover_public, HomcomProver, MacProver};
use crate::ram::perm::{
    lemma_permutation_complete, lemma_prod_perm, lemma_prod_pointwise, lemma_words_pointwise, perm_accepts,
    permutation_prover, permutation_words, prod_shift, value_fn, words_ok,
};
use crate::ram::{collapse_vecs, horner, values_of, Bounded, MemorySpace, SIZE_DIM, SIZE_STORE};
use crate::tx::{challenge_of, lemma_sends_only_refl, lemma_sends_only_trans, sends_only, TxChannel};

verus! {

/// What a cell stores: its value and the challenge of its last write.
pub type Store = [Fp; SIZE_STORE];

#[verifier::external_type_specification]
#[verifier::external_body]
pub struct ExFxHasher(rustc_hash::FxHasher);

#[verifier::external_type_specification]
#[verifier::external_body]
#[verifier::reject_recursive_types(H)]
pub struct ExBuildHasherDefault<H>(std::hash::BuildHasherDefault<H>);

/// The cells, keyed by address.
pub type CellMap = FxHashMap<u64, Store>;

/// Relies on `HashMap::default` with rustc_hash's hasher: an empty map.
#[verifier::external_body]
fn map_new() -> (r: CellMap)
    ensures
        r@.dom() == Set::<u64>::empty(),
{
    FxHashMap::default()
}

/// Relies on `HashMap::contains_key` with rustc_hash's deterministic
/// hasher: whether the key is present.
#[verifier::external_body]
fn map_contains(m: &CellMap, k: u64) -> (r: bool)
    ensures
        r == m@.contains_key(k),
{
    m.contains_key(&k)
}

/// Relies on `HashMap::remove` with rustc_hash's deterministic hasher:
/// the entry leaves the map and its value is returned.
#[verifier::external_body]
fn map_remove(m: &mut CellMap, k: u64) -> (r: Option<Store>)
    ensures
        final(m)@ == old(m)@.remove(k),
        old(m)@.contains_key(k) ==> r == Some(old(m)@[k]),
        !old(m)@.contains_key(k) ==> r is None,
{
    m.remove(&k)
}

/// Relies on `HashMap::insert` with rustc_hash's deterministic hasher:
/// the key maps to the value afterwards.
#[verifier::external_body]
fn map_insert(m: &mut CellMap, k: u64, v: Store)
    ensures
        final(m)@ == old(m)@.insert(k, v),
{
    m.insert(k, v);
}

/// The field values of a record: address, value, two challenges.
pub type Vals = (int, int, int, int);

pub open spec fn rec_vals(e: [MacProver; SIZE_DIM]) -> Vals {
    (e[0].value.val(), e[1].value.val(), e[2].value.val(), e[3].value.val())
}

/// The record of a cell `a` that stores `s`.
pub open spec fn stored_vals(a: u64, s: Store) -> Vals {
    (a as int, s[0].val(), s[1].val(), s[2].val())
}

/// The record of a cell `a` that was never written.
pub open spec fn zero_vals(a: int) -> Vals {
    (a, 0, 0, 0)
}

/// The field values of every record of a log.
pub open spec fn log_vals(l: Seq<[MacProver; SIZE_DIM]>) -> Seq<Vals> {
    l.map_values(|e: [MacProver; SIZE_DIM]| rec_vals(e))
}

/// What a removal sends: each stored field of the record `v`, masked by
/// the next three pairs of `u`.
pub open spec fn remove_words(v: Vals, u: Seq<(Fp, Fp)>) -> Seq<u8> {
    elem_bytes(fsub(v.1, u[0].0.val())) + elem_bytes(fsub(v.2, u[1].0.val())) + elem_bytes(fsub(v.3, u[2].0.val()))
}

/// The record that the final walk reads for address `j`: what the cell
/// stores, or zeros.
pub open spec fn initial_record(m: Map<u64, Store>, j: int) -> Vals {
    if m.contains_key(j as u64) {
        stored_vals(j as u64, m[j as u64])
    } else {
        zero_vals(j)
    }
}

/// What the final walk over `k` addresses sends: the removal words of
/// each address in turn, with the pairs from `u` three at a time.
pub open spec fn drain_words(m: Map<u64, Store>, u: Seq<(Fp, Fp)>, k: nat) -> Seq<u8>
    decreases k,
{
    if k == 0 {
        Seq::empty()
    } else {
        drain_words(m, u, (k - 1) as nat) + remove_words(
            initial_record(m, k - 1),
            u.subrange(3 * (k - 1), u.len() as int),
        )
    }
}

/// The records the final walk over `k` addresses reads.
pub open spec fn initial_records(m: Map<u64, Store>, k: nat) -> Seq<Vals> {
    Seq::new(k, |j: int| initial_record(m, j))
}

/// The records the final walk over `k` addresses writes.
pub open spec fn zero_records(k: nat) -> Seq<Vals> {
    Seq::new(k, |j: int| zero_vals(j))
}

/// The write record that the final walk adds for address `j`: the
/// address and zeros, all public.
pub open spec fn drained_record(w: [MacProver; SIZE_DIM], j: int) -> bool {
    &&& rec_vals(w) == zero_vals(j)
    &&& w[0].tag.val() == 0 && w[1].tag.val() == 0 && w[2].tag.val() == 0 && w[3].tag.val() == 0
}

/// The value that a read of `a` returns from memory `m`: what was last
/// written, or zero.
pub open spec fn read_spec(m: Map<u64, int>, a: u64) -> int {
    if m.contains_key(a) {
        m[a]
    } else {
        0
    }
}

pub open spec fn in_u64(a: int) -> bool {
    0 <= a <= u64::MAX
}

spec fn live_count(m: Map<u64, Store>, v: Vals) -> nat {
    if in_u64(v.0) && m.contains_key(v.0 as u64) && stored_vals(v.0 as u64, m[v.0 as u64]) == v {
        1
    } else {
        0
    }
}

spec fn zero_count(t: Set<u64>, v: Vals) -> nat {
    if in_u64(v.0) && t.contains(v.0 as u64) && v == zero_vals(v.0) {
        1
    } else {
        0
    }
}

/// The prover's memory: cells in the clear, and the logs of reads and
/// writes as committed records.
///
/// Besides the data it tracks which addresses were ever accessed and the
/// records that the cells and the implicit zero initialisation stand
/// for, so that it can state when the two logs will hold the same
/// records.
pub struct Prover {
    space: Bounded,
    ch: TxChannel,
    memory: CellMap,
    rds: Vec<[MacProver; SIZE_DIM]>,
    wrs: Vec<[MacProver; SIZE_DIM]>,
    touched: Ghost<Set<u64>>,
    live: Ghost<Multiset<Vals>>,
    zeros: Ghost<Multiset<Vals>>,
    sound: Ghost<bool>,
}

impl Prover {
    pub closed spec fn wf(self) -> bool {
        &&& self.ch.wf()
        &&& forall|k: u64| self.memory@.contains_key(k) ==> self.touched@.contains(k)
        &&& forall|v: Vals| #[trigger] self.live@.count(v) == live_count(self.memory@, v)
        &&& forall|v: Vals| #[trigger] self.zeros@.count(v) == zero_count(self.touched@, v)
        &&& self.sound@ ==> log_vals(self.rds@).to_multiset().add(self.live@) == log_vals(
            self.wrs@,
        ).to_multiset().add(self.zeros@)
    }

    /// What each present cell stores: value and challenge.
    pub closed spec fn contents(self) -> Map<u64, Store> {
        self.memory@
    }

    /// The value of each present cell.
    pub open spec fn values(self) -> Map<u64, int> {
        self.contents().map_values(|s: Store| s[0].val())
    }

    pub closed spec fn read_log(self) -> Seq<[MacProver; SIZE_DIM]> {
        self.rds@
    }

    pub closed spec fn write_log(self) -> Seq<[MacProver; SIZE_DIM]> {
        self.wrs@
    }

    /// Every address removed or inserted so far.
    pub closed spec fn touched(self) -> Set<u64> {
        self.touched@
    }

    /// Whether every access so far kept to remove-before-insert: no
    /// address was removed twice, nor inserted before its first removal.
    pub closed spec fn sound(self) -> bool {
        self.sound@
    }

    /// Between accesses: disciplined so far, every touched address
    /// present, and the two logs of equal length.
    pub open spec fn settled(self) -> bool {
        &&& self.sound()
        &&& self.touched() == self.contents().dom()
        &&& self.read_log().len() == self.write_log().len()
    }

    pub closed spec fn space(self) -> Bounded {
        self.space
    }

    pub closed spec fn channel(self) -> TxChannel {
        self.ch
    }

    pub fn new(space: Bounded) -> (r: Prover)
        ensures
            r.wf(),
            r.settled(),
            r.contents() == Map::<u64, Store>::empty(),
            r.read_log() == Seq::<[MacProver; SIZE_DIM]>::empty(),
            r.write_log() == Seq::<[MacProver; SIZE_DIM]>::empty(),
            r.space() == space,
            r.channel().transcript() == Seq::<u8>::empty(),
            r.channel().outgoing() == Seq::<u8>::empty(),
            r.channel().incoming() == Seq::<u8>::empty(),
    {
        Prover::with_capacity(space, 0)
    }

    /// As `new`, with both logs sized for `steps` accesses and the final
    /// walk over the address space, so that they need not grow.
    pub fn with_capacity(space: Bounded, steps: usize) -> (r: Prover)
        ensures
            r.wf(),
            r.settled(),
            r.contents() == Map::<u64, Store>::empty(),
            r.read_log() == Seq::<[MacProver; SIZE_DIM]>::empty(),
            r.write_log() == Seq::<[MacProver; SIZE_DIM]>::empty(),
            r.space() == space,
            r.channel().transcript() == Seq::<u8>::empty(),
            r.channel().outgoing() == Seq::<u8>::empty(),
            r.channel().incoming() == Seq::<u8>::empty(),
    {
        let cap = steps.saturating_add(space.size());
        let r = Prover {
            space,
            ch: TxChannel::new(),
            memory: map_new(),
            rds: Vec::with_capacity(cap),
            wrs: Vec::with_capacity(cap),
            touched: Ghost(Set::empty()),
            live: Ghost(Multiset::empty()),
            zeros: Ghost(Multiset::empty()),
            sound: Ghost(true),
        };
        proof {
            assert(r.memory@ =~= Map::<u64, Store>::empty());
            assert(log_vals(r.rds@) == Seq::<Vals>::empty());
            assert(log_vals(r.wrs@) == Seq::<Vals>::empty());
            broadcast use vstd::seq_lib::group_to_multiset_ensures;
            assert(Seq::<Vals>::empty().to_multiset().len() == 0);
            assert(log_vals(r.rds@).to_multiset().add(r.live@) =~= log_vals(r.wrs@).to_multiset().add(r.zeros@));
            assert(r.touched() =~= r.contents().dom());
        }
        r
    }

    /// Removes a cell, returning its value (zero where absent): commits
    /// to the value and challenge it held and logs the read record.
    pub fn remove(&mut self, hp: &mut HomcomProver, addr: MacProver) -> (r: Result<MacProver, RamError>)
        requires
            old(self).wf(),
            old(hp).wf(),
        ensures
            final(self).wf(),
            final(hp).wf(),
            final(self).space() == old(self).space(),
            final(self).channel().incoming() == old(self).channel().incoming(),
            sends_only(old(self).channel(), final(self).channel()),
            old(hp).unused().len() < 3 <==> r is Err,
            r is Err ==> r == Err::<MacProver, RamError>(RamError::Exhausted) && *final(self) == *old(self),
            r matches Ok(v) ==> ({
                let k = addr.value.val() as u64;
                let present = old(self).contents().contains_key(k);
                &&& v.value.val() == read_spec(old(self).values(), k)
                &&& final(self).contents() == old(self).contents().remove(k)
                &&& final(self).write_log() == old(self).write_log()
                &&& final(self).read_log().len() == old(self).read_log().len() + 1
                &&& final(self).read_log().drop_last() == old(self).read_log()
                &&& rec_vals(final(self).read_log().last()) == if present {
                    stored_vals(k, old(self).contents()[k])
                } else {
                    zero_vals(k as int)
                }
                &&& final(self).read_log().last()[0] == addr
                &&& final(self).read_log().last()[1] == v
                &&& final(self).touched() == old(self).touched().insert(k)
                &&& final(self).sound() == (old(self).sound() && (present || !old(self).touched().contains(k)))
                &&& final(hp).unused() == old(hp).unused().subrange(3, old(hp).unused().len() as int)
                &&& final(self).read_log().last()[1].tag == old(hp).unused()[0].1
                &&& final(self).read_log().last()[2].tag == old(hp).unused()[1].1
                &&& final(self).read_log().last()[3].tag == old(hp).unused()[2].1
                &&& final(self).channel().outgoing() == old(self).channel().outgoing() + remove_words(
                    rec_vals(final(self).read_log().last()),
                    old(hp).unused(),
                )
            }),
    {
        if hp.remaining() < 3 {
            proof {
                lemma_sends_only_refl(self.ch);
            }
            return Err(RamError::Exhausted);
        }
        let k = addr.value.value();
        let ghost present = self.memory@.contains_key(k);
        let old_store = match map_remove(&mut self.memory, k) {
            Some(s) => s,
            None => [Fp::zero(), Fp::zero(), Fp::zero()],
        };
        let ghost ch0 = self.ch;
        let ghost u = hp.unused();
        let v = hp.input_private(&mut self.ch, old_store[0])?;
        let ghost ch1 = self.ch;
        let c0 = hp.input_private(&mut self.ch, old_store[1])?;
        let ghost ch2 = self.ch;
        let c1 = hp.input_private(&mut self.ch, old_store[2])?;
        proof {
            lemma_sends_only_trans(ch0, ch1, ch2);
            lemma_sends_only_trans(ch0, ch2, self.ch);
            assert(hp.unused() == u.subrange(3, u.len() as int));
            let (a, b, c) = (
                elem_bytes(fsub(v.value.val(), u[0].0.val())),
                elem_bytes(fsub(c0.value.val(), u[1].0.val())),
                elem_bytes(fsub(c1.value.val(), u[2].0.val())),
            );
            assert(self.ch.outgoing() == ch0.outgoing() + a + b + c);
        }
        let flat = [addr, v, c0, c1];
        self.rds.push(flat);
        proof {
            let sv = rec_vals(flat);
            let ghost old_live = self.live@;
            let ghost old_zeros = self.zeros@;
            let ghost lr = log_vals(old(self).rds@).to_multiset();
            let ghost lw = log_vals(self.wrs@).to_multiset();
            assert(log_vals(self.rds@) == log_vals(old(self).rds@).push(sv));
            broadcast use vstd::seq_lib::group_to_multiset_ensures;
            assert(log_vals(self.rds@).to_multiset() == lr.insert(sv));
            if present {
                assert(sv == stored_vals(k, old(self).memory@[k]));
                assert(old_live.count(sv) == 1);
                self.live@ = self.live@.remove(sv);
                if self.sound@ {
                    assert(lr.insert(sv).add(self.live@) =~= lr.add(old_live));
                }
            } else if !self.touched@.contains(k) {
                assert(sv == zero_vals(k as int));
                self.touched@ = self.touched@.insert(k);
                self.zeros@ = self.zeros@.insert(sv);
                if self.sound@ {
                    assert(lr.insert(sv).add(old_live) =~= lr.add(old_live).insert(sv));
                    assert(lw.add(self.zeros@) =~= lw.add(old_zeros).insert(sv));
                }
            } else {
                self.sound@ = false;
            }
            self.touched@ = self.touched@.insert(k);
            assert forall|v: Vals| #[trigger] self.live@.count(v) == live_count(self.memory@, v) by {
            }
            assert forall|v: Vals| #[trigger] self.zeros@.count(v) == zero_count(self.touched@, v) by {
            }
            assert(self.read_log().drop_last() == old(self).read_log());
        }
        Ok(v)
    }

    /// Inserts a cell that is absent: draws the write challenge from the
    /// transcript, stores value and challenge, and logs the write record.
    /// Inserting a present address breaks remove-before-insert and is a
    /// caller's fault; a caller outside verified code that commits it gets
    /// `DoubleInsert`, with nothing changed.
    pub fn insert(&mut self, addr: MacProver, value: MacProver) -> (r: Result<(), RamError>)
        requires
            old(self).wf(),
            !old(self).contents().contains_key(addr.value.val() as u64),
        ensures
            final(self).wf(),
            final(self).space() == old(self).space(),
            final(self).channel() == old(self).channel(),
            sends_only(old(self).channel(), final(self).channel()),
            r is Ok,
            ({
                let k = addr.value.val() as u64;
                let (c0, c1) = challenge_of(old(self).channel().transcript());
                let s = final(self).contents()[k];
                let w = final(self).write_log().last();
                &&& final(self).contents() == old(self).contents().insert(k, s)
                &&& s[0] == value.value && s[1].val() == c0 && s[2].val() == c1
                &&& final(self).write_log().len() == old(self).write_log().len() + 1
                &&& final(self).write_log().drop_last() == old(self).write_log()
                &&& w[0] == addr && w[1] == value
                &&& w[2].value.val() == c0 && w[3].value.val() == c1
                &&& w[2].tag.val() == 0 && w[3].tag.val() == 0
                &&& final(self).read_log() == old(self).read_log()
                &&& final(self).touched() == old(self).touched().insert(k)
                &&& final(self).sound() == (old(self).sound() && old(self).touched().contains(k))
            }),
    {
        let k = addr.value.value();
        proof {
            lemma_sends_only_refl(self.ch);
        }
        if map_contains(&self.memory, k) {
            return Err(RamError::DoubleInsert);
        }
        let chal = self.ch.challenge();
        let flat = [addr, value, prover_public(chal[0]), prover_public(chal[1])];
        let store: Store = [value.value, chal[0], chal[1]];
        map_insert(&mut self.memory, k, store);
        self.wrs.push(flat);
        proof {
            let sv = rec_vals(flat);
            let ghost old_live = self.live@;
            let ghost old_zeros = self.zeros@;
            let ghost lr = log_vals(self.rds@).to_multiset();
            let ghost lw = log_vals(old(self).wrs@).to_multiset();
            assert(sv == stored_vals(k, store));
            assert(log_vals(self.wrs@) == log_vals(old(self).wrs@).push(sv));
            broadcast use vstd::seq_lib::group_to_multiset_ensures;
            assert(log_vals(self.wrs@).to_multiset() == lw.insert(sv));
            assert(old_live.count(sv) == 0);
            self.live@ = self.live@.insert(sv);
            if !self.touched@.contains(k) {
                self.touched@ = self.touched@.insert(k);
                self.zeros@ = self.zeros@.insert(zero_vals(k as int));
                self.sound@ = false;
            }
            assert forall|v: Vals| #[trigger] self.live@.count(v) == live_count(self.memory@, v) by {
            }
            assert forall|v: Vals| #[trigger] self.zeros@.count(v) == zero_count(self.touched@, v) by {
            }
            if self.sound@ {
                assert(lr.add(old_live.insert(sv)) =~= lr.add(old_live).insert(sv));
                assert(lw.insert(sv).add(old_zeros) =~= lw.add(old_zeros).insert(sv));
            }
            assert(self.write_log().drop_last() == old(self).write_log());
            assert(self.contents() == old(self).contents().insert(k, store));
        }
        Ok(())
    }

    /// Lengths of the read log and the write log.
    pub fn log_lengths(&self) -> (r: (usize, usize))
        ensures
            r.0 == self.read_log().len(),
            r.1 == self.write_log().len(),
    {
        (self.rds.len(), self.wrs.len())
    }

    /// The challenges that the transcript yields now.
    pub fn challenge(&self) -> (r: [Fp; 2])
        ensures
            r[0].val() == challenge_of(self.channel().transcript()).0,
            r[1].val() == challenge_of(self.channel().transcript()).1,
    {
        self.ch.challenge()
    }

    /// Commits to a private value over this memory's channel.
    pub fn commit(&mut self, hp: &mut HomcomProver, x: Fp) -> (r: Result<MacProver, RamError>)
        requires
            old(self).wf(),
            old(hp).wf(),
        ensures
            final(self).wf(),
            final(hp).wf(),
            old(hp).unused().len() > 0 <==> r is Ok,
            r is Err ==> r == Err::<MacProver, RamError>(RamError::Exhausted),
            r matches Ok(w) ==> w.value == x && final(hp).unused().len() == old(hp).unused().len() - 1,
            final(self).channel().incoming() == old(self).channel().incoming(),
            sends_only(old(self).channel(), final(self).channel()),
            final(self).contents() == old(self).contents(),
            final(self).read_log() == old(self).read_log(),
            final(self).write_log() == old(self).write_log(),
            final(self).touched() == old(self).touched(),
            final(self).sound() == old(self).sound(),
            final(self).space() == old(self).space(),
    {
        hp.input_private(&mut self.ch, x)
    }

    /// Receives the combination and permutation challenges that the
    /// verifier sampled, for the interactive mode; fails, leaving the
    /// memory's records as they were, where they have not arrived whole.
    pub fn read_challenges(&mut self) -> (r: Result<[Fp; 2], RamError>)
        requires
            old(self).wf(),
        ensures
            final(self).wf(),
            r is Ok <==> elem_ok(old(self).channel().incoming(), 0) && elem_ok(old(self).channel().incoming(), 1),
            r matches Ok(c) ==> c[0].val() == elem_at(old(self).channel().incoming(), 0) && c[1].val() == elem_at(
                old(self).channel().incoming(),
                1,
            ),
            final(self).contents() == old(self).contents(),
            final(self).read_log() == old(self).read_log(),
            final(self).write_log() == old(self).write_log(),
            final(self).touched() == old(self).touched(),
            final(self).sound() == old(self).sound(),
            final(self).space() == old(self).space(),
    {
        let ghost inc = self.ch.incoming();
        let c0 = self.ch.read_elem()?;
        let ghost inc1 = self.ch.incoming();
        proof {
            if inc.len() >= 16 {
                assert(inc1.subrange(0, 8) == inc.subrange(8, 16));
            }
        }
        let c1 = self.ch.read_elem()?;
        Ok([c0, c1])
    }

    /// Bytes written for the verifier and not yet taken.
    pub fn take_outgoing(&mut self) -> (r: Vec<u8>)
        requires
            old(self).wf(),
        ensures
            final(self).wf(),
            r@ == old(self).channel().outgoing(),
            final(self).channel().outgoing() == Seq::<u8>::empty(),
            final(self).channel().transcript() == old(self).channel().transcript(),
            final(self).channel().incoming() == old(self).channel().incoming(),
            final(self).contents() == old(self).contents(),
            final(self).read_log() == old(self).read_log(),
            final(self).write_log() == old(self).write_log(),
            final(self).touched() == old(self).touched(),
            final(self).sound() == old(self).sound(),
            final(self).space() == old(self).space(),
    {
        self.ch.take_outgoing()
    }

    /// Hands over bytes that arrived from the verifier.
    pub fn deliver(&mut self, b: &[u8])
        requires
            old(self).wf(),
        ensures
            final(self).wf(),
            final(self).channel().incoming() == old(self).channel().incoming() + b@,
            final(self).channel().outgoing() == old(self).channel().outgoing(),
            final(self).channel().transcript() == old(self).channel().transcript(),
            final(self).contents() == old(self).contents(),
            final(self).read_log() == old(self).read_log(),
            final(self).write_log() == old(self).write_log(),
            final(self).touched() == old(self).touched(),
            final(self).sound() == old(self).sound(),
            final(self).space() == old(self).space(),
    {
        self.ch.deliver(b)
    }

    /// Whether every touched address lies in the address space.
    pub open spec fn within_space(self) -> bool {
        forall|k: u64| self.touched().contains(k) ==> (k as int) < self.space().spec_bound()
    }

    /// Walks the whole address space once: each address is removed, and
    /// a zero record stands for its initial content in the write log.
    /// After a settled history within the space, the two logs then hold
    /// the same records.
    pub fn drain(&mut self, hp: &mut HomcomProver) -> (r: Result<(), RamError>)
        requires
            old(self).wf(),
            old(hp).wf(),
        ensures
            final(self).wf(),
            final(hp).wf(),
            final(self).space() == old(self).space(),
            final(self).channel().incoming() == old(self).channel().incoming(),
            sends_only(old(self).channel(), final(self).channel()),
            old(hp).unused().len() >= 3 * old(self).space().spec_bound() ==> r is Ok,
            r is Err ==> r == Err::<(), RamError>(RamError::Exhausted),
            r is Ok ==> final(self).read_log().len() == old(self).read_log().len() + old(self).space().spec_bound()
                && final(self).write_log().len() == old(self).write_log().len() + old(self).space().spec_bound(),
            r is Ok && old(self).settled() && old(self).within_space() ==> log_vals(
                final(self).read_log(),
            ).to_multiset() == log_vals(final(self).write_log()).to_multiset(),
            r is Ok ==> old(hp).unused().len() >= 3 * old(self).space().spec_bound(),
            r is Ok ==> final(hp).unused() == old(hp).unused().subrange(
                3 * old(self).space().spec_bound() as int,
                old(hp).unused().len() as int,
            ),
            r is Ok ==> final(self).read_log().subrange(0, old(self).read_log().len() as int) == old(
                self,
            ).read_log() && final(self).write_log().subrange(0, old(self).write_log().len() as int) == old(
                self,
            ).write_log(),
            r is Ok ==> final(self).channel().outgoing() == old(self).channel().outgoing() + drain_words(
                old(self).contents(),
                old(hp).unused(),
                old(self).space().spec_bound(),
            ),
            r is Ok ==> log_vals(final(self).read_log()) == log_vals(old(self).read_log()) + initial_records(
                old(self).contents(),
                old(self).space().spec_bound(),
            ),
            r is Ok ==> log_vals(final(self).write_log()) == log_vals(old(self).write_log()) + zero_records(
                old(self).space().spec_bound(),
            ),
            r is Ok ==> forall|j: int|
                0 <= j < old(self).space().spec_bound() ==> {
                    &&& rec_vals(#[trigger] final(self).read_log()[old(self).read_log().len() + j])
                        == initial_record(old(self).contents(), j)
                    &&& drained_record(final(self).write_log()[old(self).write_log().len() + j], j)
                },
    {
        let addrs = self.space.enumerate();
        let z = prover_public(Fp::zero());
        let ghost good = old(self).settled() && old(self).within_space();
        let ghost n = addrs@.len();
        let ghost u0 = hp.unused();
        let ghost (n0, m0) = (self.rds@.len() as int, self.wrs@.len() as int);
        let mut i: usize = 0;
        proof {
            lemma_sends_only_refl(self.ch);
            assert(hp.unused() == u0.subrange(0, u0.len() as int));
        }
        while i < addrs.len()
            invariant
                i <= addrs@.len(),
                n == addrs@.len(),
                n == self.space.spec_bound(),
                forall|j: int| 0 <= j < addrs@.len() ==> (#[trigger] addrs@[j]).val() == j,
                self.wf(),
                hp.wf(),
                self.space == old(self).space,
                self.ch.incoming() == old(self).ch.incoming(),
                sends_only(old(self).ch, self.ch),
                self.rds@.len() == old(self).rds@.len() + i,
                self.wrs@.len() == old(self).wrs@.len() + i,
                u0 == old(hp).unused(),
                u0.len() >= 3 * i,
                hp.unused() == u0.subrange(3 * i, u0.len() as int),
                self.ch.outgoing() == old(self).ch.outgoing() + drain_words(old(self).memory@, u0, i as nat),
                n0 == old(self).rds@.len(),
                m0 == old(self).wrs@.len(),
                self.rds@.subrange(0, n0) == old(self).rds@,
                self.wrs@.subrange(0, m0) == old(self).wrs@,
                forall|j: int| 0 <= j < i ==> rec_vals(#[trigger] self.rds@[n0 + j]) == initial_record(old(self).memory@, j),
                forall|j: int| 0 <= j < i ==> drained_record(#[trigger] self.wrs@[m0 + j], j),
                forall|k: u64|
                    (k as int) >= i ==> (#[trigger] self.memory@.contains_key(k) == old(self).memory@.contains_key(k) && (
                    self.memory@.contains_key(k) ==> self.memory@[k] == old(self).memory@[k])),
                z.value.val() == 0,
                z.tag.val() == 0,
                good ==> self.sound@,
                good ==> self.touched@ == self.memory@.dom(),
                good ==> forall|k: u64| self.touched@.contains(k) ==> i <= (k as int) < n,
            decreases addrs@.len() - i,
        {
            let a = prover_public(addrs[i]);
            let ghost k = i as u64;
            proof {
                assert(addrs@[i as int].val() == i);
                assert(a.value.val() as u64 == k);
            }
            let ghost mid = *self;
            match self.remove(hp, a) {
                Ok(_) => {},
                Err(e) => {
                    proof {
                        lemma_sends_only_trans(old(self).ch, mid.ch, self.ch);
                    }
                    return Err(e);
                },
            }
            proof {
                lemma_sends_only_trans(old(self).ch, mid.ch, self.ch);
                assert(hp.unused() == u0.subrange(3 * i + 3, u0.len() as int));
                assert(self.rds@[n0 + i] == self.rds@.last());
                assert(self.ch.outgoing() == mid.ch.outgoing() + remove_words(
                    initial_record(old(self).memory@, i as int),
                    u0.subrange(3 * i, u0.len() as int),
                ));
                assert(mid.memory@.contains_key(k) == old(self).memory@.contains_key(k));
                assert(rec_vals(self.rds@[n0 + i]) == initial_record(old(self).memory@, i as int));
                assert forall|kk: u64| (kk as int) >= i + 1 implies (self.memory@.contains_key(kk)
                    == old(self).memory@.contains_key(kk) && (self.memory@.contains_key(kk) ==> self.memory@[kk]
                    == old(self).memory@[kk])) by {
                    assert(kk != k);
                    assert(mid.memory@.contains_key(kk) == old(self).memory@.contains_key(kk));
                }
                assert(self.rds@.subrange(0, n0) == mid.rds@.subrange(0, n0));
                assert forall|j: int| 0 <= j < i implies #[trigger] self.rds@[n0 + j] == mid.rds@[n0 + j] by {
                }
            }
            let pre = [a, z, z, z];
            self.wrs.push(pre);
            proof {
                assert(self.wrs@.subrange(0, m0) == mid.wrs@.subrange(0, m0));
                assert(drained_record(self.wrs@[m0 + i], i as int));
                let zv = zero_vals(k as int);
                assert(rec_vals(pre) == zv);
                assert(self.touched@.contains(k));
                assert(self.zeros@.count(zv) == 1);
                let ghost lr = log_vals(self.rds@).to_multiset();
                let ghost lw = log_vals(mid.wrs@).to_multiset();
                let ghost old_zeros = self.zeros@;
                assert(log_vals(self.wrs@) == log_vals(mid.wrs@).push(zv));
                broadcast use vstd::seq_lib::group_to_multiset_ensures;
                assert(log_vals(self.wrs@).to_multiset() == lw.insert(zv));
                self.touched@ = self.touched@.remove(k);
                self.zeros@ = self.zeros@.remove(zv);
                assert forall|v: Vals| #[trigger] self.zeros@.count(v) == zero_count(self.touched@, v) by {
                }
                if self.sound@ {
                    assert(lw.insert(zv).add(self.zeros@) =~= lw.add(old_zeros));
                }
                if good {
                    assert(self.touched@ =~= self.memory@.dom());
                }
                assert forall|j: int| 0 <= j < i + 1 implies rec_vals(#[trigger] self.rds@[n0 + j])
                    == initial_record(old(self).memory@, j) && drained_record(self.wrs@[m0 + j], j) by {
                    if j < i {
                        assert(drained_record(mid.wrs@[m0 + j], j));
                        assert(self.rds@[n0 + j] == mid.rds@[n0 + j]);
                        assert(self.wrs@[m0 + j] == mid.wrs@[m0 + j]);
                        assert(rec_vals(mid.rds@[n0 + j]) == initial_record(old(self).memory@, j));
                    }
                }
            }
            i = i + 1;
        }
        proof {
            assert(log_vals(self.rds@) =~= log_vals(old(self).rds@) + initial_records(old(self).memory@, n as nat)) by {
                assert forall|j: int| 0 <= j < log_vals(self.rds@).len() implies #[trigger] log_vals(self.rds@)[j]
                    == (log_vals(old(self).rds@) + initial_records(old(self).memory@, n as nat))[j] by {
                    if j < n0 {
                        assert(self.rds@[j] == self.rds@.subrange(0, n0)[j]);
                    } else {
                        assert(rec_vals(self.rds@[n0 + (j - n0)]) == initial_record(old(self).memory@, j - n0));
                    }
                }
            }
            assert(log_vals(self.wrs@) =~= log_vals(old(self).wrs@) + zero_records(n as nat)) by {
                assert forall|j: int| 0 <= j < log_vals(self.wrs@).len() implies #[trigger] log_vals(self.wrs@)[j]
                    == (log_vals(old(self).wrs@) + zero_records(n as nat))[j] by {
                    if j < m0 {
                        assert(self.wrs@[j] == self.wrs@.subrange(0, m0)[j]);
                    } else {
                        assert(drained_record(self.wrs@[m0 + (j - m0)], j - m0));
                    }
                }
            }
            assert forall|j: int| 0 <= j < n implies {
                &&& rec_vals(#[trigger] self.read_log()[n0 + j]) == initial_record(old(self).contents(), j)
                &&& drained_record(self.write_log()[m0 + j], j)
            } by {
                assert(rec_vals(self.rds@[n0 + j]) == initial_record(old(self).memory@, j));
            }
            if good {
                assert(self.touched@ =~= Set::<u64>::empty());
                assert(self.live@ =~= Multiset::<Vals>::empty());
                assert(self.zeros@ =~= Multiset::<Vals>::empty());
                assert(log_vals(self.rds@).to_multiset().add(self.live@) =~= log_vals(self.rds@).to_multiset());
                assert(log_vals(self.wrs@).to_multiset().add(self.zeros@) =~= log_vals(self.wrs@).to_multiset());
            }
        }
        Ok(())
    }

    /// Ends the memory with the given challenges, after `drain`: folds
    /// each record of both logs with `chal_cmbn` and runs the permutation
    /// argument at `chal_perm`, handing back the channel for the check of
    /// the products. Given a pair for each record, it succeeds exactly
    /// when the two grand products agree, as they do when the logs hold
    /// the same records.
    pub fn finalize_with(self, hp: &mut HomcomProver, chal_cmbn: Fp, chal_perm: Fp) -> (r: Result<TxChannel, RamError>)
        requires
            self.wf(),
            old(hp).wf(),
        ensures
            final(hp).wf(),
            r is Err ==> r == Err::<TxChannel, RamError>(RamError::Exhausted) || r == Err::<TxChannel, RamError>(
                RamError::CheckFailed,
            ),
            log_vals(self.read_log()).to_multiset() == log_vals(self.write_log()).to_multiset() ==> r
                != Err::<TxChannel, RamError>(RamError::CheckFailed),
            old(hp).unused().len() >= self.read_log().len() + self.write_log().len() ==> (r is Ok <==> prod_shift(
                log_vals(self.write_log()),
                fold_with(chal_cmbn.val()),
                chal_perm.val(),
            ) == prod_shift(log_vals(self.read_log()), fold_with(chal_cmbn.val()), chal_perm.val())),
            r is Ok ==> prod_shift(log_vals(self.write_log()), fold_with(chal_cmbn.val()), chal_perm.val())
                == prod_shift(log_vals(self.read_log()), fold_with(chal_cmbn.val()), chal_perm.val()),
            r matches Ok(ch) ==> ({
                let words = permutation_words(
                    log_vals(self.write_log()),
                    log_vals(self.read_log()),
                    fold_with(chal_cmbn.val()),
                    chal_perm.val(),
                    old(hp).unused(),
                );
                &&& ch.wf()
                &&& old(hp).unused().len() >= self.read_log().len() + self.write_log().len()
                &&& ch.incoming() == self.channel().incoming()
                &&& ch.outgoing() == self.channel().outgoing() + words
                &&& ch.transcript() == self.channel().transcript() + words
                &&& final(hp).unused() == old(hp).unused().subrange(
                    (self.read_log().len() + self.write_log().len()) as int,
                    old(hp).unused().len() as int,
                )
            }),
    {
        let mut me = self;
        let lw = collapse_vecs(&me.wrs, chal_cmbn);
        let lr = collapse_vecs(&me.rds, chal_cmbn);
        let ghost u = hp.unused();
        let ghost x = chal_cmbn.val();
        let ghost hf = fold_with(x);
        let ghost (wv, rv) = (log_vals(self.wrs@), log_vals(self.rds@));
        proof {
            assert forall|i: int| 0 <= i < lw@.len() implies value_fn()(#[trigger] lw@[i]) == hf(wv[i]) by {
                lemma_values_of_record(self.wrs@[i]);
            }
            assert forall|i: int| 0 <= i < lr@.len() implies value_fn()(#[trigger] lr@[i]) == hf(rv[i]) by {
                lemma_values_of_record(self.rds@[i]);
            }
            lemma_prod_pointwise(lw@, value_fn(), wv, hf, chal_perm.val());
            lemma_prod_pointwise(lr@, value_fn(), rv, hf, chal_perm.val());
            lemma_words_pointwise(lw@, value_fn(), wv, hf, chal_perm.val(), u, 0, lw@.len());
            lemma_words_pointwise(lr@, value_fn(), rv, hf, chal_perm.val(), u, lw@.len() as int, lr@.len());
            if rv.to_multiset() == wv.to_multiset() {
                lemma_prod_perm(wv, rv, hf, chal_perm.val());
            }
        }
        permutation_prover(hp, &mut me.ch, chal_perm, &lw, &lr)?;
        proof {
            let words = permutation_words(wv, rv, hf, chal_perm.val(), u);
            assert(words == permutation_words(lw@, lr@, value_fn(), chal_perm.val(), u));
            let k = self.ch.outgoing().len() as int;
            assert(me.ch.outgoing().subrange(k, me.ch.outgoing().len() as int) == words);
        }
        Ok(me.ch)
    }

    /// Ends the memory: drains the address space, draws both challenges
    /// from the transcript and runs `finalize_with`. After a settled
    /// history within the address space, and given three pairs for each
    /// address and one for each record, it succeeds; it never fails the
    /// check after such a history.
    pub fn finalize(self, hp: &mut HomcomProver) -> (r: Result<TxChannel, RamError>)
        requires
            self.wf(),
            old(hp).wf(),
        ensures
            final(hp).wf(),
            r is Err ==> r == Err::<TxChannel, RamError>(RamError::Exhausted) || r == Err::<TxChannel, RamError>(
                RamError::CheckFailed,
            ),
            self.settled() && self.within_space() ==> r != Err::<TxChannel, RamError>(RamError::CheckFailed),
            old(hp).unused().len() >= 5 * self.space().spec_bound() + self.read_log().len() + self.write_log().len()
                && self.settled() && self.within_space() ==> r is Ok,
            r matches Ok(ch) ==> ch.wf() && sends_only(self.channel(), ch),
            r matches Ok(ch) ==> ({
                let b = self.space().spec_bound();
                let u = old(hp).unused();
                let dw = drain_words(self.contents(), u, b);
                let c = challenge_of(self.channel().transcript() + dw);
                let wv = log_vals(self.write_log()) + zero_records(b);
                let rv = log_vals(self.read_log()) + initial_records(self.contents(), b);
                ch.outgoing() == self.channel().outgoing() + dw + permutation_words(
                    wv,
                    rv,
                    fold_with(c.0),
                    c.1,
                    u.subrange(3 * b as int, u.len() as int),
                )
            }),
            r is Ok ==> final(hp).unused().len() == old(hp).unused().len() - 5 * self.space().spec_bound()
                - self.read_log().len() - self.write_log().len(),
    {
        let mut me = self;
        let ghost b = self.space().spec_bound();
        me.drain(hp)?;
        let c = me.ch.challenge();
        let ghost drained = me;
        let ghost u1 = hp.unused();
        proof {
            let k0 = self.channel().outgoing().len() as int;
            let dw = drain_words(self.contents(), old(hp).unused(), b);
            assert(drained.channel().outgoing().subrange(k0, drained.channel().outgoing().len() as int) == dw);
            assert(drained.channel().transcript() == self.channel().transcript() + dw);
            assert(drained.read_log().len() == self.read_log().len() + b);
            assert(drained.write_log().len() == self.write_log().len() + b);
            if self.settled() && self.within_space() {
                lemma_prod_perm(log_vals(drained.write_log()), log_vals(drained.read_log()), fold_with(c[0].val()), c[1].val());
            }
        }
        let r = me.finalize_with(hp, c[0], c[1]);
        proof {
            match r {
                Ok(ref ch) => {
                    let ch = *ch;
                    let k = drained.channel().outgoing().len() as int;
                    let words = permutation_words(
                        log_vals(drained.write_log()),
                        log_vals(drained.read_log()),
                        fold_with(c[0].val()),
                        c[1].val(),
                        u1,
                    );
                    assert(ch.outgoing() == drained.channel().outgoing() + words);
                    assert(ch.outgoing().subrange(0, k) == drained.channel().outgoing());
                    assert(ch.outgoing().subrange(k, ch.outgoing().len() as int) == words);
                    assert(ch.outgoing() == self.channel().outgoing() + drain_words(self.contents(), old(hp).unused(), b)
                        + words);
                    assert(sends_only(drained.channel(), ch));
                    lemma_sends_only_trans(self.channel(), drained.channel(), ch);
                    assert(u1.len() >= drained.read_log().len() + drained.write_log().len());
                },
                Err(_) => {},
            }
        }
        r
    }
}

/// Horner's rule over the four fields of a record.
pub open spec fn record_fold(v: Vals, x: int) -> int {
    horner(seq![v.0, v.1, v.2, v.3], x)
}

/// `record_fold` with base `x`, as a function of the record.
pub open spec fn fold_with(x: int) -> spec_fn(Vals) -> int {
    |v: Vals| record_fold(v, x)
}

proof fn lemma_values_of_record(e: [MacProver; SIZE_DIM])
    ensures
        values_of(e@) == seq![rec_vals(e).0, rec_vals(e).1, rec_vals(e).2, rec_vals(e).3],
{
    assert(values_of(e@) =~= seq![rec_vals(e).0, rec_vals(e).1, rec_vals(e).2, rec_vals(e).3]);
}

/// The records of present cells below `k`.
spec fn live_below(m: Map<u64, Store>, k: nat) -> Multiset<Vals>
    decreases k,
{
    if k == 0 {
        Multiset::empty()
    } else if m.contains_key((k - 1) as u64) {
        live_below(m, (k - 1) as nat).insert(stored_vals((k - 1) as u64, m[(k - 1) as u64]))
    } else {
        live_below(m, (k - 1) as nat)
    }
}

/// The zero records of present cells below `k`.
spec fn zeros_below(m: Map<u64, Store>, k: nat) -> Multiset<Vals>
    decreases k,
{
    if k == 0 {
        Multiset::empty()
    } else if m.contains_key((k - 1) as u64) {
        zeros_below(m, (k - 1) as nat).insert(zero_vals(k - 1))
    } else {
        zeros_below(m, (k - 1) as nat)
    }
}

proof fn lemma_below_counts(m: Map<u64, Store>, k: nat, v: Vals)
    requires
        k <= u64::MAX,
    ensures
        live_below(m, k).count(v) == if 0 <= v.0 < k { live_count(m, v) } else { 0 },
        zeros_below(m, k).count(v) == if 0 <= v.0 < k && m.contains_key(v.0 as u64) && v == zero_vals(v.0) {
            1nat
        } else {
            0nat
        },
    decreases k,
{
    if k > 0 {
        lemma_below_counts(m, (k - 1) as nat, v);
    }
}

proof fn lemma_walk_balance(m: Map<u64, Store>, k: nat)
    requires
        k <= u64::MAX,
    ensures
        initial_records(m, k).to_multiset().add(zeros_below(m, k)) == zero_records(k).to_multiset().add(
            live_below(m, k),
        ),
    decreases k,
{
    broadcast use vstd::seq_lib::group_to_multiset_ensures;

    if k == 0 {
        assert(initial_records(m, 0) == Seq::<Vals>::empty());
        assert(zero_records(0) == Seq::<Vals>::empty());
        assert(initial_records(m, 0).to_multiset().add(zeros_below(m, 0)) =~= zero_records(0).to_multiset().add(
            live_below(m, 0),
        ));
    } else {
        let j = (k - 1) as nat;
        lemma_walk_balance(m, j);
        assert(initial_records(m, k) == initial_records(m, j).push(initial_record(m, j as int)));
        assert(zero_records(k) == zero_records(j).push(zero_vals(j as int)));
        let (a, z, b, l) = (
            initial_records(m, j).to_multiset(),
            zeros_below(m, j),
            zero_records(j).to_multiset(),
            live_below(m, j),
        );
        if m.contains_key(j as u64) {
            let sv = stored_vals(j as u64, m[j as u64]);
            assert forall|v: Vals| #[trigger] a.insert(sv).add(z.insert(zero_vals(j as int))).count(v) == b.insert(
                zero_vals(j as int),
            ).add(l.insert(sv)).count(v) by {
                assert(a.add(z).count(v) == b.add(l).count(v));
            }
            assert(a.insert(sv).add(z.insert(zero_vals(j as int))) =~= b.insert(zero_vals(j as int)).add(
                l.insert(sv),
            ));
        } else {
            assert forall|v: Vals| #[trigger] a.insert(zero_vals(j as int)).add(z).count(v) == b.insert(
                zero_vals(j as int),
            ).add(l).count(v) by {
                assert(a.add(z).count(v) == b.add(l).count(v));
            }
            assert(a.insert(zero_vals(j as int)).add(z) =~= b.insert(zero_vals(j as int)).add(l));
        }
    }
}

/// After a settled history within the address space, the records the
/// final walk reads and writes complete the logs to the same multiset.
proof fn lemma_walked_logs_permute(pr: Prover)
    requires
        pr.wf(),
        pr.settled(),
        pr.within_space(),
        pr.space().spec_bound() <= u64::MAX,
    ensures
        (log_vals(pr.read_log()) + initial_records(pr.contents(), pr.space().spec_bound())).to_multiset() == (
        log_vals(pr.write_log()) + zero_records(pr.space().spec_bound())).to_multiset(),
{
    broadcast use vstd::seq_lib::group_to_multiset_ensures;

    let b = pr.space().spec_bound();
    let m = pr.memory@;
    lemma_walk_balance(m, b);
    assert forall|v: Vals| #[trigger] live_below(m, b).count(v) == pr.live@.count(v) by {
        lemma_below_counts(m, b, v);
        if in_u64(v.0) && m.contains_key(v.0 as u64) {
            assert(pr.touched@.contains(v.0 as u64));
        }
    }
    assert forall|v: Vals| #[trigger] zeros_below(m, b).count(v) == pr.zeros@.count(v) by {
        lemma_below_counts(m, b, v);
        if in_u64(v.0) && pr.touched@.contains(v.0 as u64) {
            assert(m.contains_key(v.0 as u64));
        }
    }
    assert(live_below(m, b) =~= pr.live@);
    assert(zeros_below(m, b) =~= pr.zeros@);
    vstd::seq_lib::lemma_multiset_commutative(log_vals(pr.read_log()), initial_records(m, b));
    vstd::seq_lib::lemma_multiset_commutative(log_vals(pr.write_log()), zero_records(b));
    let (r0, w0, i0, z0) = (
        log_vals(pr.rds@).to_multiset(),
        log_vals(pr.wrs@).to_multiset(),
        initial_records(m, b).to_multiset(),
        zero_records(b).to_multiset(),
    );
    assert(r0.add(pr.live@) == w0.add(pr.zeros@));
    assert(r0.add(i0) =~= w0.add(z0)) by {
        assert forall|v: Vals| #[trigger] r0.add(i0).count(v) == w0.add(z0).count(v) by {
            assert(i0.add(zeros_below(m, b)).count(v) == z0.add(live_below(m, b)).count(v));
            assert(r0.add(pr.live@).count(v) == w0.add(pr.zeros@).count(v));
        }
    }
}

proof fn lemma_drain_words_decode(m: Map<u64, Store>, u: Seq<(Fp, Fp)>, k: nat, rest: Seq<u8>)
    ensures
        drain_words(m, u, k).len() == 24 * k,
        words_ok(drain_words(m, u, k) + rest, 0, 3 * k as int),
    decreases k,
{
    if k > 0 {
        let j = (k - 1) as nat;
        let v = initial_record(m, j as int);
        let uj = u.subrange(3 * j as int, u.len() as int);
        let (x0, x1, x2) = (fsub(v.1, uj[0].0.val()), fsub(v.2, uj[1].0.val()), fsub(v.3, uj[2].0.val()));
        lemma_cong_ops(v.1, uj[0].0.val());
        lemma_cong_ops(v.2, uj[1].0.val());
        lemma_cong_ops(v.3, uj[2].0.val());
        let (e0, e1, e2) = (elem_bytes(x0), elem_bytes(x1), elem_bytes(x2));
        let rw = remove_words(v, uj);
        let t = rw + rest;
        lemma_elem_decodes(x2, rest);
        lemma_elem_decodes(x1, e2 + rest);
        lemma_elem_decodes(x0, e1 + e2 + rest);
        assert(t == e0 + (e1 + e2 + rest));
        assert(t.subrange(8, t.len() as int) == e1 + e2 + rest);
        assert(t.subrange(16, t.len() as int) == e2 + rest);
        assert(e1 + e2 + rest == e1 + (e2 + rest));
        lemma_elem_shift(t, 1, 0);
        lemma_elem_shift(t, 2, 0);
        lemma_drain_words_decode(m, u, j, t);
        let w = drain_words(m, u, j);
        let all = drain_words(m, u, k) + rest;
        assert(all == w + t);
        assert(all.subrange(24 * j as int, all.len() as int) == t);
        assert forall|i: int| 0 <= i < 3 * k implies elem_ok(all, i) by {
            if i >= 3 * j {
                lemma_elem_shift(all, 3 * j as int, i - 3 * j);
            }
        }
    }
}

/// Completeness of the memory: after a settled history within the
/// address space, and with keys correlated with the prover's pairs, the
/// bytes that `Prover::finalize` sends, followed by anything, meet the
/// acceptance condition of `Verifier::finalize` for a verifier whose logs
/// are as long as the prover's.
pub proof fn lemma_finalize_complete(pr: Prover, up: Seq<(Fp, Fp)>, kv: Seq<Fp>, delta: Fp, rest: Seq<u8>)
    requires
        pr.wf(),
        pr.settled(),
        pr.within_space(),
        pr.space().spec_bound() <= u64::MAX,
        up.len() >= 5 * pr.space().spec_bound() + pr.read_log().len() + pr.write_log().len(),
        kv.len() >= up.len(),
        forall|i: int| 0 <= i < up.len() && i < kv.len() ==> (#[trigger] up[i]).1.val() == fadd(
            kv[i].val(),
            fmul(up[i].0.val(), delta.val()),
        ),
    ensures
        ({
            let b = pr.space().spec_bound();
            let dw = drain_words(pr.contents(), up, b);
            let c = challenge_of(pr.channel().transcript() + dw);
            let wv = log_vals(pr.write_log()) + zero_records(b);
            let rv = log_vals(pr.read_log()) + initial_records(pr.contents(), b);
            let inc = dw + permutation_words(wv, rv, fold_with(c.0), c.1, up.subrange(3 * b as int, up.len() as int))
                + rest;
            &&& words_ok(inc, 0, 3 * b as int)
            &&& perm_accepts(
                kv.subrange(3 * b as int, kv.len() as int),
                inc.subrange(24 * b as int, inc.len() as int),
                (pr.write_log().len() + b) as int,
                (pr.read_log().len() + b) as int,
                delta.val(),
            )
        }),
{
    let b = pr.space().spec_bound();
    let dw = drain_words(pr.contents(), up, b);
    let c = challenge_of(pr.channel().transcript() + dw);
    let wv = log_vals(pr.write_log()) + zero_records(b);
    let rv = log_vals(pr.read_log()) + initial_records(pr.contents(), b);
    let (up2, kv2) = (up.subrange(3 * b as int, up.len() as int), kv.subrange(3 * b as int, kv.len() as int));
    let pw = permutation_words(wv, rv, fold_with(c.0), c.1, up2);
    let inc = dw + pw + rest;
    lemma_drain_words_decode(pr.contents(), up, b, pw + rest);
    assert(inc == dw + (pw + rest));
    assert(inc.subrange(24 * b as int, inc.len() as int) == pw + rest);
    lemma_walked_logs_permute(pr);
    lemma_prod_perm(rv, wv, fold_with(c.0), c.1);
    assert forall|i: int| 0 <= i < up2.len() && i < kv2.len() implies (#[trigger] up2[i]).1.val() == fadd(
        kv2[i].val(),
        fmul(up2[i].0.val(), delta.val()),
    ) by {
        assert(up2[i] == up[3 * b + i]);
        assert(kv2[i] == kv[3 * b + i]);
    }
    lemma_permutation_complete(wv, rv, fold_with(c.0), c.1, up2, kv2, delta, rest);
}

} // verus!
