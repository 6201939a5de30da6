//! Authenticated random-access memory: every access leaves one record in
//! a read log and one in a write log, and a permutation argument shows at
//! the end that the two logs hold the same records.
use vstd::prelude::*;

use crate::field::{fadd, fmul, p, Fp};
use crate::homcom::{prover_add, prover_mul_constant, verifier_add, verifier_mul_constant, MacProver, MacVerifier};

pub mod laws;
pub mod memory;
pub mod perm;
pub mod prover_ram;
pub mod verifier_ram;

pub use memory::{correlations_needed, MemoryProver, MemoryVerifier, RAM_SIZE};
pub use prover_ram::Prover;
pub use verifier_ram::Verifier;

verus! {

/// Field elements per address.
pub const DIM_ADDR: usize = 1;

/// Field elements per value.
pub const DIM_VALUE: usize = 1;

/// Field elements of challenge per write: enough for 100 bits of
/// entropy at 61 bits per element.
pub const DIM_CHAL: usize = 2;

/// Field elements a cell stores: value and challenge.
pub const SIZE_STORE: usize = DIM_VALUE + DIM_CHAL;

/// Field elements per record: address, value, challenge.
pub const SIZE_DIM: usize = DIM_ADDR + DIM_VALUE + DIM_CHAL;

/// Horner's rule: `((s0 * x + s1) * x + s2) * x + ...` in the field.
pub open spec fn horner(s: Seq<int>, x: int) -> int
    decreases s.len(),
{
    if s.len() == 0 {
        0
    } else {
        fadd(fmul(horner(s.drop_last(), x), x), s.last())
    }
}

/// Horner's rule over one canonical element is that element.
proof fn lemma_horner_single(s: Seq<int>, x: int)
    requires
        s.len() == 1,
        0 <= s[0] < p(),
    ensures
        horner(s, x) == s[0],
{
    assert(s.drop_last().len() == 0);
    assert(horner(s.drop_last(), x) == 0);
    assert(fmul(0, x) == 0);
    assert(s.last() == s[0]);
    vstd::arithmetic::div_mod::lemma_small_mod(s[0] as nat, p() as nat);
    assert(fadd(0, s[0]) == s[0]);
}

/// The values of a sequence of the prover's commitments.
pub open spec fn values_of(s: Seq<MacProver>) -> Seq<int> {
    s.map_values(|w: MacProver| w.value.val())
}

/// The tags of a sequence of the prover's commitments.
pub open spec fn tags_of(s: Seq<MacProver>) -> Seq<int> {
    s.map_values(|w: MacProver| w.tag.val())
}

/// The keys of a sequence of the verifier's commitments.
pub open spec fn keys_of(s: Seq<MacVerifier>) -> Seq<int> {
    s.map_values(|w: MacVerifier| w.key.val())
}

/// Folds commitments into one by Horner's rule with base `x`: values and
/// tags fold alike, so the result commits to the fold of the values.
pub fn combine(elems: &[MacProver], x: Fp) -> (r: MacProver)
    requires
        elems@.len() >= 1,
    ensures
        r.value.val() == horner(values_of(elems@), x.val()),
        r.tag.val() == horner(tags_of(elems@), x.val()),
{
    let mut y = elems[0];
    proof {
        y.value.lemma_range();
        y.tag.lemma_range();
        assert(values_of(elems@.subrange(0, 1))[0] == y.value.val());
        assert(tags_of(elems@.subrange(0, 1))[0] == y.tag.val());
        lemma_horner_single(values_of(elems@.subrange(0, 1)), x.val());
        lemma_horner_single(tags_of(elems@.subrange(0, 1)), x.val());
    }
    let mut i: usize = 1;
    while i < elems.len()
        invariant
            1 <= i <= elems@.len(),
            y.value.val() == horner(values_of(elems@.subrange(0, i as int)), x.val()),
            y.tag.val() == horner(tags_of(elems@.subrange(0, i as int)), x.val()),
        decreases elems@.len() - i,
    {
        y = prover_add(prover_mul_constant(y, x), elems[i]);
        i = i + 1;
        proof {
            let s = elems@.subrange(0, i as int);
            assert(s.drop_last() == elems@.subrange(0, i - 1 as int));
            assert(values_of(s).drop_last() == values_of(s.drop_last()));
            assert(tags_of(s).drop_last() == tags_of(s.drop_last()));
        }
    }
    proof {
        assert(elems@.subrange(0, i as int) == elems@);
    }
    y
}

/// The verifier's half of `combine`: keys fold by the same rule.
pub fn combine_keys(elems: &[MacVerifier], x: Fp) -> (r: MacVerifier)
    requires
        elems@.len() >= 1,
    ensures
        r.key.val() == horner(keys_of(elems@), x.val()),
{
    let mut y = elems[0];
    proof {
        y.key.lemma_range();
        assert(keys_of(elems@.subrange(0, 1))[0] == y.key.val());
        lemma_horner_single(keys_of(elems@.subrange(0, 1)), x.val());
    }
    let mut i: usize = 1;
    while i < elems.len()
        invariant
            1 <= i <= elems@.len(),
            y.key.val() == horner(keys_of(elems@.subrange(0, i as int)), x.val()),
        decreases elems@.len() - i,
    {
        y = verifier_add(verifier_mul_constant(y, x), elems[i]);
        i = i + 1;
        proof {
            let s = elems@.subrange(0, i as int);
            assert(s.drop_last() == elems@.subrange(0, i - 1 as int));
            assert(keys_of(s).drop_last() == keys_of(s.drop_last()));
        }
    }
    proof {
        assert(elems@.subrange(0, i as int) == elems@);
    }
    y
}

/// Folds every record of a log into one commitment.
pub fn collapse_vecs(elems: &Vec<[MacProver; SIZE_DIM]>, x: Fp) -> (r: Vec<MacProver>)
    ensures
        r@.len() == elems@.len(),
        forall|i: int|
            0 <= i < elems@.len() ==> #[trigger] r@[i].value.val() == horner(values_of(elems@[i]@), x.val())
                && r@[i].tag.val() == horner(tags_of(elems@[i]@), x.val()),
{
    let mut out: Vec<MacProver> = Vec::with_capacity(elems.len());
    let mut i: usize = 0;
    while i < elems.len()
        invariant
            i <= elems@.len(),
            out@.len() == i,
            forall|j: int|
                0 <= j < i ==> #[trigger] out@[j].value.val() == horner(values_of(elems@[j]@), x.val())
                    && out@[j].tag.val() == horner(tags_of(elems@[j]@), x.val()),
        decreases elems@.len() - i,
    {
        out.push(combine(elems[i].as_slice(), x));
        i = i + 1;
    }
    out
}

/// The verifier's half of `collapse_vecs`.
pub fn collapse_keys(elems: &Vec<[MacVerifier; SIZE_DIM]>, x: Fp) -> (r: Vec<MacVerifier>)
    ensures
        r@.len() == elems@.len(),
        forall|i: int|
            0 <= i < elems@.len() ==> #[trigger] r@[i].key.val() == horner(keys_of(elems@[i]@), x.val()),
{
    let mut out: Vec<MacVerifier> = Vec::with_capacity(elems.len());
    let mut i: usize = 0;
    while i < elems.len()
        invariant
            i <= elems@.len(),
            out@.len() == i,
            forall|j: int| 0 <= j < i ==> #[trigger] out@[j].key.val() == horner(keys_of(elems@[j]@), x.val()),
        decreases elems@.len() - i,
    {
        out.push(combine_keys(elems[i].as_slice(), x));
        i = i + 1;
    }
    out
}

/// A finite set of addresses with a fixed enumeration order, which both
/// parties reproduce on their own.
pub trait MemorySpace {
    spec fn spec_size(&self) -> nat;

    /// The `i`-th address of the enumeration.
    spec fn spec_address(&self, i: int) -> int;

    fn size(&self) -> (r: usize)
        ensures
            r == self.spec_size(),
    ;

    /// Every address once, in enumeration order.
    fn enumerate(&self) -> (r: Vec<Fp>)
        ensures
            r@.len() == self.spec_size(),
            forall|i: int| 0 <= i < r@.len() ==> (#[trigger] r@[i]).val() == self.spec_address(i),
    ;
}

/// The addresses `0, 1, ..., bound - 1`.
#[derive(Clone, Copy, Debug)]
pub struct Bounded {
    bound: usize,
}

impl Bounded {
    pub closed spec fn spec_bound(self) -> nat {
        self.bound as nat
    }

    #[verifier::type_invariant]
    spec fn inv(self) -> bool {
        self.bound as int <= p()
    }

    /// The space of `bound` addresses; each must be a distinct element,
    /// so `bound` is at most the characteristic.
    pub fn new(bound: usize) -> (r: Bounded)
        requires
            bound as int <= p(),
        ensures
            r.spec_bound() == bound,
    {
        Bounded { bound }
    }
}

impl MemorySpace for Bounded {
    open spec fn spec_size(&self) -> nat {
        self.spec_bound()
    }

    open spec fn spec_address(&self, i: int) -> int {
        i
    }

    fn size(&self) -> (r: usize) {
        self.bound
    }

    fn enumerate(&self) -> (r: Vec<Fp>) {
        proof {
            use_type_invariant(self);
        }
        let mut out: Vec<Fp> = Vec::with_capacity(self.bound);
        let mut i: usize = 0;
        while i < self.bound
            invariant
                i <= self.bound,
                self.bound as int <= p(),
                out@.len() == i,
                forall|j: int| 0 <= j < i ==> (#[trigger] out@[j]).val() == j,
            decreases self.bound - i,
        {
            proof {
                vstd::arithmetic::div_mod::lemma_small_mod(i as nat, p() as nat);
            }
            out.push(Fp::from_u64(i as u64));
            i = i + 1;
        }
        out
    }
}

} // verus!
