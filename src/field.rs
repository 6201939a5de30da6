//! The prime field of characteristic `2^61 - 1`, the field the memory
//! protocol runs over.
use vstd::arithmetic::div_mod::{lemma_add_mod_noop, lemma_mul_mod_noop, lemma_sub_mod_noop};
use vstd::bytes::{spec_u128_from_le_bytes, spec_u64_from_le_bytes, spec_u64_to_le_bytes, u128_from_le_bytes, u64_from_le_bytes, u64_to_le_bytes};
use vstd::prelude::*;

verus! {

/// The field characteristic, `2^61 - 1`.
pub const MODULUS: u64 = 2305843009213693951;

/// Number of bytes of the wire encoding of a field element.
pub const ELEM_BYTES: usize = 8;

pub open spec fn p() -> int {
    MODULUS as int
}

proof fn lemma_canon(v: u64)
    requires
        v < MODULUS,
    ensures
        v as int % p() == v as int,
{
    vstd::arithmetic::div_mod::lemma_small_mod(v as nat, MODULUS as nat);
}

pub open spec fn fadd(a: int, b: int) -> int {
    (a + b) % p()
}

pub open spec fn fsub(a: int, b: int) -> int {
    (a - b) % p()
}

pub open spec fn fmul(a: int, b: int) -> int {
    (a * b) % p()
}

/// The wire encoding of the element with representative `v`.
pub open spec fn elem_bytes(v: int) -> Seq<u8> {
    spec_u64_to_le_bytes(v as u64)
}

/// The integer that the `i`-th eight-byte word of `s` spells.
pub open spec fn elem_at(s: Seq<u8>, i: int) -> int {
    spec_u64_from_le_bytes(s.subrange(8 * i, 8 * i + 8)) as int
}

/// Whether the `i`-th eight-byte word of `s` is there and encodes an
/// element.
pub open spec fn elem_ok(s: Seq<u8>, i: int) -> bool {
    s.len() >= 8 * i + 8 && elem_at(s, i) < p()
}

/// Dropping the first `n` words shifts the word indices by `n`.
pub proof fn lemma_elem_shift(s: Seq<u8>, n: int, j: int)
    requires
        0 <= n,
        0 <= j,
        s.len() >= 8 * n,
    ensures
        elem_ok(s.subrange(8 * n, s.len() as int), j) <==> elem_ok(s, n + j),
        s.len() >= 8 * (n + j) + 8 ==> elem_at(s.subrange(8 * n, s.len() as int), j) == elem_at(s, n + j),
{
    let t = s.subrange(8 * n, s.len() as int);
    if s.len() >= 8 * (n + j) + 8 {
        assert(t.subrange(8 * j, 8 * j + 8) == s.subrange(8 * (n + j), 8 * (n + j) + 8));
    }
}

/// An element's encoding, followed by anything, decodes to it.
pub proof fn lemma_elem_decodes(v: int, rest: Seq<u8>)
    requires
        0 <= v < p(),
    ensures
        elem_bytes(v).len() == 8,
        elem_ok(elem_bytes(v) + rest, 0),
        elem_at(elem_bytes(v) + rest, 0) == v,
        (elem_bytes(v) + rest).subrange(0, 8) == elem_bytes(v),
        (elem_bytes(v) + rest).subrange(8, (elem_bytes(v) + rest).len() as int) == rest,
{
    vstd::bytes::lemma_auto_spec_u64_to_from_le_bytes();
    let s = elem_bytes(v) + rest;
    assert(s.subrange(0, 8) == elem_bytes(v));
    assert(s.subrange(8, s.len() as int) == rest);
}

/// An element of the field, held as its canonical representative.
#[derive(Clone, Copy, PartialEq, Eq, Structural, Debug)]
pub struct Fp {
    v: u64,
}

impl Fp {
    #[verifier::type_invariant]
    spec fn inv(self) -> bool {
        self.v < MODULUS
    }

    /// The canonical representative, in `0..MODULUS`.
    pub closed spec fn val(self) -> int {
        self.v as int % p()
    }

    pub proof fn lemma_range(self)
        ensures
            0 <= self.val() < p(),
    {
    }

    pub fn zero() -> (r: Fp)
        ensures
            r.val() == 0,
    {
        Fp { v: 0 }
    }

    pub fn one() -> (r: Fp)
        ensures
            r.val() == 1,
    {
        proof {
            lemma_canon(1);
        }
        Fp { v: 1 }
    }

    /// The element `x mod MODULUS`.
    pub fn from_u64(x: u64) -> (r: Fp)
        ensures
            r.val() == x as int % p(),
    {
        let r = Fp { v: x % MODULUS };
        proof {
            lemma_canon(r.v);
        }
        r
    }

    /// The canonical representative.
    pub fn value(self) -> (r: u64)
        ensures
            r as int == self.val(),
            r < MODULUS,
    {
        proof {
            use_type_invariant(self);
            lemma_canon(self.v);
        }
        self.v
    }

    pub fn add(self, o: Fp) -> (r: Fp)
        ensures
            r.val() == fadd(self.val(), o.val()),
    {
        proof {
            use_type_invariant(self);
            use_type_invariant(o);
            lemma_canon(self.v);
            lemma_canon(o.v);
        }
        let r = Fp { v: (self.v + o.v) % MODULUS };
        proof {
            lemma_canon(r.v);
        }
        r
    }

    pub fn sub(self, o: Fp) -> (r: Fp)
        ensures
            r.val() == fsub(self.val(), o.val()),
    {
        proof {
            use_type_invariant(self);
            use_type_invariant(o);
            lemma_canon(self.v);
            lemma_canon(o.v);
        }
        let r = Fp { v: (self.v + (MODULUS - o.v)) % MODULUS };
        proof {
            lemma_canon(r.v);
            lemma_add_mod_noop(self.v - o.v, p(), p());
            assert((self.v + (MODULUS - o.v)) % p() == (self.v - o.v) % p()) by {
                vstd::arithmetic::div_mod::lemma_mod_multiples_vanish(1, self.v - o.v, p());
            };
        }
        r
    }

    pub fn neg(self) -> (r: Fp)
        ensures
            r.val() == fsub(0, self.val()),
    {
        Fp::zero().sub(self)
    }

    pub fn mul(self, o: Fp) -> (r: Fp)
        ensures
            r.val() == fmul(self.val(), o.val()),
    {
        proof {
            use_type_invariant(self);
            use_type_invariant(o);
            lemma_canon(self.v);
            lemma_canon(o.v);
            assert((self.v as u128) * (o.v as u128) < 0x1_0000_0000_0000_0000_0000_0000_0000_0000) by (nonlinear_arith)
                requires
                    self.v < MODULUS,
                    o.v < MODULUS,
            ;
        }
        let prod: u128 = (self.v as u128) * (o.v as u128);
        let r = Fp { v: (prod % (MODULUS as u128)) as u64 };
        proof {
            lemma_canon(r.v);
        }
        r
    }

    /// The element that 16 uniform bytes stand for: the little-endian
    /// integer they spell, reduced modulo the characteristic.
    pub fn from_uniform_bytes(b: &[u8]) -> (r: Fp)
        requires
            b@.len() == 16,
        ensures
            r.val() == spec_u128_from_le_bytes(b@) as int % p(),
    {
        let x: u128 = u128_from_le_bytes(b);
        let r = Fp { v: (x % (MODULUS as u128)) as u64 };
        proof {
            lemma_canon(r.v);
        }
        r
    }

    /// The wire encoding: the canonical representative, little-endian.
    pub open spec fn to_bytes_spec(self) -> Seq<u8> {
        elem_bytes(self.val())
    }

    pub fn to_bytes(self) -> (r: Vec<u8>)
        ensures
            r@ == self.to_bytes_spec(),
            r@.len() == ELEM_BYTES,
    {
        proof {
            vstd::bytes::lemma_auto_spec_u64_to_from_le_bytes();
        }
        u64_to_le_bytes(self.value())
    }

    /// Decodes the wire encoding; `None` where the bytes spell no
    /// canonical representative.
    pub fn from_bytes(b: &[u8]) -> (r: Option<Fp>)
        requires
            b@.len() == ELEM_BYTES,
        ensures
            r is Some <==> spec_u64_from_le_bytes(b@) < MODULUS,
            r matches Some(x) ==> x.val() == spec_u64_from_le_bytes(b@) as int,
    {
        let x = u64_from_le_bytes(b);
        if x < MODULUS {
            proof {
                lemma_canon(x);
            }
            Some(Fp { v: x })
        } else {
            None
        }
    }
}

/// Congruence modulo the characteristic.
pub open spec fn cong(a: int, b: int) -> bool {
    a % p() == b % p()
}

pub proof fn lemma_cong_add(a: int, a2: int, b: int, b2: int)
    requires
        cong(a, a2),
        cong(b, b2),
    ensures
        cong(a + b, a2 + b2),
{
    lemma_add_mod_noop(a, b, p());
    lemma_add_mod_noop(a2, b2, p());
}

pub proof fn lemma_cong_sub(a: int, a2: int, b: int, b2: int)
    requires
        cong(a, a2),
        cong(b, b2),
    ensures
        cong(a - b, a2 - b2),
{
    lemma_sub_mod_noop(a, b, p());
    lemma_sub_mod_noop(a2, b2, p());
}

pub proof fn lemma_cong_mul(a: int, a2: int, b: int, b2: int)
    requires
        cong(a, a2),
        cong(b, b2),
    ensures
        cong(a * b, a2 * b2),
{
    lemma_mul_mod_noop(a, b, p());
    lemma_mul_mod_noop(a2, b2, p());
}

/// Each field operation is congruent to the integer operation.
pub proof fn lemma_cong_ops(a: int, b: int)
    ensures
        cong(fadd(a, b), a + b),
        cong(fsub(a, b), a - b),
        cong(fmul(a, b), a * b),
        0 <= fadd(a, b) < p(),
        0 <= fsub(a, b) < p(),
        0 <= fmul(a, b) < p(),
{
    vstd::arithmetic::div_mod::lemma_mod_twice(a + b, p());
    vstd::arithmetic::div_mod::lemma_mod_twice(a - b, p());
    vstd::arithmetic::div_mod::lemma_mod_twice(a * b, p());
}

/// Congruent canonical representatives are equal.
pub proof fn lemma_cong_eq(a: int, b: int)
    requires
        cong(a, b),
        0 <= a < p(),
        0 <= b < p(),
    ensures
        a == b,
{
    vstd::arithmetic::div_mod::lemma_small_mod(a as nat, p() as nat);
    vstd::arithmetic::div_mod::lemma_small_mod(b as nat, p() as nat);
}

} // verus!
