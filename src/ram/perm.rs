//! The permutation argument: two sequences of committed values hold the
//! same multiset when `prod (l_i - r) == prod (r_i - r)` at a random `r`.
use vstd::prelude::*;

use crate::error::RamError;
use crate::field::{
    elem_at, elem_bytes, elem_ok, fadd, fmul, fsub, lemma_cong_eq, lemma_cong_ops, lemma_cong_sub, lemma_elem_decodes,
    lemma_elem_shift, p, Fp,
};
use crate::homcom::{
    lemma_commit_relation, lemma_public_relation, prover_public, prover_sub, verifier_sub, HomcomProver,
    HomcomVerifier, MacProver, MacVerifier,
};
use crate::tx::{
    lemma_reads_only_refl, lemma_reads_only_trans, lemma_sends_only_refl, lemma_sends_only_trans, reads_only,
    sends_only, TxChannel,
};

verus! {

/// `prod (f(s_i) - r)` in the field.
pub open spec fn prod_shift<A>(s: Seq<A>, f: spec_fn(A) -> int, r: int) -> int
    decreases s.len(),
{
    if s.len() == 0 {
        1
    } else {
        fmul(prod_shift(s.drop_last(), f, r), fsub(f(s.last()), r))
    }
}

pub open spec fn value_fn() -> spec_fn(MacProver) -> int {
    |w: MacProver| w.value.val()
}

pub proof fn lemma_prod_range<A>(s: Seq<A>, f: spec_fn(A) -> int, r: int)
    ensures
        0 <= prod_shift(s, f, r) < p(),
{
}

proof fn lemma_fmul_swap(a: int, b: int, c: int)
    ensures
        fmul(fmul(a, b), c) == fmul(fmul(a, c), b),
{
    vstd::arithmetic::div_mod::lemma_mul_mod_noop_left(a * b, c, p());
    vstd::arithmetic::div_mod::lemma_mul_mod_noop_left(a * c, b, p());
    assert(a * b * c == a * c * b) by (nonlinear_arith);
}

/// Products over sequences that agree pointwise agree.
pub proof fn lemma_prod_pointwise<A, B>(s1: Seq<A>, f: spec_fn(A) -> int, s2: Seq<B>, g: spec_fn(B) -> int, r: int)
    requires
        s1.len() == s2.len(),
        forall|i: int| 0 <= i < s1.len() ==> f(#[trigger] s1[i]) == g(s2[i]),
    ensures
        prod_shift(s1, f, r) == prod_shift(s2, g, r),
    decreases s1.len(),
{
    if s1.len() > 0 {
        let i = s1.len() - 1;
        assert(f(s1[i]) == g(s2[i]));
        lemma_prod_pointwise(s1.drop_last(), f, s2.drop_last(), g, r);
    }
}

/// Taking one factor out of a product.
proof fn lemma_prod_remove<A>(s: Seq<A>, f: spec_fn(A) -> int, r: int, j: int)
    requires
        0 <= j < s.len(),
    ensures
        prod_shift(s, f, r) == fmul(prod_shift(s.remove(j), f, r), fsub(f(s[j]), r)),
    decreases s.len(),
{
    if j == s.len() - 1 {
        assert(s.remove(j) == s.drop_last());
    } else {
        let t = s.drop_last();
        lemma_prod_remove(t, f, r, j);
        assert(s.remove(j).drop_last() == t.remove(j));
        assert(s.remove(j).last() == s.last());
        lemma_fmul_swap(prod_shift(t.remove(j), f, r), fsub(f(s[j]), r), fsub(f(s.last()), r));
    }
}

/// The product does not depend on the order of the factors.
pub proof fn lemma_prod_perm<A>(s1: Seq<A>, s2: Seq<A>, f: spec_fn(A) -> int, r: int)
    requires
        s1.to_multiset() == s2.to_multiset(),
    ensures
        prod_shift(s1, f, r) == prod_shift(s2, f, r),
    decreases s1.len(),
{
    broadcast use vstd::seq_lib::group_to_multiset_ensures;

    if s1.len() == 0 {
        assert(s2.to_multiset().len() == 0);
        assert(s2.len() == 0);
    } else {
        let x = s1.last();
        let t1 = s1.drop_last();
        assert(s1 == t1.push(x));
        assert(s2.to_multiset().count(x) > 0);
        assert(s2.contains(x));
        let j = choose|j: int| 0 <= j < s2.len() && s2[j] == x;
        let t2 = s2.remove(j);
        assert(t2.to_multiset() == s2.to_multiset().remove(x));
        assert(t1.to_multiset() =~= t2.to_multiset());
        lemma_prod_perm(t1, t2, f, r);
        lemma_prod_remove(s2, f, r, j);
    }
}

/// The word the prover sends at step `j` of its grand product over `v`:
/// the running product masked by the pair `u[start + j]`.
pub open spec fn product_word<A>(v: Seq<A>, f: spec_fn(A) -> int, r: int, u: Seq<(Fp, Fp)>, start: int, j: int) -> int {
    fsub(prod_shift(v.subrange(0, j + 1), f, r), u[start + j].0.val())
}

/// Everything the prover sends for the first `n` steps of its grand
/// product over `v`, with the pairs from `u[start]` on.
pub open spec fn product_words<A>(v: Seq<A>, f: spec_fn(A) -> int, r: int, u: Seq<(Fp, Fp)>, start: int, n: nat) -> Seq<u8>
    decreases n,
{
    if n == 0 {
        Seq::empty()
    } else {
        product_words(v, f, r, u, start, (n - 1) as nat) + elem_bytes(product_word(v, f, r, u, start, n - 1))
    }
}

/// The tag of the prover's grand product over `n` values with the pairs
/// from `u[start]` on: that of the last product, or zero.
pub open spec fn product_tag(u: Seq<(Fp, Fp)>, start: int, n: int) -> int {
    if n == 0 {
        0
    } else {
        u[start + n - 1].1.val()
    }
}

proof fn lemma_words_shift<A>(v: Seq<A>, f: spec_fn(A) -> int, r: int, u: Seq<(Fp, Fp)>, n: int, k: nat)
    requires
        0 <= n,
        n + k <= u.len(),
    ensures
        product_words(v, f, r, u.subrange(n, u.len() as int), 0, k) == product_words(v, f, r, u, n, k),
    decreases k,
{
    if k > 0 {
        lemma_words_shift(v, f, r, u, n, (k - 1) as nat);
        assert(u.subrange(n, u.len() as int)[k - 1] == u[n + k - 1]);
        assert(product_word(v, f, r, u.subrange(n, u.len() as int), 0, k - 1) == product_word(v, f, r, u, n, k - 1));
    }
}

/// The prover's grand product `prod (v_i - r)`, as a committed value.
fn product_prover(hp: &mut HomcomProver, ch: &mut TxChannel, r: Fp, v: &Vec<MacProver>) -> (res: Result<MacProver, RamError>)
    requires
        old(hp).wf(),
        old(ch).wf(),
    ensures
        final(hp).wf(),
        final(ch).wf(),
        final(ch).incoming() == old(ch).incoming(),
        sends_only(*old(ch), *final(ch)),
        res matches Ok(w) ==> w.value.val() == prod_shift(v@, value_fn(), r.val())
            && w.tag.val() == product_tag(old(hp).unused(), 0, v@.len() as int)
            && final(hp).unused() == old(hp).unused().subrange(v@.len() as int, old(hp).unused().len() as int)
            && final(ch).outgoing() == old(ch).outgoing() + product_words(
                v@,
                value_fn(),
                r.val(),
                old(hp).unused(),
                0,
                v@.len(),
            ),
        old(hp).unused().len() >= v@.len() <==> res is Ok,
        res is Err ==> res == Err::<MacProver, RamError>(RamError::Exhausted),
{
    let ghost u = hp.unused();
    let mut acc = prover_public(Fp::one());
    let rp = prover_public(r);
    let mut i: usize = 0;
    proof {
        lemma_sends_only_refl(*ch);
        assert(hp.unused() == u.subrange(0, u.len() as int));
        assert(ch.outgoing() == old(ch).outgoing() + product_words(v@, value_fn(), r.val(), u, 0, 0));
    }
    while i < v.len()
        invariant
            i <= v@.len(),
            hp.wf(),
            ch.wf(),
            ch.incoming() == old(ch).incoming(),
            sends_only(*old(ch), *ch),
            acc.value.val() == prod_shift(v@.subrange(0, i as int), value_fn(), r.val()),
            acc.tag.val() == product_tag(u, 0, i as int),
            u == old(hp).unused(),
            u.len() >= i,
            hp.unused() == u.subrange(i as int, u.len() as int),
            ch.outgoing() == old(ch).outgoing() + product_words(v@, value_fn(), r.val(), u, 0, i as nat),
            rp.value == r,
            rp.tag.val() == 0,
        decreases v@.len() - i,
    {
        let d = prover_sub(v[i], rp);
        let ghost c0 = *ch;
        acc = match hp.mul(ch, acc, d) {
            Ok(c) => c,
            Err(e) => {
                proof {
                    lemma_sends_only_trans(*old(ch), c0, *ch);
                }
                return Err(e);
            },
        };
        proof {
            lemma_sends_only_trans(*old(ch), c0, *ch);
            assert(v@.subrange(0, i + 1).drop_last() == v@.subrange(0, i as int));
            assert(c0.outgoing() == old(ch).outgoing() + product_words(v@, value_fn(), r.val(), u, 0, i as nat));
            let w = elem_bytes(product_word(v@, value_fn(), r.val(), u, 0, i as int));
            assert(ch.outgoing() == c0.outgoing() + w);
            assert(product_words(v@, value_fn(), r.val(), u, 0, (i + 1) as nat) == product_words(v@, value_fn(), r.val(), u, 0, i as nat) + w);
            assert(hp.unused() == u.subrange(i + 1, u.len() as int));
        }
        i = i + 1;
    }
    proof {
        assert(v@.subrange(0, i as int) == v@);
    }
    Ok(acc)
}

/// Everything the prover's half of the permutation argument sends: the
/// words of both grand products, then the tag that opens their
/// difference.
pub open spec fn permutation_words<A>(lhs: Seq<A>, rhs: Seq<A>, f: spec_fn(A) -> int, r: int, u: Seq<(Fp, Fp)>) -> Seq<u8> {
    let (n, m) = (lhs.len() as int, rhs.len() as int);
    product_words(lhs, f, r, u, 0, n as nat) + product_words(rhs, f, r, u, n, m as nat) + elem_bytes(
        fsub(product_tag(u, 0, n), product_tag(u, n, m)),
    )
}

/// The prover's half of the permutation argument: multiplies out both
/// grand products and opens their difference as zero.
pub fn permutation_prover(
    hp: &mut HomcomProver,
    ch: &mut TxChannel,
    r: Fp,
    lhs: &Vec<MacProver>,
    rhs: &Vec<MacProver>,
) -> (res: Result<(), RamError>)
    requires
        old(hp).wf(),
        old(ch).wf(),
    ensures
        final(hp).wf(),
        final(ch).wf(),
        final(ch).incoming() == old(ch).incoming(),
        sends_only(*old(ch), *final(ch)),
        res is Ok ==> prod_shift(lhs@, value_fn(), r.val()) == prod_shift(rhs@, value_fn(), r.val()),
        old(hp).unused().len() >= lhs@.len() + rhs@.len() ==> (res is Ok <==> prod_shift(lhs@, value_fn(), r.val())
            == prod_shift(rhs@, value_fn(), r.val())),
        res is Err ==> res == Err::<(), RamError>(RamError::Exhausted) || res == Err::<(), RamError>(RamError::CheckFailed),
        res == Err::<(), RamError>(RamError::CheckFailed) ==> prod_shift(lhs@, value_fn(), r.val())
            != prod_shift(rhs@, value_fn(), r.val()),
        res is Ok ==> old(hp).unused().len() >= lhs@.len() + rhs@.len(),
        res is Ok ==> final(hp).unused() == old(hp).unused().subrange(
            (lhs@.len() + rhs@.len()) as int,
            old(hp).unused().len() as int,
        ),
        res is Ok ==> final(ch).outgoing() == old(ch).outgoing() + permutation_words(lhs@, rhs@, value_fn(),
            r.val(),
            old(hp).unused(),
        ),
{
    let ghost u = hp.unused();
    let pl = product_prover(hp, ch, r, lhs)?;
    let ghost c1 = *ch;
    let pr = match product_prover(hp, ch, r, rhs) {
        Ok(w) => w,
        Err(e) => {
            proof {
                lemma_sends_only_trans(*old(ch), c1, *ch);
            }
            return Err(e);
        },
    };
    let diff = prover_sub(pl, pr);
    proof {
        lemma_prod_range(lhs@, value_fn(), r.val());
        lemma_prod_range(rhs@, value_fn(), r.val());
        lemma_sends_only_trans(*old(ch), c1, *ch);
        let (n, m) = (lhs@.len() as int, rhs@.len() as int);
        lemma_words_shift(rhs@, value_fn(), r.val(), u, n, m as nat);
        if m > 0 {
            assert(u.subrange(n, u.len() as int)[m - 1] == u[n + m - 1]);
        }
        assert(pr.tag.val() == product_tag(u, n, m));
    }
    let ghost c2 = *ch;
    let res = hp.assert_zero(ch, diff);
    proof {
        lemma_sends_only_trans(*old(ch), c2, *ch);
        let (n, m) = (lhs@.len() as int, rhs@.len() as int);
        let wl = product_words(lhs@, value_fn(), r.val(), u, 0, n as nat);
        let wr = product_words(rhs@, value_fn(), r.val(), u, n, m as nat);
        if res is Ok {
            assert(ch.outgoing() == old(ch).outgoing() + wl + wr + elem_bytes(diff.tag.val()));
            assert(old(ch).outgoing() + wl + wr + elem_bytes(diff.tag.val()) == old(ch).outgoing() + (wl + wr
                + elem_bytes(diff.tag.val())));
        }
    }
    res
}

/// The key of the verifier's grand product over `n` values whose
/// products were committed with the keys `u[start..start + n]` and the
/// words `start..start + n` of `inc`: the key of the last product, or of
/// the public one where `n` is zero.
pub open spec fn product_key(u: Seq<Fp>, inc: Seq<u8>, start: int, n: int, delta: int) -> int {
    if n == 0 {
        fsub(0, fmul(1, delta))
    } else {
        fsub(u[start + n - 1].val(), fmul(elem_at(inc, start + n - 1), delta))
    }
}

/// Whether the words `start..start + n` of `inc` all encode elements.
pub open spec fn words_ok(inc: Seq<u8>, start: int, n: int) -> bool {
    forall|j: int| start <= j < start + n ==> elem_ok(inc, j)
}

/// When the verifier's half of the permutation argument over `n` and `m`
/// values accepts: there are keys for every product, every product word
/// and the opening decode, and the opening is the difference of the keys
/// of the two grand products.
pub open spec fn perm_accepts(u: Seq<Fp>, inc: Seq<u8>, n: int, m: int, delta: int) -> bool {
    &&& u.len() >= n + m
    &&& words_ok(inc, 0, n + m + 1)
    &&& elem_at(inc, n + m) == fsub(product_key(u, inc, 0, n, delta), product_key(u, inc, n, m, delta))
}

/// The verifier's grand product `prod (k_i - r)` over committed values.
fn product_verifier(hv: &mut HomcomVerifier, ch: &mut TxChannel, r: Fp, v: &Vec<MacVerifier>) -> (res: Result<MacVerifier, RamError>)
    requires
        old(hv).wf(),
        old(ch).wf(),
    ensures
        final(hv).wf(),
        final(ch).wf(),
        final(hv).delta() == old(hv).delta(),
        final(ch).outgoing() == old(ch).outgoing(),
        reads_only(*old(ch), *final(ch)),
        res is Ok <==> old(hv).unused().len() >= v@.len() && words_ok(old(ch).incoming(), 0, v@.len() as int),
        res matches Ok(w) ==> ({
            let inc = old(ch).incoming();
            let n = v@.len() as int;
            &&& w.key.val() == product_key(old(hv).unused(), inc, 0, n, old(hv).delta().val())
            &&& final(hv).unused() == old(hv).unused().subrange(n, old(hv).unused().len() as int)
            &&& final(ch).incoming() == inc.subrange(8 * n, inc.len() as int)
        }),
{
    let ghost u = hv.unused();
    let ghost inc = ch.incoming();
    let mut acc = hv.input_public(Fp::one());
    let rv = hv.input_public(r);
    let mut i: usize = 0;
    proof {
        assert(hv.unused() == u.subrange(0, u.len() as int));
        assert(ch.incoming() == inc.subrange(0, inc.len() as int));
        lemma_reads_only_refl(*ch);
    }
    while i < v.len()
        invariant
            i <= v@.len(),
            hv.wf(),
            ch.wf(),
            hv.delta() == old(hv).delta(),
            ch.outgoing() == old(ch).outgoing(),
            reads_only(*old(ch), *ch),
            u == old(hv).unused(),
            inc == old(ch).incoming(),
            u.len() >= i,
            inc.len() >= 8 * i,
            hv.unused() == u.subrange(i as int, u.len() as int),
            ch.incoming() == inc.subrange(8 * i, inc.len() as int),
            words_ok(inc, 0, i as int),
            acc.key.val() == product_key(u, inc, 0, i as int, hv.delta().val()),
        decreases v@.len() - i,
    {
        let d = verifier_sub(v[i], rv);
        proof {
            lemma_elem_shift(inc, i as int, 0);
        }
        let ghost c0 = *ch;
        acc = match hv.mul(ch, acc, d) {
            Ok(c) => c,
            Err(e) => {
                proof {
                    lemma_reads_only_trans(*old(ch), c0, *ch);
                    if u.len() > i && elem_ok(inc, i as int) {
                        assert(false);
                    }
                    if !(u.len() > i) {
                        assert(u.len() < v@.len());
                    }
                }
                return Err(e);
            },
        };
        proof {
            lemma_reads_only_trans(*old(ch), c0, *ch);
            assert(hv.unused() == u.subrange(i + 1, u.len() as int));
            assert(ch.incoming() == inc.subrange(8 * (i + 1), inc.len() as int));
        }
        i = i + 1;
    }
    Ok(acc)
}

/// The verifier's half of the permutation argument: accepts exactly when
/// every product commitment arrives and the prover opens the difference
/// of the two grand products as zero.
pub fn permutation_verifier(
    hv: &mut HomcomVerifier,
    ch: &mut TxChannel,
    r: Fp,
    lhs: &Vec<MacVerifier>,
    rhs: &Vec<MacVerifier>,
) -> (res: Result<(), RamError>)
    requires
        old(hv).wf(),
        old(ch).wf(),
    ensures
        final(hv).wf(),
        final(ch).wf(),
        final(hv).delta() == old(hv).delta(),
        final(ch).outgoing() == old(ch).outgoing(),
        reads_only(*old(ch), *final(ch)),
        res is Ok <==> perm_accepts(
            old(hv).unused(),
            old(ch).incoming(),
            lhs@.len() as int,
            rhs@.len() as int,
            old(hv).delta().val(),
        ),
{
    let ghost u = hv.unused();
    let ghost inc = ch.incoming();
    let ghost n = lhs@.len() as int;
    let ghost m = rhs@.len() as int;
    let pl = product_verifier(hv, ch, r, lhs)?;
    let ghost c1 = *ch;
    let ghost u1 = hv.unused();
    let ghost inc1 = ch.incoming();
    proof {
        if n > 0 {
            assert(elem_ok(inc, n - 1));
        }
        assert(inc.len() >= 8 * n);
        assert forall|j: int| 0 <= j <= m implies (elem_ok(inc1, j) <==> elem_ok(inc, n + j)) by {
            lemma_elem_shift(inc, n, j);
        }
        assert forall|j: int| 0 <= j < m && inc.len() >= 8 * (n + j) + 8 implies elem_at(inc1, j) == elem_at(inc, n + j) by {
            lemma_elem_shift(inc, n, j);
        }
        if u.len() >= n + m && words_ok(inc, 0, n + m) {
            assert(words_ok(inc1, 0, m));
        }
        if words_ok(inc1, 0, m) {
            assert forall|j: int| n <= j < n + m implies elem_ok(inc, j) by {
                lemma_elem_shift(inc, n, j - n);
                assert(elem_ok(inc1, j - n));
            }
        }
    }
    let pr = match product_verifier(hv, ch, r, rhs) {
        Ok(w) => w,
        Err(e) => {
            proof {
                lemma_reads_only_trans(*old(ch), c1, *ch);
            }
            return Err(e);
        },
    };
    let ghost c2 = *ch;
    proof {
        lemma_reads_only_trans(*old(ch), c1, *ch);
    }
    let ghost inc2 = ch.incoming();
    proof {
        if m > 0 {
            assert(elem_ok(inc1, m - 1));
            assert(elem_ok(inc, n + m - 1));
        }
        assert(inc.len() >= 8 * (n + m));
        lemma_elem_shift(inc, n + m, 0);
        assert(inc2 == inc.subrange(8 * (n + m), inc.len() as int));
        if m > 0 {
            lemma_elem_shift(inc, n, m - 1);
            assert(u1[m - 1] == u[n + m - 1]);
        }
        assert(pr.key.val() == product_key(u, inc, n, m, hv.delta().val()));
    }
    let res = hv.assert_zero(ch, verifier_sub(pl, pr));
    proof {
        lemma_reads_only_trans(*old(ch), c2, *ch);
    }
    res
}

/// The product words, followed by anything, decode word by word.
proof fn lemma_words_decode<A>(v: Seq<A>, f: spec_fn(A) -> int, r: int, u: Seq<(Fp, Fp)>, start: int, n: nat, rest: Seq<u8>, j: int)
    requires
        0 <= j < n,
    ensures
        product_words(v, f, r, u, start, n).len() == 8 * n,
        elem_ok(product_words(v, f, r, u, start, n) + rest, j),
        elem_at(product_words(v, f, r, u, start, n) + rest, j) == product_word(v, f, r, u, start, j),
    decreases n,
{
    let w = product_words(v, f, r, u, start, (n - 1) as nat);
    let e = elem_bytes(product_word(v, f, r, u, start, n - 1));
    lemma_words_len(v, f, r, u, start, (n - 1) as nat);
    lemma_cong_ops(prod_shift(v.subrange(0, n as int), f, r), u[start + n - 1].0.val());
    lemma_elem_decodes(product_word(v, f, r, u, start, n - 1), rest);
    assert(product_words(v, f, r, u, start, n) + rest == w + (e + rest));
    if j < n - 1 {
        lemma_words_decode(v, f, r, u, start, (n - 1) as nat, e + rest, j);
    } else {
        lemma_elem_shift(w + (e + rest), n - 1, 0);
        assert((w + (e + rest)).subrange(8 * (n - 1), (w + (e + rest)).len() as int) == e + rest);
    }
}

proof fn lemma_words_len<A>(v: Seq<A>, f: spec_fn(A) -> int, r: int, u: Seq<(Fp, Fp)>, start: int, n: nat)
    ensures
        product_words(v, f, r, u, start, n).len() == 8 * n,
    decreases n,
{
    if n > 0 {
        lemma_words_len(v, f, r, u, start, (n - 1) as nat);
        vstd::bytes::lemma_auto_spec_u64_to_from_le_bytes();
    }
}

/// The tag of a grand product against its key: the prover's tag is the
/// verifier's key plus the product times `delta`.
proof fn lemma_product_relation<A>(v: Seq<A>, f: spec_fn(A) -> int, r: int, up: Seq<(Fp, Fp)>, kv: Seq<Fp>, delta: Fp, start: int, n: nat, inc: Seq<u8>)
    requires
        0 <= start,
        start + n <= up.len(),
        start + n <= kv.len(),
        forall|i: int| 0 <= i < up.len() && i < kv.len() ==> (#[trigger] up[i]).1.val() == fadd(
            kv[i].val(),
            fmul(up[i].0.val(), delta.val()),
        ),
        n > 0 ==> elem_at(inc, start + n - 1) == product_word(v, f, r, up, start, n - 1),
    ensures
        product_tag(up, start, n as int) == fadd(
            product_key(kv, inc, start, n as int, delta.val()),
            fmul(prod_shift(v.subrange(0, n as int), f, r), delta.val()),
        ),
{
    let d = delta.val();
    if n == 0 {
        assert(v.subrange(0, 0).len() == 0);
        lemma_public_relation(1, d);
    } else {
        let i = start + n - 1;
        up[i].1.lemma_range();
        lemma_commit_relation(prod_shift(v.subrange(0, n as int), f, r), up[i].0.val(), up[i].1.val(), kv[i].val(), d);
    }
}

/// Completeness of the permutation argument: where the prover's pairs
/// and the verifier's keys are correlated and both grand products agree,
/// the bytes the prover sends, followed by anything, meet the verifier's
/// acceptance condition.
pub proof fn lemma_permutation_complete<A>(
    lhs: Seq<A>,
    rhs: Seq<A>,
    f: spec_fn(A) -> int,
    r: int,
    up: Seq<(Fp, Fp)>,
    kv: Seq<Fp>,
    delta: Fp,
    rest: Seq<u8>,
)
    requires
        up.len() >= lhs.len() + rhs.len(),
        kv.len() >= lhs.len() + rhs.len(),
        forall|i: int| 0 <= i < up.len() && i < kv.len() ==> (#[trigger] up[i]).1.val() == fadd(
            kv[i].val(),
            fmul(up[i].0.val(), delta.val()),
        ),
        prod_shift(lhs, f, r) == prod_shift(rhs, f, r),
    ensures
        ({
            let inc = permutation_words(lhs, rhs, f, r, up) + rest;
            let n = lhs.len() as int;
            let m = rhs.len() as int;
            &&& words_ok(inc, 0, n + m + 1)
            &&& elem_at(inc, n + m) == fsub(
                product_key(kv, inc, 0, n, delta.val()),
                product_key(kv, inc, n, m, delta.val()),
            )
        }),
{
    let d = delta.val();
    let (n, m) = (lhs.len() as int, rhs.len() as int);
    let wl = product_words(lhs, f, r, up, 0, n as nat);
    let wr = product_words(rhs, f, r, up, n, m as nat);
    let (tl, tr) = (product_tag(up, 0, n), product_tag(up, n, m));
    let z = elem_bytes(fsub(tl, tr));
    let inc = permutation_words(lhs, rhs, f, r, up) + rest;
    lemma_words_len(lhs, f, r, up, 0, n as nat);
    lemma_words_len(rhs, f, r, up, n, m as nat);
    assert(inc == wl + (wr + (z + rest)));
    assert(inc.subrange(8 * n, inc.len() as int) == wr + (z + rest));
    assert forall|j: int| 0 <= j < n implies elem_ok(inc, j) && elem_at(inc, j) == product_word(lhs, f, r, up, 0, j) by {
        lemma_words_decode(lhs, f, r, up, 0, n as nat, wr + (z + rest), j);
    }
    assert forall|j: int| n <= j < n + m implies elem_ok(inc, j) && elem_at(inc, j) == product_word(rhs, f, r, up, n, j - n) by {
        lemma_words_decode(rhs, f, r, up, n, m as nat, z + rest, j - n);
        lemma_elem_shift(inc, n, j - n);
    }
    lemma_cong_ops(tl, tr);
    lemma_elem_decodes(fsub(tl, tr), rest);
    lemma_elem_shift(inc, n + m, 0);
    assert(inc.subrange(8 * (n + m), inc.len() as int) == z + rest);
    if n > 0 {
        assert(elem_at(inc, n - 1) == product_word(lhs, f, r, up, 0, n - 1));
    }
    if m > 0 {
        assert(elem_at(inc, n + m - 1) == product_word(rhs, f, r, up, n, m - 1));
    }
    lemma_product_relation(lhs, f, r, up, kv, delta, 0, n as nat, inc);
    lemma_product_relation(rhs, f, r, up, kv, delta, n, m as nat, inc);
    assert(lhs.subrange(0, n) == lhs);
    assert(rhs.subrange(0, m) == rhs);
    let (kl, kr) = (product_key(kv, inc, 0, n, d), product_key(kv, inc, n, m, d));
    let pp = prod_shift(lhs, f, r);
    lemma_cong_ops(pp, d);
    lemma_cong_ops(kl, fmul(pp, d));
    lemma_cong_ops(kr, fmul(pp, d));
    lemma_cong_sub(tl, kl + fmul(pp, d), tr, kr + fmul(pp, d));
    lemma_cong_ops(kl, kr);
    lemma_cong_eq(fsub(tl, tr), fsub(kl, kr));
}

/// The words depend on the sequence only through the values `f` gives.
pub proof fn lemma_words_pointwise<A, B>(
    s1: Seq<A>,
    f: spec_fn(A) -> int,
    s2: Seq<B>,
    g: spec_fn(B) -> int,
    r: int,
    u: Seq<(Fp, Fp)>,
    start: int,
    n: nat,
)
    requires
        s1.len() == s2.len(),
        n <= s1.len(),
        forall|i: int| 0 <= i < s1.len() ==> f(#[trigger] s1[i]) == g(s2[i]),
    ensures
        product_words(s1, f, r, u, start, n) == product_words(s2, g, r, u, start, n),
    decreases n,
{
    if n > 0 {
        lemma_words_pointwise(s1, f, s2, g, r, u, start, (n - 1) as nat);
        let (t1, t2) = (s1.subrange(0, n as int), s2.subrange(0, n as int));
        assert forall|i: int| 0 <= i < t1.len() implies f(#[trigger] t1[i]) == g(t2[i]) by {
            assert(t1[i] == s1[i]);
            assert(t2[i] == s2[i]);
        }
        lemma_prod_pointwise(t1, f, t2, g, r);
    }
}

} // verus!
