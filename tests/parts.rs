use dmc_ram::field::{Fp, MODULUS};
use dmc_ram::homcom::{prover_public, HomcomProver, HomcomVerifier, MacProver};
use dmc_ram::plugin::{PluginError, RamOperation, RamV0};
use dmc_ram::ram::perm::{permutation_prover, permutation_verifier};
use dmc_ram::ram::{collapse_vecs, combine, Bounded, MemorySpace};
use dmc_ram::tx::TxChannel;

fn f(x: u64) -> Fp {
    Fp::from_u64(x)
}

#[test]
fn field_arithmetic() {
    assert_eq!(f(MODULUS).value(), 0);
    assert_eq!(f(MODULUS - 1).mul(f(MODULUS - 1)).value(), 1);
    assert_eq!(f(5).sub(f(7)).value(), MODULUS - 2);
    assert_eq!(f(MODULUS - 1).add(f(3)).value(), 2);
    assert_eq!(f(1 << 40).mul(f(1 << 40)).value(), 1 << 19);
    assert_eq!(f(4).neg().value(), MODULUS - 4);
}

#[test]
fn uniform_bytes_reduce() {
    let mut b = [0u8; 16];
    b[0] = 1;
    assert_eq!(Fp::from_uniform_bytes(&b).value(), 1);
    assert_eq!(Fp::from_uniform_bytes(&[0xff; 16]).value(), 63);
}

#[test]
fn element_encoding() {
    let x = f(0x0102030405060708);
    assert_eq!(x.to_bytes(), vec![8, 7, 6, 5, 4, 3, 2, 1]);
    assert_eq!(Fp::from_bytes(&x.to_bytes()), Some(x));
    assert_eq!(Fp::from_bytes(&MODULUS.to_le_bytes()), None);
}

#[test]
fn combine_is_horner() {
    let w = [prover_public(f(1)), prover_public(f(2)), prover_public(f(3))];
    let c = combine(&w, f(10));
    assert_eq!(c.value.value(), 123);
    assert_eq!(c.tag.value(), 0);
    let recs = vec![[prover_public(f(4)), prover_public(f(0)), prover_public(f(0)), prover_public(f(1))]];
    assert_eq!(collapse_vecs(&recs, f(2))[0].value.value(), 33);
}

#[test]
fn bounded_space_enumerates_in_order() {
    let s = Bounded::new(5);
    assert_eq!(s.size(), 5);
    let a: Vec<u64> = s.enumerate().iter().map(|x| x.value()).collect();
    assert_eq!(a, vec![0, 1, 2, 3, 4]);
}

#[test]
fn channel_absorbs_what_it_carries() {
    let mut a = TxChannel::new();
    let mut b = TxChannel::new();
    assert_eq!(a.challenge(), b.challenge());
    a.write_bytes(&[1, 2, 3]);
    assert_ne!(a.challenge(), b.challenge());
    b.deliver(&a.take_outgoing());
    assert_eq!(b.read_bytes(3), Ok(vec![1, 2, 3]));
    assert_eq!(a.challenge(), b.challenge());
    assert!(b.read_bytes(1).is_err());
    a.write_elem(f(99));
    b.deliver(&a.take_outgoing());
    assert_eq!(b.read_elem(), Ok(f(99)));
    assert_eq!(a.challenge(), b.challenge());
}

fn correlations(n: usize) -> (Fp, Vec<(Fp, Fp)>, Vec<Fp>) {
    let delta = f(123456789);
    let mut pv = Vec::new();
    let mut kv = Vec::new();
    for i in 0..n as u64 {
        let u = f(i * 7919 + 13);
        let k = f(i * 104729 + 5);
        pv.push((u, k.add(u.mul(delta))));
        kv.push(k);
    }
    (delta, pv, kv)
}

#[test]
fn permutation_accepts_reordering() {
    let (delta, pv, kv) = correlations(64);
    let mut hp = HomcomProver::new(pv);
    let mut hv = HomcomVerifier::new(delta, kv);
    let mut cp = TxChannel::new();
    let mut cv = TxChannel::new();
    let vals = [3u64, 5, 7];
    let perm = [7u64, 3, 5];
    let mut lp = Vec::new();
    let mut rp = Vec::new();
    for x in vals {
        lp.push(hp.input_private(&mut cp, f(x)).unwrap());
    }
    for x in perm {
        rp.push(hp.input_private(&mut cp, f(x)).unwrap());
    }
    assert_eq!(permutation_prover(&mut hp, &mut cp, f(99), &lp, &rp), Ok(()));
    assert_eq!(hp.finalize(&mut cp), Ok(()));
    cv.deliver(&cp.take_outgoing());
    let mut lv = Vec::new();
    let mut rv = Vec::new();
    for _ in 0..3 {
        lv.push(hv.input_private(&mut cv).unwrap());
    }
    for _ in 0..3 {
        rv.push(hv.input_private(&mut cv).unwrap());
    }
    assert_eq!(permutation_verifier(&mut hv, &mut cv, f(99), &lv, &rv), Ok(()));
    assert_eq!(hv.finalize(&mut cv), Ok(()));
}

#[test]
fn permutation_detects_corrupted_entry() {
    let (_, pv, _) = correlations(64);
    let mut hp = HomcomProver::new(pv);
    let mut cp = TxChannel::new();
    let lp: Vec<MacProver> = [3u64, 5, 7].iter().map(|x| hp.input_private(&mut cp, f(*x)).unwrap()).collect();
    let rp: Vec<MacProver> = [7u64, 3, 6].iter().map(|x| hp.input_private(&mut cp, f(*x)).unwrap()).collect();
    assert_eq!(
        permutation_prover(&mut hp, &mut cp, f(99), &lp, &rp),
        Err(dmc_ram::error::RamError::CheckFailed)
    );
}

#[test]
fn product_check_rejects_forged_product() {
    let (delta, pv, kv) = correlations(64);
    let mut hp = HomcomProver::new(pv);
    let mut hv = HomcomVerifier::new(delta, kv);
    let mut cp = TxChannel::new();
    let mut cv = TxChannel::new();
    let a = hp.input_private(&mut cp, f(6)).unwrap();
    let b = hp.input_private(&mut cp, f(7)).unwrap();
    hp.mul(&mut cp, a, b).unwrap();
    assert_eq!(hp.finalize(&mut cp), Ok(()));
    let mut bytes = cp.take_outgoing();
    // the third element sent commits to the product: change it
    bytes[16] ^= 2;
    cv.deliver(&bytes);
    let av = hv.input_private(&mut cv).unwrap();
    let bv = hv.input_private(&mut cv).unwrap();
    hv.mul(&mut cv, av, bv).unwrap();
    assert_eq!(hv.finalize(&mut cv), Err(dmc_ram::error::RamError::CheckFailed));
}

#[test]
fn plugin_instantiation() {
    let r = RamV0::instantiate("read", &[(0, 1), (2, 1)]).unwrap();
    assert_eq!(r.operation(), RamOperation::Read);
    assert_eq!(r.field(), 2);
    let w = RamV0::instantiate("write", &[(1, 2)]).unwrap();
    assert_eq!(w.operation(), RamOperation::Write);
    assert_eq!(w.field(), 1);
    assert_eq!(RamV0::instantiate("fetch", &[(1, 2)]), Err(PluginError::UnsupportedOperation));
    assert_eq!(RamV0::instantiate("read", &[]), Err(PluginError::NoInputs));
}
