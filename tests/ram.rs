use dmc_ram::backend::{BackendRamT, RamProverBackend, RamVerifierBackend};
use dmc_ram::error::RamError;
use dmc_ram::field::Fp;
use dmc_ram::homcom::{HomcomProver, HomcomVerifier, MacProver};
use dmc_ram::ram::{correlations_needed, Bounded, MemoryProver, Prover, Verifier};

fn correlations(n: usize, seed: u64) -> (Fp, Vec<(Fp, Fp)>, Vec<Fp>) {
    let mut s = seed;
    let mut next = || {
        s = s.wrapping_mul(6364136223846793005).wrapping_add(1442695040888963407);
        Fp::from_u64(s >> 3)
    };
    let delta = next();
    let mut pv = Vec::new();
    let mut kv = Vec::new();
    for _ in 0..n {
        let u = next();
        let k = next();
        pv.push((u, k.add(u.mul(delta))));
        kv.push(k);
    }
    (delta, pv, kv)
}

fn f(x: u64) -> Fp {
    Fp::from_u64(x)
}

enum Step {
    Write(u64, u64),
    Read(u64, u64),
}

/// Runs the steps on the prover, checking each read, and returns the bytes
/// for the verifier.
fn run_prover(p: &mut RamProverBackend, steps: &[Step]) -> Vec<u8> {
    for s in steps {
        match s {
            Step::Write(a, x) => {
                let addr = p.input_public(f(*a));
                let val = p.input_private(f(*x)).unwrap();
                p.write(addr, val).unwrap();
            }
            Step::Read(a, expect) => {
                let addr = p.input_public(f(*a));
                let got = p.read(addr).unwrap();
                assert_eq!(got.value.value(), *expect);
            }
        }
    }
    p.finalize().unwrap();
    p.take_outgoing()
}

fn run_verifier(v: &mut RamVerifierBackend, steps: &[Step], bytes: &[u8]) -> Result<(), RamError> {
    v.deliver(bytes);
    for s in steps {
        match s {
            Step::Write(a, _) => {
                let addr = v.input_public(f(*a));
                let val = v.input_private()?;
                v.ram_write(&addr, &val)?;
            }
            Step::Read(a, _) => {
                let addr = v.input_public(f(*a));
                v.ram_read(&addr)?;
            }
        }
    }
    v.finalize_ram()
}

#[test]
fn scenario_bound_four() {
    let (delta, pv, kv) = correlations(500, 7);
    let steps = [
        Step::Write(0, 5),
        Step::Write(1, 7),
        Step::Read(0, 5),
        Step::Write(0, 9),
        Step::Read(0, 9),
        Step::Read(1, 7),
        Step::Read(2, 0),
    ];
    let mut p = RamProverBackend::new(pv, 4);
    let bytes = run_prover(&mut p, &steps);
    let mut v = RamVerifierBackend::new(delta, kv, 4);
    assert_eq!(run_verifier(&mut v, &steps, &bytes), Ok(()));
}

#[test]
fn random_accesses_verify_on_both_sides() {
    let (delta, pv, kv) = correlations(4000, 11);
    let bound: u64 = 16;
    let mut model = [0u64; 16];
    let mut steps = Vec::new();
    let mut s: u64 = 3;
    for i in 0..150u64 {
        s = s.wrapping_mul(2862933555777941757).wrapping_add(3037000493);
        let a = (s >> 33) % bound;
        if i % 3 == 0 {
            steps.push(Step::Read(a, model[a as usize]));
        } else {
            let x = (s >> 7) % 1000;
            model[a as usize] = x;
            steps.push(Step::Write(a, x));
        }
    }
    let mut p = RamProverBackend::new(pv, bound as usize);
    let bytes = run_prover(&mut p, &steps);
    let mut v = RamVerifierBackend::new(delta, kv, bound as usize);
    assert_eq!(run_verifier(&mut v, &steps, &bytes), Ok(()));
}

#[test]
fn corrupted_read_value_fails_verification() {
    let (delta, pv, kv) = correlations(500, 5);
    let steps = [Step::Write(0, 5), Step::Read(0, 5), Step::Write(1, 2), Step::Read(1, 2)];
    let mut p = RamProverBackend::new(pv, 2);
    let mut bytes = run_prover(&mut p, &steps);
    // bytes 0..8 commit to the value 5; bytes 8..16 commit to the zero
    // that the first access reads: claim a different value there.
    bytes[8] ^= 1;
    let mut v = RamVerifierBackend::new(delta, kv, 2);
    assert_eq!(run_verifier(&mut v, &steps, &bytes), Err(RamError::CheckFailed));
}

#[test]
fn round_trip_law() {
    let (_, pv, _) = correlations(300, 1);
    let mut hp = HomcomProver::new(pv);
    let mut m = MemoryProver::new(8);
    for a in 0..8u64 {
        let addr = MacProver { value: f(a), tag: Fp::zero() };
        let v = m.commit(&mut hp, f(100 + a)).unwrap();
        m.write(&mut hp, addr, v).unwrap();
        assert_eq!(m.read(&mut hp, addr).unwrap().value.value(), 100 + a);
    }
}

#[test]
fn default_read_law() {
    let (_, pv, _) = correlations(300, 2);
    let mut hp = HomcomProver::new(pv);
    let mut m = MemoryProver::new(8);
    let a3 = MacProver { value: f(3), tag: Fp::zero() };
    let v = m.commit(&mut hp, f(42)).unwrap();
    m.write(&mut hp, a3, v).unwrap();
    for a in [0u64, 1, 2, 4, 7] {
        let addr = MacProver { value: f(a), tag: Fp::zero() };
        assert_eq!(m.read(&mut hp, addr).unwrap().value.value(), 0);
    }
    assert_eq!(m.read(&mut hp, a3).unwrap().value.value(), 42);
}

#[test]
fn overwrite_law() {
    let (_, pv, _) = correlations(300, 3);
    let mut hp = HomcomProver::new(pv);
    let mut m = MemoryProver::new(4);
    let addr = MacProver { value: f(2), tag: Fp::zero() };
    let v1 = m.commit(&mut hp, f(11)).unwrap();
    let v2 = m.commit(&mut hp, f(22)).unwrap();
    m.write(&mut hp, addr, v1).unwrap();
    m.write(&mut hp, addr, v2).unwrap();
    assert_eq!(m.read(&mut hp, addr).unwrap().value.value(), 22);
}

#[test]
fn log_lengths_stay_equal() {
    let (_, pv, _) = correlations(300, 4);
    let mut hp = HomcomProver::new(pv.clone());
    let mut m = MemoryProver::new(4);
    assert_eq!(m.log_lengths(), (0, 0));
    let addr = MacProver { value: f(1), tag: Fp::zero() };
    let v = m.commit(&mut hp, f(9)).unwrap();
    m.write(&mut hp, addr, v).unwrap();
    m.read(&mut hp, addr).unwrap();
    assert_eq!(m.log_lengths(), (2, 2));

    let mut hp = HomcomProver::new(pv);
    let mut p = Prover::new(Bounded::new(4));
    let r = p.remove(&mut hp, addr).unwrap();
    p.insert(addr, r).unwrap();
    assert_eq!(p.log_lengths(), (1, 1));
    p.drain(&mut hp).unwrap();
    assert_eq!(p.log_lengths(), (5, 5));
}

#[test]
fn double_insert_fault() {
    let (_, pv, _) = correlations(100, 8);
    let mut hp = HomcomProver::new(pv);
    let mut p = Prover::new(Bounded::new(2));
    let a0 = MacProver { value: f(0), tag: Fp::zero() };
    let one = MacProver { value: f(1), tag: Fp::zero() };
    // write(0, 1)
    p.remove(&mut hp, a0).unwrap();
    p.insert(a0, one).unwrap();
    // remove without reinsert, then insert the same address twice
    let old = p.remove(&mut hp, a0).unwrap();
    assert_eq!(old.value.value(), 1);
    assert_eq!(p.insert(a0, one), Ok(()));
    assert_eq!(p.insert(a0, one), Err(RamError::DoubleInsert));
}

#[test]
fn insert_without_remove_is_refused_when_present() {
    let mut p = Prover::new(Bounded::new(2));
    let a1 = MacProver { value: f(1), tag: Fp::zero() };
    assert_eq!(p.insert(a1, a1), Ok(()));
    assert_eq!(p.insert(a1, a1), Err(RamError::DoubleInsert));
}

#[test]
fn exhausted_correlations() {
    let (_, pv, _) = correlations(2, 9);
    let mut hp = HomcomProver::new(pv);
    let mut m = MemoryProver::new(4);
    let addr = MacProver { value: f(0), tag: Fp::zero() };
    assert_eq!(m.read(&mut hp, addr), Err(RamError::Exhausted));
}

#[test]
fn verifier_without_bytes_reports_channel() {
    let (delta, _, kv) = correlations(10, 10);
    let mut hv = HomcomVerifier::new(delta, kv);
    let mut v = Verifier::new(Bounded::new(2));
    let addr = hv.input_public(f(0));
    assert_eq!(v.remove(&mut hv, addr).err(), Some(RamError::Channel));
}

#[test]
fn verifier_rejects_undecodable_bytes() {
    let (delta, _, kv) = correlations(10, 12);
    let mut hv = HomcomVerifier::new(delta, kv);
    let mut v = Verifier::new(Bounded::new(2));
    v.deliver(&[0xff; 24]);
    let addr = hv.input_public(f(0));
    assert_eq!(v.remove(&mut hv, addr).err(), Some(RamError::Decode));
}

#[test]
fn read_values_are_authenticated() {
    let (delta, pv, kv) = correlations(100, 13);
    let mut hp = HomcomProver::new(pv);
    let mut hv = HomcomVerifier::new(delta, kv);
    let mut p = Prover::new(Bounded::new(4));
    let mut v = Verifier::new(Bounded::new(4));
    let ap = MacProver { value: f(3), tag: Fp::zero() };
    let av = hv.input_public(f(3));
    let x = p.commit(&mut hp, f(77)).unwrap();
    p.remove(&mut hp, ap).unwrap();
    p.insert(ap, x).unwrap();
    let got = p.remove(&mut hp, ap).unwrap();
    v.deliver(&p.take_outgoing());
    let xv = v.commit(&mut hv).unwrap();
    v.remove(&mut hv, av).unwrap();
    v.insert(&hv, av, xv).unwrap();
    let gotv = v.remove(&mut hv, av).unwrap();
    assert_eq!(got.value.value(), 77);
    assert_eq!(got.tag, gotv.key.add(got.value.mul(delta)));
}

#[test]
fn transcripts_yield_the_same_challenges() {
    let (delta, pv, kv) = correlations(100, 14);
    let mut hp = HomcomProver::new(pv);
    let mut hv = HomcomVerifier::new(delta, kv);
    let mut p = Prover::new(Bounded::new(4));
    let mut v = Verifier::new(Bounded::new(4));
    assert_eq!(p.challenge(), v.challenge());
    let start = p.challenge();
    for a in 0..4u64 {
        let ap = MacProver { value: f(a), tag: Fp::zero() };
        let av = hv.input_public(f(a));
        let x = p.remove(&mut hp, ap).unwrap();
        let chal_p = p.challenge();
        p.insert(ap, x).unwrap();
        v.deliver(&p.take_outgoing());
        let y = v.remove(&mut hv, av).unwrap();
        assert_eq!(chal_p, v.challenge());
        v.insert(&hv, av, y).unwrap();
        assert_eq!(p.challenge(), v.challenge());
    }
    assert_ne!(p.challenge(), start);
}

#[test]
fn correlation_budget_is_exact() {
    assert_eq!(correlations_needed(3, 7, 4), Some(59));
    assert_eq!(correlations_needed(usize::MAX, 1, 0), None);
    let steps = [
        Step::Write(0, 5),
        Step::Write(1, 7),
        Step::Read(0, 5),
        Step::Write(0, 9),
        Step::Read(0, 9),
        Step::Read(1, 7),
        Step::Read(2, 0),
    ];
    let (delta, pv, kv) = correlations(59, 21);
    let mut p = RamProverBackend::new(pv, 4);
    let bytes = run_prover(&mut p, &steps);
    let mut v = RamVerifierBackend::new(delta, kv, 4);
    assert_eq!(run_verifier(&mut v, &steps, &bytes), Ok(()));

    let (_, pv, _) = correlations(58, 21);
    let mut p = RamProverBackend::new(pv, 4);
    for s in &steps[..2] {
        if let Step::Write(a, x) = s {
            let addr = p.input_public(f(*a));
            let val = p.input_private(f(*x)).unwrap();
            p.write(addr, val).unwrap();
        }
    }
    for s in &steps[2..] {
        match s {
            Step::Write(a, x) => {
                let addr = p.input_public(f(*a));
                let val = p.input_private(f(*x)).unwrap();
                p.write(addr, val).unwrap();
            }
            Step::Read(a, _) => {
                let addr = p.input_public(f(*a));
                p.read(addr).unwrap();
            }
        }
    }
    assert_eq!(p.finalize(), Err(RamError::Exhausted));
}

#[test]
fn interactive_challenges_from_the_verifier() {
    let (delta, pv, kv) = correlations(200, 15);
    let mut hp = HomcomProver::new(pv);
    let mut hv = HomcomVerifier::new(delta, kv);
    let mut p = Prover::new(Bounded::new(3));
    let mut v = Verifier::new(Bounded::new(3));
    let ap = MacProver { value: f(1), tag: Fp::zero() };
    let av = hv.input_public(f(1));
    let x = p.commit(&mut hp, f(8)).unwrap();
    p.remove(&mut hp, ap).unwrap();
    p.insert(ap, x).unwrap();
    p.drain(&mut hp).unwrap();
    v.deliver(&p.take_outgoing());
    let xv = v.commit(&mut hv).unwrap();
    v.remove(&mut hv, av).unwrap();
    v.insert(&hv, av, xv).unwrap();
    v.drain(&mut hv).unwrap();
    let chal = [f(987654321), f(123123123)];
    v.send_challenges(chal);
    p.deliver(&v.take_outgoing());
    let got = p.read_challenges().unwrap();
    assert_eq!(got, chal);
    let mut pch = p.finalize_with(&mut hp, got[0], got[1]).unwrap();
    assert_eq!(hp.finalize(&mut pch), Ok(()));
    v.deliver(&pch.take_outgoing());
    let mut vch = v.finalize_with(&mut hv, chal[0], chal[1]).unwrap();
    assert_eq!(hv.finalize(&mut vch), Ok(()));
}

#[test]
fn interactive_challenges_must_arrive() {
    let mut p = Prover::new(Bounded::new(3));
    assert_eq!(p.read_challenges(), Err(RamError::Channel));
}

#[test]
fn address_outside_space_fails_the_argument() {
    let (_, pv, _) = correlations(300, 16);
    let mut p = RamProverBackend::new(pv, 2);
    let addr = p.input_public(f(5));
    let val = p.input_private(f(1)).unwrap();
    p.write(addr, val).unwrap();
    assert_eq!(p.finalize(), Err(RamError::CheckFailed));
}

#[test]
fn untouched_memory_finalizes_without_work() {
    let (delta, pv, kv) = correlations(4, 17);
    let mut p = RamProverBackend::new(pv, 8);
    assert_eq!(p.finalize(), Ok(()));
    assert!(p.take_outgoing().is_empty());
    let mut v = RamVerifierBackend::new(delta, kv, 8);
    assert_eq!(v.finalize_ram(), Ok(()));
}

#[test]
fn empty_address_space() {
    let (delta, pv, kv) = correlations(20, 18);
    let mut hp = HomcomProver::new(pv);
    let mut hv = HomcomVerifier::new(delta, kv);
    let p = Prover::new(Bounded::new(0));
    let mut pch = p.finalize(&mut hp).unwrap();
    assert_eq!(hp.finalize(&mut pch), Ok(()));
    let mut v = Verifier::new(Bounded::new(0));
    v.deliver(&pch.take_outgoing());
    let mut vch = v.finalize(&mut hv).unwrap();
    assert_eq!(hv.finalize(&mut vch), Ok(()));
}

#[test]
fn verifier_rejects_a_truncated_drain() {
    let (delta, pv, kv) = correlations(200, 19);
    let mut hp = HomcomProver::new(pv);
    let mut hv = HomcomVerifier::new(delta, kv);
    let mut p = Prover::new(Bounded::new(2));
    p.drain(&mut hp).unwrap();
    let mut bytes = p.take_outgoing();
    assert_eq!(bytes.len(), 48);
    bytes.truncate(40);
    let mut v = Verifier::new(Bounded::new(2));
    v.deliver(&bytes);
    assert_eq!(v.drain(&mut hv), Err(RamError::Channel));
}

#[test]
fn untouched_memory_hands_back_a_fresh_channel() {
    let (_, pv, _) = correlations(4, 20);
    let mut hp = HomcomProver::new(pv);
    let mut m = MemoryProver::new(8);
    let mut ch = m.finalize(&mut hp).unwrap();
    assert!(ch.take_outgoing().is_empty());
    assert_eq!(hp.remaining(), 4);
    assert_eq!(m.log_lengths(), (0, 0));
}
