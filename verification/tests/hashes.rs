use zeekit::cs::R1cs;
use zeekit::common::alloc_bit;
use zeekit::field::{fp_from_u64, Fp};
use zeekit::mimc::{mimc, mimc_gadget};
use zeekit::poseidon::{poseidon, poseidon4, PoseidonParams};

fn fp(x: u64) -> Fp {
    fp_from_u64(x)
}

fn mimc_constants() -> Vec<Fp> {
    (0..20u64).map(|i| fp(i * i * 7 + 3)).collect()
}

fn poseidon_params() -> PoseidonParams {
    let rounds_f = 4usize;
    let rounds_p = 3usize;
    let round_constants = (0..5 * (rounds_f + rounds_p) as u64)
        .map(|i| fp(i * 31 + 11))
        .collect();
    let primes: [u64; 25] = [
        2, 3, 5, 7, 11, 13, 17, 19, 23, 29, 31, 37, 41, 43, 47, 53, 59, 61, 67, 71, 73, 79, 83,
        89, 97,
    ];
    let mds = (0..5)
        .map(|i| (0..5).map(|j| fp(primes[i * 5 + j])).collect())
        .collect();
    PoseidonParams { rounds_f, rounds_p, round_constants, mds }
}

#[test]
fn test_mimc_gadget_matches_plain() {
    let params = mimc_constants();
    let xl = fp(111);
    let xr = fp(222);
    let expected = mimc(xl, xr, &params);

    let mut cs = R1cs::new();
    let lw = cs.allocate(xl);
    let rw = cs.allocate(xr);
    let out = mimc_gadget(&mut cs, lw, rw, &params);
    assert_eq!(cs.value_of(out.var), expected);
    assert!(cs.check());
}

#[test]
fn test_mimc_sensitivity() {
    let params = mimc_constants();
    let h1 = mimc(fp(111), fp(222), &params);
    let h2 = mimc(fp(111), fp(223), &params);
    let h3 = mimc(fp(112), fp(222), &params);
    assert_ne!(h1, h2);
    assert_ne!(h1, h3);
}

fn poseidon4_value(a: u64, b: u64, c: u64, d: u64) -> Fp {
    let params = poseidon_params();
    let mut cs = R1cs::new();
    let aw = cs.allocate(fp(a));
    let bw = cs.allocate(fp(b));
    let cw = cs.allocate(fp(c));
    let dw = cs.allocate(fp(d));
    let out = poseidon4(&mut cs, &params, aw, bw, cw, dw);
    assert!(cs.check());
    cs.value_of(out.var)
}

#[test]
fn test_poseidon4_circuit() {
    let params = poseidon_params();
    let expected = poseidon4_value(123, 234, 345, 456);

    // the circuit whose public output is pinned to the expected hash is
    // satisfied by the true preimage
    let mut cs = R1cs::new();
    let on = alloc_bit(&mut cs, true);
    let out = cs.allocate(expected);
    let aw = cs.allocate(fp(123));
    let bw = cs.allocate(fp(234));
    let cw = cs.allocate(fp(345));
    let dw = cs.allocate(fp(456));
    let res = poseidon4(&mut cs, &params, aw, bw, cw, dw);
    zeekit::common::assert_equal(&mut cs, on, out, res);
    assert!(cs.check());

    // a single differing input is rejected
    let mut cs2 = R1cs::new();
    let on2 = alloc_bit(&mut cs2, true);
    let out2 = cs2.allocate(expected);
    let aw2 = cs2.allocate(fp(123));
    let bw2 = cs2.allocate(fp(234));
    let cw2 = cs2.allocate(fp(345));
    let dw2 = cs2.allocate(fp(457));
    let res2 = poseidon4(&mut cs2, &params, aw2, bw2, cw2, dw2);
    zeekit::common::assert_equal(&mut cs2, on2, out2, res2);
    assert!(!cs2.check());
}

#[test]
fn test_poseidon4_sensitivity() {
    let base = poseidon4_value(123, 234, 345, 456);
    assert_ne!(base, poseidon4_value(123, 234, 345, 457));
    assert_ne!(base, poseidon4_value(124, 234, 345, 456));
}

#[test]
fn test_poseidon_variable_arity() {
    let params = poseidon_params();

    // a single input folds through no compression at all
    let mut cs = R1cs::new();
    let only = cs.allocate(fp(77));
    let out = poseidon(&mut cs, &params, &vec![only]);
    assert_eq!(cs.value_of(out.var), fp(77));
    assert!(cs.check());

    // five inputs fold through two compressions, matching the explicit calls
    let vals: Vec<u64> = vec![10, 20, 30, 40, 50];
    let mut cs2 = R1cs::new();
    let ws: Vec<_> = vals.iter().map(|&v| cs2.allocate(fp(v))).collect();
    let folded = poseidon(&mut cs2, &params, &ws);
    assert!(cs2.check());

    let first = poseidon4_value(10, 20, 30, 40);
    let mut cs3 = R1cs::new();
    let fw = cs3.allocate(first);
    let lw = cs3.allocate(fp(50));
    let zw = cs3.allocate(fp(0));
    let second = poseidon4(&mut cs3, &params, fw, lw, zw, zw);
    assert!(cs3.check());
    assert_eq!(cs2.value_of(folded.var), cs3.value_of(second.var));
}
