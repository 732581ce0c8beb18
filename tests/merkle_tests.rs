use axiom_core::accumulator::MerkleAccumulator;
use axiom_core::ledger::{leaf_digest, log_interaction, Ledger};
use axiom_core::merkle::{build, digests_equal, prove, verify_proof, Digest};
use rs_merkle::algorithms::Sha256;
use rs_merkle::Hasher;

fn pair(a: &Digest, b: &Digest) -> Digest {
    let mut v = a.to_vec();
    v.extend_from_slice(b);
    Sha256::hash(&v)
}

fn leaves(n: usize) -> Vec<Digest> {
    (0..n).map(|i| Sha256::hash(format!("leaf {}", i).as_bytes())).collect()
}

fn hex(d: &Digest) -> String {
    d.iter().map(|b| format!("{:02x}", b)).collect()
}

#[test]
fn empty_tree_root_is_all_zero() {
    assert_eq!(build(&Vec::new()), [0u8; 32]);
}

#[test]
fn single_leaf_root_is_the_leaf() {
    let l = leaves(1);
    assert_eq!(build(&l), l[0]);
}

#[test]
fn two_leaves_root_hashes_the_pair() {
    let l = leaves(2);
    assert_eq!(build(&l), pair(&l[0], &l[1]));
}

#[test]
fn odd_last_node_is_paired_with_itself() {
    let l = leaves(3);
    let expected = pair(&pair(&l[0], &l[1]), &pair(&l[2], &l[2]));
    assert_eq!(build(&l), expected);
    let l5 = leaves(5);
    let a = pair(&l5[0], &l5[1]);
    let b = pair(&l5[2], &l5[3]);
    let c = pair(&l5[4], &l5[4]);
    let expected5 = pair(&pair(&a, &b), &pair(&c, &c));
    assert_eq!(build(&l5), expected5);
}

#[test]
fn build_is_deterministic() {
    for n in 0..9 {
        let l = leaves(n);
        assert_eq!(build(&l), build(&l.clone()));
    }
}

#[test]
fn build_depends_on_order() {
    let l = leaves(4);
    let mut r = l.clone();
    r.swap(1, 2);
    assert_ne!(build(&l), build(&r));
}

#[test]
fn every_issued_proof_verifies() {
    for n in 1..12 {
        let l = leaves(n);
        let root = build(&l);
        for i in 0..n {
            let p = prove(&l, i);
            assert!(verify_proof(&l[i], &p, &root), "n={} i={}", n, i);
        }
    }
}

#[test]
fn proof_fails_for_another_leaf_or_root() {
    let l = leaves(6);
    let root = build(&l);
    let p = prove(&l, 2);
    assert!(!verify_proof(&l[3], &p, &root));
    let other_root = build(&leaves(7));
    assert!(!verify_proof(&l[2], &p, &other_root));
}

#[test]
fn digests_equal_compares_bytes() {
    let l = leaves(2);
    assert!(digests_equal(&l[0], &l[0].clone()));
    assert!(!digests_equal(&l[0], &l[1]));
}

#[test]
fn leaf_digest_hashes_the_concatenated_texts() {
    let d = leaf_digest("ab", "c");
    assert_eq!(
        hex(&d),
        "ba7816bf8f01cfea414140de5dae2223b00361a396177a9cb410ff61f20015ad"
    );
    let e = leaf_digest("", "");
    assert_eq!(
        hex(&e),
        "e3b0c44298fc1c149afbf4c8996fb92427ae41e4649b934ca495991b7852b855"
    );
}

#[test]
fn fix_the_bug_scenario() {
    let mut ledger = Ledger::new();
    assert_eq!(ledger.current_root(), [0u8; 32]);
    let r1 = ledger.append("Fix the bug", "Bug fixed.");
    let l1 = Sha256::hash("Fix the bugBug fixed.".as_bytes());
    assert_ne!(r1, [0u8; 32]);
    assert_eq!(r1, l1);
    assert_eq!(ledger.current_root(), l1);
    let r2 = ledger.append("Thanks", "You're welcome.");
    let l2 = Sha256::hash("ThanksYou're welcome.".as_bytes());
    assert_eq!(r2, pair(&l1, &l2));
    assert_eq!(ledger.len(), 2);
}

#[test]
fn appended_root_equals_rebuilt_root() {
    let mut ledger = Ledger::new();
    for n in 0..10 {
        let r = ledger.append(&format!("question {}", n), &format!("answer {}", n));
        assert_eq!(r, build(ledger.leaf_digests()));
        assert_eq!(ledger.len(), n + 1);
    }
}

#[test]
fn ledger_proofs_verify_and_detect_altered_text() {
    let mut ledger = Ledger::new();
    for n in 0..7 {
        ledger.append(&format!("q{}", n), &format!("a{}", n));
    }
    for i in 0..7 {
        let p = ledger.prove(i).unwrap();
        assert!(ledger.verify(i, &p));
    }
    assert!(ledger.prove(7).is_none());
    let p = ledger.prove(0).unwrap();
    assert!(!ledger.verify(7, &p));

    let root = ledger.current_root();
    let proof_of_third = ledger.prove(3).unwrap();
    assert!(verify_proof(&leaf_digest("q3", "a3"), &proof_of_third, &root));
    assert!(!verify_proof(&leaf_digest("q3", "a4"), &proof_of_third, &root));
    assert!(!verify_proof(&leaf_digest("r3", "a3"), &proof_of_third, &root));

    let mut altered = Ledger::new();
    for n in 0..7 {
        let q = if n == 3 { "q3!".to_string() } else { format!("q{}", n) };
        altered.append(&q, &format!("a{}", n));
    }
    assert_ne!(altered.current_root(), root);
    assert!(!altered.verify(3, &altered.prove(2).unwrap()));
}

#[test]
fn log_interaction_returns_hex_root() {
    let mut ledger = Ledger::new();
    let h = log_interaction(&mut ledger, "ab", "c");
    assert_eq!(h, "ba7816bf8f01cfea414140de5dae2223b00361a396177a9cb410ff61f20015ad");
    let h2 = log_interaction(&mut ledger, "Fix the bug", "Bug fixed.");
    assert_eq!(h2.len(), 64);
    assert_eq!(h2, hex(&ledger.current_root()));
}

#[test]
fn accumulator_matches_rebuild_at_every_size() {
    let l = leaves(17);
    let mut acc = MerkleAccumulator::new();
    assert_eq!(acc.root(), [0u8; 32]);
    for n in 0..17 {
        acc.push(l[n]);
        let prefix = l[..n + 1].to_vec();
        assert_eq!(acc.leaves(), &prefix);
        assert_eq!(acc.root(), build(&prefix), "n={}", n + 1);
        for i in 0..n + 1 {
            let p = acc.prove(i);
            let q = prove(&prefix, i);
            assert_eq!(p.len(), q.len());
            for (a, b) in p.iter().zip(&q) {
                assert_eq!(a.sibling, b.sibling);
                assert_eq!(a.sibling_on_left, b.sibling_on_left);
            }
            assert!(verify_proof(&prefix[i], &p, &acc.root()));
        }
    }
}
