//! The Merkle log: roots, inclusion and consistency proofs, and the accumulator.

use doubleentry::hash::tagged;
use doubleentry::merkle::{mth, node_hash, split_point};
use doubleentry::{
    empty_root, leaf_hash, Digest, MalformedAccumulator, MerkleAccumulator, MerkleLog, ProofError,
};

fn payload(i: u64) -> Digest {
    tagged(b"test/leaf", &i.to_le_bytes())
}

fn log_of(n: u64) -> MerkleLog {
    let mut log = MerkleLog::new();
    for i in 0..n {
        log.append(payload(i));
    }
    log
}

#[test]
fn empty_log_has_empty_root() {
    assert_eq!(MerkleLog::new().root(), empty_root());
    assert_eq!(MerkleLog::new().head().size, 0);
}

#[test]
fn single_leaf_root_is_leaf_hash() {
    let mut log = MerkleLog::new();
    log.append(payload(0));
    assert_eq!(log.root(), leaf_hash(&payload(0)));
}

#[test]
fn append_returns_sequential_indices() {
    let mut log = MerkleLog::new();
    assert_eq!(log.append(payload(0)), 0);
    assert_eq!(log.append(payload(1)), 1);
    assert_eq!(log.len(), 2);
}

#[test]
fn root_changes_when_a_leaf_changes() {
    let a = log_of(8);
    let mut leaves = a.leaves().to_vec();
    leaves[3] = payload(999);
    let b = MerkleLog::from_leaves(leaves);
    assert_ne!(a.root(), b.root());
}

#[test]
fn inclusion_proofs_verify_for_every_leaf_and_size() {
    for n in 1..=33u64 {
        let log = log_of(n);
        let root = log.root();
        for i in 0..n {
            let proof = log.inclusion_proof(i).expect("in range");
            assert!(
                proof.verify(&payload(i), &root),
                "inclusion proof failed for leaf {i} of {n}"
            );
        }
    }
}

#[test]
fn inclusion_proof_rejects_wrong_leaf() {
    let log = log_of(8);
    let root = log.root();
    let proof = log.inclusion_proof(3).expect("in range");
    assert!(!proof.verify(&payload(4), &root));
}

#[test]
fn inclusion_proof_rejects_wrong_root() {
    let log = log_of(8);
    let proof = log.inclusion_proof(3).expect("in range");
    assert!(!proof.verify(&payload(3), &payload(0)));
}

#[test]
fn inclusion_proof_rejects_tampered_path() {
    let log = log_of(8);
    let root = log.root();
    let mut proof = log.inclusion_proof(3).expect("in range");
    proof.path[0] = payload(12345);
    assert!(!proof.verify(&payload(3), &root));
}

#[test]
fn inclusion_proof_out_of_range_is_an_error() {
    let log = log_of(4);
    assert!(matches!(
        log.inclusion_proof(4),
        Err(ProofError::IndexOutOfRange { index: 4, size: 4 })
    ));
}

#[test]
fn inclusion_path_is_logarithmic() {
    let log = log_of(1024);
    let proof = log.inclusion_proof(500).expect("in range");
    assert_eq!(proof.path.len(), 10);
}

#[test]
fn consistency_proofs_verify_for_every_prefix() {
    for n in 1..=33u64 {
        let log = log_of(n);
        let new_root = log.root();
        for m in 0..=n {
            let old_root = log.root_at(m).expect("in range");
            let proof = log.consistency_proof(m).expect("in range");
            assert!(
                proof.verify(&old_root, &new_root),
                "consistency proof failed from {m} to {n}"
            );
        }
    }
}

#[test]
fn consistency_proof_rejects_a_rewritten_prefix() {
    let log = log_of(16);
    let new_root = log.root();
    let proof = log.consistency_proof(8).expect("in range");

    // A log that diverges within the first 8 leaves must not verify.
    let mut tampered = log.leaves()[..8].to_vec();
    tampered[2] = payload(4242);
    let forged_old_root = MerkleLog::from_leaves(tampered).root();

    assert!(!proof.verify(&forged_old_root, &new_root));
}

#[test]
fn consistency_proof_rejects_growing_backwards() {
    let log = log_of(8);
    assert!(matches!(
        log.consistency_proof(9),
        Err(ProofError::SizeOutOfRange { from: 9, size: 8 })
    ));
}

#[test]
fn consistency_from_the_empty_tree_requires_the_empty_root() {
    let log = log_of(8);
    let proof = log.consistency_proof(0).expect("in range");

    // The empty tree is a prefix of everything …
    assert!(proof.verify(&empty_root(), &log.root()));
    // … but a claimed history that was never empty must not verify.
    assert!(!proof.verify(&payload(1), &log.root()));
    assert!(!proof.verify(&log.root(), &log.root()));
}

#[test]
fn incremental_root_matches_full_recomputation() {
    // The subtree stack is derived state; it must agree with the definition
    // at every size, including the ragged ones between powers of two.
    let mut log = MerkleLog::new();
    assert_eq!(log.root(), mth(&[]));
    for i in 0..129u64 {
        log.append(payload(i));
        assert_eq!(log.root(), mth(log.leaves()), "diverged at size {}", i + 1);
        assert!(log.verify_incremental_state());
    }
}

#[test]
fn subtree_count_is_the_population_count_of_the_size() {
    // One perfect subtree per set bit in the leaf count.
    for n in 1u64..64 {
        let log = log_of(n);
        assert_eq!(
            log.accumulator().subtrees().len() as u32,
            n.count_ones(),
            "size {n}"
        );
    }
}

#[test]
fn the_accumulator_matches_the_log_at_every_size() {
    // A backend persists only the accumulator, so it must agree with a full
    // log at every size — including the ragged ones between powers of two.
    let mut acc = MerkleAccumulator::new();
    let mut log = MerkleLog::new();
    for i in 0..80u64 {
        acc.push(payload(i));
        log.append(payload(i));
        assert_eq!(acc.root(), log.root(), "diverged at size {}", i + 1);
        assert_eq!(acc.size(), log.len());
    }
}

#[test]
fn an_accumulator_restores_from_persisted_parts() {
    let mut original = MerkleAccumulator::new();
    for i in 0..37u64 {
        original.push(payload(i));
    }

    // Round-trip through the representation a backend would store.
    let restored =
        MerkleAccumulator::try_from_parts(original.subtrees().to_vec(), original.size())
            .expect("well-formed");
    assert_eq!(restored.root(), original.root());

    // And it keeps accumulating correctly from there.
    let mut a = original.clone();
    let mut b = restored;
    for i in 37..50u64 {
        a.push(payload(i));
        b.push(payload(i));
    }
    assert_eq!(a.root(), b.root());
}

#[test]
fn restoring_an_accumulator_checks_its_shape() {
    let mut original = MerkleAccumulator::new();
    for i in 0..37u64 {
        original.push(payload(i));
    }
    let parts = original.subtrees().to_vec();

    // 37 = 0b100101, so the cover is heights [5, 2, 0] and nothing else.
    assert_eq!(
        parts.iter().map(|(h, _)| *h).collect::<Vec<_>>(),
        vec![5, 2, 0]
    );

    // A row lost between the database and the process.
    let mut short = parts.clone();
    short.pop();
    assert!(matches!(
        MerkleAccumulator::try_from_parts(short, 37),
        Err(MalformedAccumulator { size: 37, .. })
    ));

    // Rows returned in the wrong order — a missing ORDER BY.
    let mut shuffled = parts.clone();
    shuffled.reverse();
    assert!(MerkleAccumulator::try_from_parts(shuffled, 37).is_err());

    // The right rows against the wrong size.
    assert!(MerkleAccumulator::try_from_parts(parts, 36).is_err());

    // And the empty state is well-formed at size zero only.
    assert!(MerkleAccumulator::try_from_parts(Vec::new(), 0).is_ok());
    assert!(MerkleAccumulator::try_from_parts(Vec::new(), 1).is_err());
}

#[test]
fn a_restored_accumulator_is_checked_at_every_size() {
    let mut acc = MerkleAccumulator::new();
    for i in 0..200u64 {
        acc.push(payload(i));
        let restored = MerkleAccumulator::try_from_parts(acc.subtrees().to_vec(), acc.size())
            .expect("its own state must round-trip");
        assert_eq!(restored.root(), acc.root());
    }
}

#[test]
fn an_empty_accumulator_is_the_empty_root() {
    let acc = MerkleAccumulator::new();
    assert!(acc.is_empty());
    assert_eq!(acc.root(), empty_root());
    assert_eq!(acc.head().size, 0);
}

#[test]
fn from_leaves_and_repeated_append_agree() {
    let leaves: Vec<Digest> = (0..37).map(payload).collect();
    let built = MerkleLog::from_leaves(leaves.clone());
    let mut appended = MerkleLog::new();
    for l in leaves {
        appended.append(l);
    }
    assert_eq!(built.root(), appended.root());
    assert!(built.verify_incremental_state());
}

#[test]
fn consistency_with_equal_sizes_is_empty_and_reflexive() {
    let log = log_of(8);
    let root = log.root();
    let proof = log.consistency_proof(8).expect("in range");
    assert!(proof.path.is_empty());
    assert!(proof.verify(&root, &root));
}

#[test]
fn root_at_reconstructs_historical_roots() {
    let log = log_of(20);
    for m in 0..=20u64 {
        assert_eq!(log.root_at(m).expect("in range"), log_of(m).root());
    }
}

#[test]
fn split_point_is_largest_power_of_two_below() {
    assert_eq!(split_point(2), 1);
    assert_eq!(split_point(3), 2);
    assert_eq!(split_point(4), 2);
    assert_eq!(split_point(5), 4);
    assert_eq!(split_point(1024), 512);
    assert_eq!(split_point(1025), 1024);
}

#[test]
fn leaf_and_node_hashing_are_domain_separated() {
    // A leaf must not be confusable with an interior node of the same bytes.
    let l = payload(0);
    assert_ne!(leaf_hash(&l), node_hash(&l, &l));
    assert_ne!(leaf_hash(&l), empty_root());
}

// ── edges ───────────────────────────────────────────────────────────────

#[test]
fn nodes_hash_under_their_own_tags() {
    assert_eq!(empty_root(), tagged(b"doubleentry/merkle/empty/v1", b""));
    let l = payload(1);
    let r = payload(2);
    assert_eq!(
        leaf_hash(&l),
        tagged(b"doubleentry/merkle/leaf/v1", l.as_bytes())
    );
    let mut both = l.as_bytes().to_vec();
    both.extend_from_slice(r.as_bytes());
    assert_eq!(
        node_hash(&l, &r),
        tagged(b"doubleentry/merkle/node/v1", &both)
    );
    assert_eq!(
        log_of(3).root(),
        node_hash(
            &node_hash(&leaf_hash(&payload(0)), &leaf_hash(&payload(1))),
            &leaf_hash(&payload(2))
        )
    );
}

#[test]
fn a_head_pins_the_size_and_a_root_does_not() {
    let log = log_of(8);
    let proof = log.inclusion_proof(3).expect("in range");
    assert!(proof.verify(&payload(3), &log.head()));
    let mut elsewhere = log.head();
    elsewhere.size = 9;
    assert!(!proof.verify(&payload(3), &elsewhere));
    assert!(!proof.verify(&payload(3), &log_of(9).head()));
}

#[test]
fn historical_proofs_verify_against_historical_heads() {
    let log = log_of(20);
    for size in 1..=20u64 {
        let head = log.head_at(size).expect("in range");
        for index in 0..size {
            let proof = log.inclusion_proof_at(index, size).expect("in range");
            assert!(proof.verify(&payload(index), &head));
        }
        for old in 0..=size {
            let proof = log
                .consistency_proof_between(old, size)
                .expect("in range");
            assert_eq!(proof.is_vacuous(), old == 0);
            assert!(proof.verify(&log.head_at(old).expect("in range"), &head));
        }
    }
    assert_eq!(
        log.inclusion_proof_at(0, 21),
        Err(ProofError::SizeOutOfRange { from: 21, size: 20 })
    );
    assert_eq!(
        log.inclusion_proof_at(7, 7),
        Err(ProofError::IndexOutOfRange { index: 7, size: 7 })
    );
    assert_eq!(
        log.consistency_proof_between(5, 4),
        Err(ProofError::SizeOutOfRange { from: 5, size: 4 })
    );
    assert_eq!(
        log.root_at(21),
        Err(ProofError::SizeOutOfRange { from: 21, size: 20 })
    );
}

#[test]
fn proofs_stay_short() {
    for n in 1..=70u64 {
        let log = log_of(n);
        let levels = if n <= 1 {
            0
        } else {
            64 - (n - 1).leading_zeros() as usize
        };
        for i in 0..n {
            assert!(log.inclusion_proof(i).expect("in range").path.len() <= levels);
            assert!(log.consistency_proof(i).expect("in range").path.len() <= levels + 1);
        }
    }
}

#[test]
fn a_malformed_cover_is_described() {
    let mut acc = MerkleAccumulator::new();
    for i in 0..5 {
        acc.push(payload(i));
    }
    let err = MerkleAccumulator::try_from_parts(acc.subtrees().to_vec(), 6).unwrap_err();
    assert_eq!(err.expected, vec![2, 1]);
    assert_eq!(err.found, vec![2, 0]);
    assert_eq!(acc.head(), log_of(5).head());
    assert!(MerkleLog::default().is_empty() && MerkleAccumulator::default().is_empty());
}

#[test]
fn a_consistency_proof_does_not_carry_padding() {
    let log = log_of(13);
    let head = log.head();
    let old = log.head_at(6).expect("in range");
    let mut padded = log.consistency_proof(6).expect("in range");
    assert!(padded.verify(&old, &head));
    padded.path.push(payload(0));
    assert!(!padded.verify(&old, &head));
    let mut short = log.consistency_proof(6).expect("in range");
    short.path.pop();
    assert!(!short.verify(&old, &head));
    let mut turned = log.consistency_proof(6).expect("in range");
    turned.old_size = 14;
    assert!(!turned.verify(&old, &head));
}

#[test]
fn each_subtree_is_the_root_of_the_next_pushes() {
    let mut acc = MerkleAccumulator::new();
    for n in 1..=70u64 {
        assert_eq!(acc.push(payload(n - 1)), n - 1);
        let mut from = 0u64;
        for (height, root) in acc.subtrees() {
            let to = from + (1u64 << height);
            let run: Vec<Digest> = (from..to).map(payload).collect();
            assert_eq!(*root, MerkleLog::from_leaves(run).root(), "size {n}");
            from = to;
        }
        assert_eq!(from, n, "the subtrees take up every leaf");
        assert_eq!(acc.subtrees().len() as u32, n.count_ones());
        assert!(acc.subtrees().windows(2).all(|w| w[0].0 > w[1].0));
    }
}

#[test]
fn a_path_that_verifies_is_the_logs_own() {
    for n in 1..=12u64 {
        let log = log_of(n);
        let head = log.head();
        for i in 0..n {
            let own = log.inclusion_proof(i).expect("in range");
            for at in 0..own.path.len() {
                let mut other = own.clone();
                other.path[at] = payload(777);
                assert!(!other.verify(&payload(i), &head));
            }
            let mut longer = own.clone();
            longer.path.push(payload(777));
            assert!(!longer.verify(&payload(i), &head));
            let mut shorter = own.clone();
            if shorter.path.pop().is_some() {
                assert!(!shorter.verify(&payload(i), &head));
            }
        }
        for m in 0..=n {
            let old = log.head_at(m).expect("in range");
            let own = log.consistency_proof(m).expect("in range");
            for at in 0..own.path.len() {
                let mut other = own.clone();
                other.path[at] = payload(777);
                assert!(!other.verify(&old, &head));
            }
            let mut longer = own.clone();
            longer.path.push(payload(777));
            assert!(!longer.verify(&old, &head));
        }
    }
}
