//! Seals, the seal chain and proofs of sealed balances.

use doubleentry::seal::verify_links;
use doubleentry::{
    trial_balance_root, AccountId, AccountPath, AccountRegistry, Amount, Balance, BalanceKey,
    Currency, Date, Digest, Direction, Layer, LedgerId, PeriodCoverage, PeriodId, Seal, SealChain,
    SealChainError, SealedBalance, SealedBalanceError, SealedBalanceOutcome, TreeHead,
    TrialBalance, TrialBalanceCommitment,
};

fn day(year: i32, month: u8, day: u8) -> Date {
    Date::from_calendar_date(year, month, day).expect("a date of the calendar")
}

type Eur = Amount<2>;

fn lid() -> LedgerId {
    LedgerId::new("test-ledger").expect("valid")
}

fn pid(s: &str) -> PeriodId {
    PeriodId::new(s).expect("valid")
}

fn head(size: u64, byte: u8) -> TreeHead {
    TreeHead {
        size,
        root: Digest::from_bytes([byte; 32]),
    }
}

/// A registry commitment for the tests that do not exercise bindings.
///
/// Fixed rather than derived: these tests are about the seal preimage and
/// the chain, and the binding proofs have their own tests below.
fn accounts_root() -> Digest {
    Digest::from_bytes([0xa0; 32])
}

/// A registry with two accounts, and the commitment over it.
fn registry() -> AccountRegistry {
    let mut r = AccountRegistry::new();
    for path in ["Assets:Cash", "Income:Sales"] {
        r.register_path(path, day(2026, 1, 1))
            .expect("registers");
    }
    r
}

fn tb(entries: &[(u32, i64, i64)]) -> TrialBalance<2> {
    let mut tb = TrialBalance::<2>::new();
    for (account, debit, credit) in entries {
        let key = BalanceKey {
            account: AccountId::from_index(*account),
            currency: Currency::eur(),
            layer: Layer::Settled,
        };
        let mut balance = Balance::<2>::zero();
        balance
            .add(Direction::Debit, Eur::from_minor(*debit))
            .expect("ok");
        balance
            .add(Direction::Credit, Eur::from_minor(*credit))
            .expect("ok");
        tb.set(key, balance);
    }
    tb
}

#[test]
fn a_seal_hashes_its_own_contents() {
    let seal = Seal::build(
        lid(),
        pid("2026-03"),
        PeriodCoverage::spanning(0, 9, 10),
        head(10, 1),
        &tb(&[(0, 100, 0)]),
        accounts_root(),
        None,
    );
    assert!(seal.is_self_consistent());
    assert_eq!(seal.entry_count, 10);
}

#[test]
fn editing_any_field_invalidates_the_seal() {
    let original = Seal::build(
        lid(),
        pid("2026-03"),
        PeriodCoverage::spanning(0, 9, 10),
        head(10, 1),
        &tb(&[(0, 100, 0)]),
        accounts_root(),
        None,
    );

    let mut altered = original.clone();
    altered.last_index = Some(8);
    assert!(!altered.is_self_consistent());

    let mut retargeted = original.clone();
    retargeted.tree_head = head(11, 1);
    assert!(!retargeted.is_self_consistent());

    let mut restated = original;
    restated.trial_balance_root = Digest::from_bytes([9u8; 32]);
    assert!(!restated.is_self_consistent());
}

#[test]
fn the_trial_balance_root_reflects_the_balances() {
    let a = Seal::build(
        lid(),
        pid("p"),
        PeriodCoverage::spanning(0, 1, 0),
        head(2, 1),
        &tb(&[(0, 100, 0)]),
        accounts_root(),
        None,
    );
    let b = Seal::build(
        lid(),
        pid("p"),
        PeriodCoverage::spanning(0, 1, 0),
        head(2, 1),
        &tb(&[(0, 101, 0)]),
        accounts_root(),
        None,
    );
    assert_ne!(a.trial_balance_root, b.trial_balance_root);
}

#[test]
fn gross_totals_are_covered_not_just_the_net() {
    // Both net to zero; a root over nets alone could not tell them apart.
    let quiet = Seal::build(
        lid(),
        pid("p"),
        PeriodCoverage::empty(),
        head(0, 1),
        &tb(&[(0, 0, 0)]),
        accounts_root(),
        None,
    );
    let busy = Seal::build(
        lid(),
        pid("p"),
        PeriodCoverage::empty(),
        head(0, 1),
        &tb(&[(0, 500, 500)]),
        accounts_root(),
        None,
    );
    assert_ne!(quiet.trial_balance_root, busy.trial_balance_root);
}

#[test]
fn seals_chain_and_verify() {
    let mut chain = SealChain::new();
    let first = Seal::build(
        lid(),
        pid("2026-01"),
        PeriodCoverage::spanning(0, 4, 0),
        head(5, 1),
        &tb(&[(0, 100, 0)]),
        accounts_root(),
        None,
    );
    chain.push(first.clone()).expect("genesis");

    let second = Seal::build(
        lid(),
        pid("2026-02"),
        PeriodCoverage::spanning(5, 9, 5),
        head(10, 2),
        &tb(&[(0, 200, 0)]),
        accounts_root(),
        Some(first.seal_hash),
    );
    chain.push(second).expect("chains");

    assert_eq!(chain.len(), 2);
    assert!(chain.verify().is_ok());
    assert_eq!(
        chain.get(&pid("2026-01")).map(|s| s.period.clone()),
        Some(pid("2026-01"))
    );
}

#[test]
fn a_seal_that_does_not_reference_the_head_is_refused() {
    let mut chain = SealChain::new();
    let first = Seal::build(
        lid(),
        pid("a"),
        PeriodCoverage::spanning(0, 0, 1),
        head(1, 1),
        &tb(&[]),
        accounts_root(),
        None,
    );
    chain.push(first).expect("genesis");

    let orphan = Seal::build(
        lid(),
        pid("b"),
        PeriodCoverage::spanning(1, 1, 1),
        head(2, 2),
        &tb(&[]),
        accounts_root(),
        Some(Digest::from_bytes([7u8; 32])),
    );
    assert!(matches!(
        chain.push(orphan),
        Err(SealChainError::BrokenChain { .. })
    ));
}

#[test]
fn only_the_first_seal_may_omit_a_predecessor() {
    let mut chain = SealChain::new();
    chain
        .push(Seal::build(
            lid(),
            pid("a"),
            PeriodCoverage::empty(),
            head(1, 1),
            &tb(&[]),
            accounts_root(),
            None,
        ))
        .expect("genesis");

    let second_genesis = Seal::build(
        lid(),
        pid("b"),
        PeriodCoverage::empty(),
        head(2, 2),
        &tb(&[]),
        accounts_root(),
        None,
    );
    assert!(matches!(
        chain.push(second_genesis),
        Err(SealChainError::MisplacedGenesis { .. })
    ));
}

#[test]
fn a_first_seal_may_not_claim_a_predecessor() {
    let mut chain = SealChain::new();
    let bogus = Seal::build(
        lid(),
        pid("a"),
        PeriodCoverage::empty(),
        head(1, 1),
        &tb(&[]),
        accounts_root(),
        Some(Digest::from_bytes([3u8; 32])),
    );
    assert!(matches!(
        chain.push(bogus),
        Err(SealChainError::MisplacedGenesis { .. })
    ));
}

#[test]
fn the_tree_may_not_shrink_between_seals() {
    let mut chain = SealChain::new();
    let first = Seal::build(
        lid(),
        pid("a"),
        PeriodCoverage::spanning(0, 9, 10),
        head(10, 1),
        &tb(&[]),
        accounts_root(),
        None,
    );
    chain.push(first.clone()).expect("genesis");

    let shrunk = Seal::build(
        lid(),
        pid("b"),
        PeriodCoverage::spanning(0, 4, 0),
        head(5, 2),
        &tb(&[]),
        accounts_root(),
        Some(first.seal_hash),
    );
    assert!(matches!(
        chain.push(shrunk),
        Err(SealChainError::NonMonotonic { .. })
    ));
}

#[test]
fn tampering_with_a_sealed_period_is_detected_by_the_chain() {
    let mut chain = SealChain::new();
    let first = Seal::build(
        lid(),
        pid("a"),
        PeriodCoverage::spanning(0, 4, 0),
        head(5, 1),
        &tb(&[(0, 100, 0)]),
        accounts_root(),
        None,
    );
    chain.push(first.clone()).expect("genesis");
    chain
        .push(Seal::build(
            lid(),
            pid("b"),
            PeriodCoverage::spanning(5, 9, 5),
            head(10, 2),
            &tb(&[(0, 200, 0)]),
            accounts_root(),
            Some(first.seal_hash),
        ))
        .expect("chains");
    assert!(chain.verify().is_ok());

    // Restate the first period after the fact.
    let mut tampered = chain.seals().to_vec();
    if let Some(seal) = tampered.first_mut() {
        seal.trial_balance_root = Digest::from_bytes([0xffu8; 32]);
    }
    assert!(matches!(
        verify_links(&tampered),
        Err(SealChainError::Tampered { .. })
    ));
}

#[test]
fn a_balance_can_be_proven_against_a_seal_alone() {
    let trial = tb(&[(0, 119_000, 0), (1, 0, 119_000), (2, 500, 500)]);
    let seal = Seal::build(
        lid(),
        pid("2026-03"),
        PeriodCoverage::spanning(0, 3, 4),
        head(4, 1),
        &trial,
        accounts_root(),
        None,
    );

    let commitment = TrialBalanceCommitment::of(&trial);
    assert_eq!(commitment.root(), seal.trial_balance_root);
    assert_eq!(commitment.len(), 3);

    // Every row proves, against nothing but the seal.
    for proof in commitment.prove_all().expect("well-formed") {
        assert!(proof.verify_against(&seal), "{:?} must prove", proof.key);
    }
}

#[test]
fn a_restated_balance_does_not_prove() {
    let trial = tb(&[(0, 119_000, 0), (1, 0, 119_000)]);
    let seal = Seal::build(
        lid(),
        pid("p"),
        PeriodCoverage::empty(),
        head(2, 1),
        &trial,
        accounts_root(),
        None,
    );
    let key = BalanceKey {
        account: AccountId::from_index(0),
        currency: Currency::eur(),
        layer: Layer::Settled,
    };
    let mut proof = TrialBalanceCommitment::of(&trial)
        .prove(&key)
        .expect("row exists");
    assert!(proof.verify_against(&seal));

    // Claiming a different number under the same path.
    proof.balance.debits = Eur::from_minor(119_001);
    assert!(!proof.verify_against(&seal));

    // Claiming the same number for a different account.
    let mut retargeted = TrialBalanceCommitment::of(&trial)
        .prove(&key)
        .expect("row exists");
    retargeted.key.account = AccountId::from_index(7);
    assert!(!retargeted.verify_against(&seal));
}

#[test]
fn an_account_with_no_row_cannot_be_proven_to_be_zero() {
    // Absence is not a zero balance, and a proof of it must not be invented.
    let trial = tb(&[(0, 100, 0)]);
    let absent = BalanceKey {
        account: AccountId::from_index(9),
        currency: Currency::eur(),
        layer: Layer::Settled,
    };
    assert!(TrialBalanceCommitment::of(&trial).prove(&absent).is_none());
}

#[test]
fn a_proof_does_not_carry_across_seals() {
    let march = tb(&[(0, 100, 0), (1, 0, 100)]);
    let april = tb(&[(0, 250, 0), (1, 0, 250)]);
    let march_seal = Seal::build(
        lid(),
        pid("2026-03"),
        PeriodCoverage::empty(),
        head(2, 1),
        &march,
        accounts_root(),
        None,
    );
    let key = BalanceKey {
        account: AccountId::from_index(0),
        currency: Currency::eur(),
        layer: Layer::Settled,
    };
    let april_proof = TrialBalanceCommitment::of(&april)
        .prove(&key)
        .expect("row exists");
    assert!(!april_proof.verify_against(&march_seal));
}

#[test]
fn a_seal_binds_the_handles_its_balances_are_keyed_on() {
    // Renumbering the registry must not leave the seal verifying. The trial
    // balance root is keyed on handles, so on its own it would read the same
    // after re-registering the same paths in a different order.
    let trial = tb(&[(0, 100, 0), (1, 0, 100)]);
    let seal = Seal::build(
        lid(),
        pid("2026-03"),
        PeriodCoverage::spanning(0, 1, 2),
        head(2, 1),
        &trial,
        registry().commitment().root,
        None,
    );

    let mut renumbered = AccountRegistry::new();
    for path in ["Income:Sales", "Assets:Cash"] {
        renumbered
            .register_path(path, day(2026, 1, 1))
            .expect("registers");
    }

    // Same paths, same balances …
    assert_eq!(trial_balance_root(&trial), seal.trial_balance_root);
    // … but the handles they hang off are different, and the seal says so.
    assert_ne!(renumbered.commitment().root, seal.accounts_root);
}

#[test]
fn a_balance_proof_can_name_the_account_it_is_about() {
    let accounts = registry();
    let cash = accounts
        .id_of(&AccountPath::parse("Assets:Cash").expect("valid"))
        .expect("registered");

    let trial = tb(&[(cash.index(), 119_000, 0), (1, 0, 119_000)]);
    let seal = Seal::build(
        lid(),
        pid("2026-03"),
        PeriodCoverage::spanning(0, 1, 2),
        head(2, 1),
        &trial,
        accounts.commitment().root,
        None,
    );

    let key = BalanceKey {
        account: cash,
        currency: Currency::eur(),
        layer: Layer::Settled,
    };
    let balance = TrialBalanceCommitment::of(&trial)
        .prove(&key)
        .expect("row exists");
    let binding = accounts.prove_binding(cash).expect("registered");

    // The complete claim: this account, this balance, this seal.
    assert!(balance.verify_naming(&binding, &seal));
    assert_eq!(binding.account().path.to_string(), "Assets:Cash");

    // A binding for a *different* handle must not launder a real balance
    // under the wrong account's name.
    let other = accounts
        .prove_binding(AccountId::from_index(1))
        .expect("registered");
    assert!(!balance.verify_naming(&other, &seal));

    // And a genuine binding proves nothing against a seal from a registry
    // that never contained it.
    let foreign = Seal::build(
        lid(),
        pid("2026-04"),
        PeriodCoverage::empty(),
        head(2, 1),
        &trial,
        accounts_root(),
        None,
    );
    assert!(!balance.verify_naming(&binding, &foreign));
}

#[test]
fn a_binding_proof_cannot_be_replayed_at_another_handle() {
    let accounts = registry();
    let root = accounts.commitment();
    let mut proof = accounts
        .prove_binding(AccountId::from_index(0))
        .expect("registered");
    assert!(proof.verify(&root));

    // Claiming the same account sits at a different position.
    proof.record.id = AccountId::from_index(1);
    assert!(!proof.verify(&root));
}

#[test]
fn an_empty_period_seals_with_no_entries() {
    let seal = Seal::build(
        lid(),
        pid("quiet"),
        PeriodCoverage::empty(),
        head(0, 1),
        &tb(&[]),
        accounts_root(),
        None,
    );
    assert_eq!(seal.entry_count, 0);
    assert!(seal.is_self_consistent());
}

// ── edges ───────────────────────────────────────────────────────────────

fn plain_seal(ledger: &str, period: &str, size: u64, prev: Option<Digest>) -> Seal {
    Seal::build(
        LedgerId::new(ledger).expect("valid"),
        pid(period),
        PeriodCoverage::empty(),
        head(size, size as u8),
        &tb(&[]),
        accounts_root(),
        prev,
    )
}

#[test]
fn a_seal_of_another_ledger_does_not_chain() {
    let mut chain = SealChain::default();
    let first = plain_seal("ours", "a", 1, None);
    chain.push(first.clone()).expect("genesis");
    let foreign = plain_seal("theirs", "b", 2, Some(first.seal_hash));
    assert!(matches!(
        chain.push(foreign),
        Err(SealChainError::ForeignLedger { ref expected, ref found, .. })
            if expected.as_str() == "ours" && found.as_str() == "theirs"
    ));
    assert_eq!(chain.len(), 1);
    assert_eq!(chain.head(), Some(first.seal_hash));
    assert_eq!(chain.last(), Some(&first));
}

#[test]
fn the_ledger_is_part_of_what_a_seal_hashes() {
    let ours = plain_seal("ours", "a", 1, None);
    let theirs = plain_seal("theirs", "a", 1, None);
    assert_ne!(ours.seal_hash, theirs.seal_hash);
    assert_eq!(ours.compute_hash(), ours.seal_hash);
}

#[test]
fn removing_or_reordering_a_seal_breaks_the_chain() {
    let a = plain_seal("ours", "a", 1, None);
    let b = plain_seal("ours", "b", 2, Some(a.seal_hash));
    let c = plain_seal("ours", "c", 3, Some(b.seal_hash));
    assert!(verify_links(&[a.clone(), b.clone(), c.clone()]).is_ok());
    assert!(matches!(
        verify_links(&[a.clone(), c.clone()]),
        Err(SealChainError::BrokenChain { .. })
    ));
    assert!(verify_links(&[b.clone(), a.clone()]).is_err());
    assert!(verify_links(&[]).is_ok());
}

#[test]
fn coverage_names_a_span_only_where_there_is_one() {
    let covered = Seal::build(
        lid(),
        pid("p"),
        PeriodCoverage::spanning(3, 8, 2),
        head(9, 1),
        &tb(&[]),
        accounts_root(),
        None,
    );
    assert_eq!(covered.index_span(), Some((3, 8)));
    assert_eq!(plain_seal("ours", "p", 1, None).index_span(), None);
    assert_eq!(PeriodCoverage::default(), PeriodCoverage::empty());
}

#[test]
fn the_order_balances_were_set_in_leaves_no_trace() {
    let forward = tb(&[(0, 1, 0), (1, 0, 1)]);
    let backward = tb(&[(1, 0, 1), (0, 1, 0)]);
    assert_eq!(trial_balance_root(&forward), trial_balance_root(&backward));
    assert_ne!(
        trial_balance_root(&forward),
        trial_balance_root(&tb(&[(0, 1, 0)]))
    );
    assert!(TrialBalanceCommitment::of(&tb(&[])).is_empty());
}

#[test]
fn an_assembled_balance_checks_out_or_says_why_not() {
    let accounts = registry();
    let closing = tb(&[(0, 500, 0)]);
    let seal = Seal::build(
        lid(),
        pid("p"),
        PeriodCoverage::empty(),
        head(1, 1),
        &closing,
        accounts.commitment().root,
        None,
    );
    let key = BalanceKey {
        account: AccountId::from_index(0),
        currency: Currency::eur(),
        layer: Layer::Settled,
    };
    let proven = SealedBalance::assemble(seal.clone(), &closing, &accounts, key)
        .expect("the books reproduce the seal")
        .into_proven()
        .expect("a row");
    assert!(proven.verify());
    assert_eq!(proven.path().to_string(), "Assets:Cash");

    let mut forged = SealedBalance {
        seal: proven.seal.clone(),
        balance: proven.balance.clone(),
        account: proven.account.clone(),
    };
    forged.seal.entry_count += 1;
    assert!(!forged.verify(), "a tampered seal proves nothing");

    // The books moved underneath the seal.
    assert!(matches!(
        SealedBalance::assemble(seal.clone(), &tb(&[(0, 501, 0)]), &accounts, key),
        Err(SealedBalanceError::Restated { .. })
    ));
    let unregistered = BalanceKey {
        account: AccountId::from_index(5),
        ..key
    };
    let outcome = SealedBalance::assemble(seal.clone(), &closing, &accounts, unregistered)
        .expect("nothing is wrong with the books");
    assert_eq!(outcome, SealedBalanceOutcome::NotYetRegistered);
    assert!(outcome.is_absent());
    let idle = BalanceKey {
        account: AccountId::from_index(1),
        ..key
    };
    assert_eq!(
        SealedBalance::assemble(seal, &closing, &accounts, idle).expect("no error"),
        SealedBalanceOutcome::NoRow
    );
}
