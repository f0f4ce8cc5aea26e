//! Account paths, the registry and the commitment to it.

use doubleentry::account::{MAX_DEPTH, MAX_SEGMENT_LEN};
use doubleentry::{
    Account, AccountError, AccountId, AccountKind, AccountPath, AccountRecord, AccountRegistry,
    Amount, Balance, BalanceLimit, Date, Direction,
};

fn day(year: i32, month: u8, day: u8) -> Date {
    Date::from_calendar_date(year, month, day).expect("a date of the calendar")
}

fn reg() -> AccountRegistry {
    AccountRegistry::new()
}

#[test]
fn parses_and_displays_a_path() {
    let p = AccountPath::parse("Assets:Bank:Main").expect("valid");
    assert_eq!(p.depth(), 3);
    assert_eq!(p.to_string(), "Assets:Bank:Main");
}

#[test]
fn rejects_malformed_paths() {
    assert_eq!(AccountPath::parse(""), Err(AccountError::Empty));
    assert!(matches!(
        AccountPath::parse("Assets::Main"),
        Err(AccountError::EmptySegment { position: 1 })
    ));
    assert!(matches!(
        AccountPath::parse("Assets:"),
        Err(AccountError::EmptySegment { position: 1 })
    ));
    assert!(matches!(
        AccountPath::parse(&"x".repeat(MAX_SEGMENT_LEN + 1)),
        Err(AccountError::SegmentTooLong { position: 0 })
    ));
    assert!(matches!(
        AccountPath::parse("Assets:Ba\nk"),
        Err(AccountError::ControlCharacter { position: 1 })
    ));
}

#[test]
fn rejects_excessive_depth() {
    let deep = (0..=MAX_DEPTH).map(|i| i.to_string()).collect::<Vec<_>>();
    assert_eq!(AccountPath::from_segments(deep), Err(AccountError::TooDeep));
}

#[test]
fn computes_ancestry() {
    let p = AccountPath::parse("A:B:C").expect("valid");
    assert_eq!(p.parent().expect("has parent").to_string(), "A:B");
    let ancestors: Vec<String> = p.ancestors().iter().map(AccountPath::to_string).collect();
    assert_eq!(ancestors, vec!["A", "A:B"]);
    assert!(AccountPath::parse("A").expect("valid").parent().is_none());
}

#[test]
fn is_under_matches_whole_segments_only() {
    let child = AccountPath::parse("Assets:Bank").expect("valid");
    let prefix = AccountPath::parse("Assets").expect("valid");
    let decoy = AccountPath::parse("Asset").expect("valid");
    assert!(child.is_under(&prefix));
    assert!(child.is_under(&child));
    assert!(!child.is_under(&decoy));
}

#[test]
fn registers_and_looks_up() {
    let mut r = reg();
    let id = r
        .register_path("Assets:Bank", day(2026, 1, 1))
        .expect("registers");
    let path = AccountPath::parse("Assets:Bank").expect("valid");
    assert_eq!(r.id_of(&path), Some(id));
    assert_eq!(r.get(id).expect("exists").path, path);
    assert_eq!(r.len(), 1);
}

#[test]
fn rejects_duplicate_registration() {
    let mut r = reg();
    r.register_path("Assets", day(2026, 1, 1))
        .expect("registers");
    assert!(matches!(
        r.register_path("Assets", day(2026, 1, 1)),
        Err(AccountError::AlreadyRegistered { .. })
    ));
}

#[test]
fn rejects_closing_before_opening() {
    let mut r = reg();
    let acct = Account::new(
        AccountPath::parse("A").expect("valid"),
        day(2026, 6, 1),
    )
    .closing_on(day(2026, 1, 1));
    assert!(matches!(
        r.register(acct),
        Err(AccountError::ClosedBeforeOpened { .. })
    ));
}

#[test]
fn a_parent_registered_first_stops_being_a_leaf() {
    let mut r = reg();
    let parent = r
        .register_path("Assets", day(2026, 1, 1))
        .expect("registers");
    assert!(r.is_leaf(parent));
    r.register_path("Assets:Bank", day(2026, 1, 1))
        .expect("registers");
    assert!(!r.is_leaf(parent));
}

#[test]
fn a_parent_registered_later_is_not_a_leaf() {
    let mut r = reg();
    let child = r
        .register_path("Assets:Bank", day(2026, 1, 1))
        .expect("registers");
    let parent = r
        .register_path("Assets", day(2026, 1, 1))
        .expect("registers");
    assert!(!r.is_leaf(parent));
    assert!(r.is_leaf(child));
}

#[test]
fn open_window_is_inclusive() {
    let a = Account::new(
        AccountPath::parse("A").expect("valid"),
        day(2026, 1, 1),
    )
    .closing_on(day(2026, 12, 31));
    assert!(!a.is_open_on(day(2025, 12, 31)));
    assert!(a.is_open_on(day(2026, 1, 1)));
    assert!(a.is_open_on(day(2026, 12, 31)));
    assert!(!a.is_open_on(day(2027, 1, 1)));
}

#[test]
fn account_without_closing_date_stays_open() {
    let a = Account::new(
        AccountPath::parse("A").expect("valid"),
        day(2026, 1, 1),
    );
    assert!(a.is_open_on(day(2999, 1, 1)));
}

#[test]
fn descendants_are_returned_in_path_order() {
    let mut r = reg();
    r.register_path("Assets:Cash", day(2026, 1, 1))
        .expect("registers");
    r.register_path("Assets:Bank", day(2026, 1, 1))
        .expect("registers");
    r.register_path("Income:Sales", day(2026, 1, 1))
        .expect("registers");
    let prefix = AccountPath::parse("Assets").expect("valid");
    let found: Vec<String> = r
        .descendants_of(&prefix)
        .into_iter()
        .filter_map(|id| r.get(id).map(|a| a.path.to_string()))
        .collect();
    assert_eq!(found, vec!["Assets:Bank", "Assets:Cash"]);
}

#[test]
fn normal_sides_follow_the_accounting_equation() {
    assert_eq!(AccountKind::Asset.normal_side(), Direction::Debit);
    assert_eq!(AccountKind::Expense.normal_side(), Direction::Debit);
    assert_eq!(AccountKind::Liability.normal_side(), Direction::Credit);
    assert_eq!(AccountKind::Equity.normal_side(), Direction::Credit);
    assert_eq!(AccountKind::Income.normal_side(), Direction::Credit);
}

#[test]
fn the_commitment_changes_when_a_handle_moves() {
    // The property the whole binding commitment exists for: two registries
    // holding the same paths, issued in different orders, are not the same
    // registry — because every posting row and every sealed balance names
    // an account by its handle.
    let build = |paths: [&str; 2]| {
        let mut r = reg();
        for p in paths {
            r.register_path(p, day(2026, 1, 1))
                .expect("registers");
        }
        r
    };
    let forward = build(["Assets:Cash", "Income:Sales"]);
    let swapped = build(["Income:Sales", "Assets:Cash"]);

    assert_ne!(forward.commitment(), swapped.commitment());
    // … and rebuilding the same order reproduces it exactly.
    assert_eq!(
        forward.commitment(),
        build(["Assets:Cash", "Income:Sales"]).commitment()
    );
}

#[test]
fn every_binding_proves_against_the_commitment() {
    let mut r = reg();
    for i in 0..17 {
        r.register_path(&format!("Assets:A{i}"), day(2026, 1, 1))
            .expect("registers");
    }
    let root = r.commitment();
    for (id, account) in r.iter() {
        let proof = r.prove_binding(id).expect("registered");
        assert!(proof.verify(&root), "binding for {id:?} must prove");
        assert_eq!(proof.account().path, account.path);
    }
    assert!(r.prove_binding(AccountId::from_index(99)).is_none());
}

#[test]
fn a_binding_proof_does_not_survive_an_edit_to_the_account() {
    let mut r = reg();
    let id = r
        .register_path("Assets:Cash", day(2026, 1, 1))
        .expect("registers");
    r.register_path("Income:Sales", day(2026, 1, 1))
        .expect("registers");
    let root = r.commitment();
    let proof = r.prove_binding(id).expect("registered");
    assert!(proof.verify(&root));

    // Claiming a different path under the same handle.
    let mut renamed = proof.clone();
    renamed.record.account.path = AccountPath::parse("Assets:Slush").expect("valid");
    assert!(!renamed.verify(&root));

    // Claiming the account was open longer than it was.
    let mut reopened = proof;
    reopened.record.account.closed_on = None;
    reopened.record.account.opened_on = day(2020, 1, 1);
    assert!(!reopened.verify(&root));
}

#[test]
fn a_limit_constrains_the_net_and_ignores_the_gross() {
    let mut heavy = Balance::<2>::zero();
    heavy
        .add(Direction::Debit, Amount::<2>::from_minor(1_000))
        .expect("ok");
    heavy
        .add(Direction::Credit, Amount::<2>::from_minor(1_000))
        .expect("ok");

    // Turnover in both directions, net zero: every limit tolerates it.
    for limit in [
        BalanceLimit::Unlimited,
        BalanceLimit::NoCreditBalance,
        BalanceLimit::NoDebitBalance,
    ] {
        assert!(limit.permits(&heavy), "{limit:?} should permit a zero net");
    }

    let mut overdrawn = Balance::<2>::zero();
    overdrawn
        .add(Direction::Credit, Amount::<2>::from_minor(1))
        .expect("ok");
    assert!(BalanceLimit::Unlimited.permits(&overdrawn));
    assert!(!BalanceLimit::NoCreditBalance.permits(&overdrawn));
    assert!(BalanceLimit::NoDebitBalance.permits(&overdrawn));
}

#[test]
fn a_limit_is_part_of_what_the_account_is() {
    // The limit is inside the binding commitment, so relaxing one after the
    // fact cannot pass unnoticed by a seal that named the account.
    let mut r = reg();
    let id = r
        .register_path("Assets:Cash", day(2026, 1, 1))
        .expect("registers");
    let before = r.commitment();
    r.set_limit(id, BalanceLimit::NoCreditBalance)
        .expect("registered");
    assert_eq!(r.limit_of(id), BalanceLimit::NoCreditBalance);
    assert_ne!(r.commitment(), before);

    assert!(matches!(
        r.set_limit(AccountId::from_index(9), BalanceLimit::Unlimited),
        Err(AccountError::UnknownAccount { .. })
    ));
    assert_eq!(
        r.limit_of(AccountId::from_index(9)),
        BalanceLimit::Unlimited
    );
}

#[test]
fn restoring_a_binding_updates_its_master_data_but_never_its_path() {
    // The write direction of a restart. A store that could only ever insert
    // could not close an account or tighten a limit — the registry's own
    // mutators would have nowhere to go the moment a ledger became durable.
    let mut r = reg();
    let id = r
        .register_path("Assets:Cash", day(2026, 1, 1))
        .expect("registers");

    let mut record = AccountRecord {
        id,
        account: Account::new(
            AccountPath::parse("Assets:Cash").expect("valid"),
            day(2026, 1, 1),
        ),
    };
    // Restoring it unchanged is a no-op, so a backend may replay its table.
    r.restore(record.clone()).expect("unchanged");
    assert_eq!(r.len(), 1);

    record.account = record
        .account
        .clone()
        .with_kind(AccountKind::Asset)
        .closing_on(day(2026, 12, 31))
        .limited_to(BalanceLimit::NoCreditBalance);
    r.restore(record.clone()).expect("master data moves");
    let stored = r.get(id).expect("registered");
    assert_eq!(stored.kind, Some(AccountKind::Asset));
    assert_eq!(stored.closed_on, Some(day(2026, 12, 31)));
    assert_eq!(stored.limit, BalanceLimit::NoCreditBalance);
    assert_eq!(r.len(), 1, "an update must not issue a second handle");

    // The path is not master data: rebinding a handle would repoint every
    // posting row and every sealed balance that names it.
    let mut rebound = record.clone();
    rebound.account.path = AccountPath::parse("Assets:Slush").expect("valid");
    assert!(matches!(
        r.restore(rebound),
        Err(AccountError::AlreadyRegistered { .. })
    ));
    assert_eq!(
        r.get(id).expect("registered").path.to_string(),
        "Assets:Cash"
    );

    // An update is still refused if it would invert the open window.
    let mut inverted = record;
    inverted.account.closed_on = Some(day(2020, 1, 1));
    assert!(matches!(
        r.restore(inverted),
        Err(AccountError::ClosedBeforeOpened { .. })
    ));
}

#[test]
fn path_hash_is_stable_and_distinguishing() {
    let a = AccountPath::parse("A:B").expect("valid");
    let b = AccountPath::parse("A:B").expect("valid");
    let c = AccountPath::parse("AB").expect("valid");
    assert_eq!(a.content_hash(), b.content_hash());
    assert_ne!(a.content_hash(), c.content_hash());
}

// ── edges ───────────────────────────────────────────────────────────────

fn path(s: &str) -> AccountPath {
    AccountPath::parse(s).expect("valid")
}

#[test]
fn segments_are_counted_in_characters() {
    assert!(AccountPath::parse(&"é".repeat(MAX_SEGMENT_LEN)).is_ok());
    let deepest = vec!["x".to_string(); MAX_DEPTH];
    assert_eq!(
        AccountPath::from_segments(deepest).expect("fits").depth(),
        MAX_DEPTH
    );
    assert_eq!(
        AccountPath::from_segments(Vec::new()),
        Err(AccountError::Empty)
    );
    assert_eq!(path("A:B").segments(), ["A", "B"]);
}

#[test]
fn rendering_a_path_undoes_parsing_it() {
    for text in ["A", "A:B", "Assets:Bank:Main account"] {
        assert_eq!(path(text).to_string(), text);
        assert!(path(text).same(&path(&path(text).to_string())));
    }
    // A segment that holds a separator renders as two.
    let odd = AccountPath::from_segments(vec!["A:B".to_string()]).expect("one segment");
    assert_eq!(odd.depth(), 1);
    assert_eq!(path(&odd.to_string()).depth(), 2);
}

#[test]
fn a_window_may_be_closed_and_reopened() {
    let mut r = reg();
    let id = r.register_path("A", day(2026, 1, 10)).expect("registers");
    assert!(matches!(
        r.close(id, day(2026, 1, 9)),
        Err(AccountError::ClosedBeforeOpened { .. })
    ));
    assert_eq!(r.get(id).expect("registered").closed_on, None);
    r.close(id, day(2026, 1, 10)).expect("on the opening day");
    assert!(r.get(id).expect("registered").is_open_on(day(2026, 1, 10)));
    assert!(!r.get(id).expect("registered").is_open_on(day(2026, 1, 11)));
    r.reopen(id).expect("registered");
    assert!(r.get(id).expect("registered").is_open_on(day(2026, 1, 11)));

    let missing = AccountId::from_index(9);
    assert_eq!(
        r.close(missing, day(2026, 2, 1)),
        Err(AccountError::UnknownAccount { id: missing })
    );
    assert_eq!(
        r.reopen(missing),
        Err(AccountError::UnknownAccount { id: missing })
    );
    assert!(r.is_leaf(missing), "nothing is registered below it");
    assert_eq!(missing.to_string(), "#9");
}

#[test]
fn records_rebuild_the_registry_whatever_order_they_come_in() {
    let mut r = reg();
    for p in ["Assets:Cash", "Assets", "Income:Sales"] {
        r.register_path(p, day(2026, 1, 1)).expect("registers");
    }
    let mut records = r.records();
    records.reverse();
    let rebuilt = AccountRegistry::from_records(records).expect("dense");
    assert_eq!(rebuilt.commitment(), r.commitment());
    assert_eq!(rebuilt.len(), 3);
    assert!(!rebuilt.is_leaf(AccountId::from_index(1)));
    assert!(rebuilt.is_leaf(AccountId::from_index(0)));
}

#[test]
fn records_with_gaps_or_repeats_are_refused() {
    let mut r = reg();
    for p in ["A", "B", "C"] {
        r.register_path(p, day(2026, 1, 1)).expect("registers");
    }
    let records = r.records();
    assert_eq!(
        AccountRegistry::from_records(vec![records[0].clone(), records[2].clone()]).err(),
        Some(AccountError::NotDense {
            expected: 1,
            found: 2
        })
    );
    assert_eq!(
        AccountRegistry::from_records(vec![records[0].clone(), records[0].clone()]).err(),
        Some(AccountError::NotDense {
            expected: 1,
            found: 0
        })
    );
    let mut twice = records[1].clone();
    twice.account.path = path("A");
    assert!(matches!(
        AccountRegistry::from_records(vec![records[0].clone(), twice]),
        Err(AccountError::AlreadyRegistered { .. })
    ));
    // Restoring past the end leaves a gap.
    let mut fresh = reg();
    assert_eq!(
        fresh.restore(records[1].clone()),
        Err(AccountError::NotDense {
            expected: 0,
            found: 1
        })
    );
    assert!(fresh.is_empty());
}

#[test]
fn names_of_limits_are_readable() {
    assert_eq!(BalanceLimit::default(), BalanceLimit::Unlimited);
    assert!(BalanceLimit::Unlimited.is_unlimited());
    assert!(!BalanceLimit::NoDebitBalance.is_unlimited());
    let names = [
        BalanceLimit::Unlimited.name(),
        BalanceLimit::NoCreditBalance.name(),
        BalanceLimit::NoDebitBalance.name(),
    ];
    assert!(names[0] != names[1] && names[1] != names[2] && names[0] != names[2]);
}

#[test]
fn a_path_reads_from_text() {
    assert_eq!("A:B".parse::<AccountPath>(), Ok(path("A:B")));
    assert_eq!("".parse::<AccountPath>(), Err(AccountError::Empty));
}

#[test]
fn a_net_that_overflows_breaches_every_limit_but_none() {
    // Totals that cannot be netted are totals no limit can vouch for.
    let debit_heavy = Balance::<2> {
        debits: Amount::max(),
        credits: Amount::from_minor(-1),
    };
    assert!(debit_heavy.signed_net().is_err());
    assert!(BalanceLimit::Unlimited.permits(&debit_heavy));
    assert!(!BalanceLimit::NoCreditBalance.permits(&debit_heavy));
    assert!(!BalanceLimit::NoDebitBalance.permits(&debit_heavy));

    let credit_heavy = Balance::<2> {
        debits: Amount::from_minor(-2),
        credits: Amount::max(),
    };
    assert!(credit_heavy.signed_net().is_err());
    assert!(!BalanceLimit::NoCreditBalance.permits(&credit_heavy));
    assert!(!BalanceLimit::NoDebitBalance.permits(&credit_heavy));

    // The widest nets that still fit are judged by their side.
    let lowest = Balance::<2> {
        debits: Amount::from_minor(-1),
        credits: Amount::max(),
    };
    assert!(!BalanceLimit::NoCreditBalance.permits(&lowest));
    assert!(BalanceLimit::NoDebitBalance.permits(&lowest));
    let highest = Balance::<2> {
        debits: Amount::max(),
        credits: Amount::zero(),
    };
    assert!(BalanceLimit::NoCreditBalance.permits(&highest));
    assert!(!BalanceLimit::NoDebitBalance.permits(&highest));
}

#[test]
fn an_earlier_registry_is_found_by_its_commitment() {
    let mut r = reg();
    let mut roots = vec![r.commitment().root];
    for i in 0..5 {
        r.register_path(&format!("Assets:A{i}"), day(2026, 1, 1))
            .expect("registers");
        roots.push(r.commitment().root);
    }
    for (n, root) in roots.iter().enumerate() {
        let earlier = r.as_of(root).expect("it stood so");
        assert_eq!(earlier.len(), n);
        assert_eq!(earlier.commitment().root, *root);
        assert_eq!(earlier.records(), r.records()[..n].to_vec());
    }

    // An account that was changed since is not the one committed to.
    r.close(AccountId::from_index(1), day(2026, 6, 30))
        .expect("registered");
    assert_eq!(r.as_of(&roots[1]).expect("untouched").len(), 1);
    assert!(r.as_of(&roots[2]).is_none());
    assert_eq!(r.as_of(&r.commitment().root).expect("now").len(), 5);
}
