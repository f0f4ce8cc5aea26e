//! Period seals.
//!
//! Sealing a period commits to three things at once: **which entries** the log
//! held when it closed, **what they add up to**, and **which accounts those
//! totals are for**. All three are Merkle roots, so a third party holding
//! nothing but a seal can later be shown a fact about the period without being
//! given its contents:
//!
//! - Against [`Seal::tree_head`], an [`InclusionProof`] that a specific entry
//!   was in the log the seal closed over.
//! - Against [`Seal::trial_balance_root`], a [`BalanceProof`] that a specific
//!   account held a specific balance in the closing trial balance.
//! - Against [`Seal::accounts_root`], an [`AccountBindingProof`] that a specific
//!   handle is a specific account.
//!
//! # What "belongs to the period" means
//!
//! The tree head is the whole log at the moment of sealing, not the period's
//! entries alone: entries are appended in recording order, not booking-date
//! order, so a period's entries need not be contiguous. The closing balances are
//! the stronger statement, and they are exact: they fold every entry booked on
//! or before the period's last day and nothing else.
//!
//! Seals chain: each carries the hash of its predecessor, so the newest seal
//! determines every one before it.

use crate::account::{self, AccountBindingProof, AccountPath, AccountRegistry};
use crate::balance::{self, Balance, BalanceKey, TrialBalance};
use crate::canonical::{self, Canonical, CanonicalWriter};
use crate::dimensions;
use crate::hash::{self, tagged, Digest};
use crate::merkle::{self, InclusionProof, MerkleLog, ProofError, TreeHead};
use crate::ordered::{self, Key};
use crate::period::{LedgerId, PeriodId};
use crate::posting;
use crate::tag;
use vstd::prelude::*;
use vstd::string::*;
use vstd::utf8::*;

verus! {

// ── seals ───────────────────────────────────────────────────────────────────

/// What a period turned out to contain.
#[derive(Debug, Clone, Copy, PartialEq, Eq, Structural)]
pub struct PeriodCoverage {
    /// Log index of the first entry the period covers, if it covers any.
    ///
    /// Entries are appended in recording order, not booking-date order, so a
    /// period's entries need not be contiguous. This is the smallest index
    /// belonging to the period, not a claim that everything above it does.
    pub first_index: Option<u64>,
    /// Log index of the last entry the period covers, if it covers any.
    pub last_index: Option<u64>,
    /// How many entries the period actually contains.
    ///
    /// Carried rather than derived from the index span, which may enclose
    /// entries belonging to other periods.
    pub entry_count: u64,
}

/// A period that covers nothing.
pub open spec fn no_coverage() -> PeriodCoverage {
    PeriodCoverage { first_index: None, last_index: None, entry_count: 0 }
}

impl Default for PeriodCoverage {
    fn default() -> (c: Self)
        ensures
            c == no_coverage(),
    {
        PeriodCoverage::empty()
    }
}

impl PeriodCoverage {
    /// A period that covers nothing.
    #[must_use]
    pub fn empty() -> (c: Self)
        ensures
            c == no_coverage(),
    {
        PeriodCoverage { first_index: None, last_index: None, entry_count: 0 }
    }

    /// Coverage of a contiguous run of entries.
    #[must_use]
    pub fn spanning(first: u64, last: u64, entry_count: u64) -> (c: Self)
        ensures
            c == (PeriodCoverage { first_index: Some(first), last_index: Some(last), entry_count }),
    {
        PeriodCoverage { first_index: Some(first), last_index: Some(last), entry_count }
    }
}

/// What a seal holds.
pub ghost struct SealFacts {
    pub ledger: Seq<char>,
    pub period: Seq<char>,
    pub first_index: Option<u64>,
    pub last_index: Option<u64>,
    pub entry_count: u64,
    pub tree_head: TreeHead,
    pub trial_balance_root: Digest,
    pub accounts_root: Digest,
    pub prev_seal: Option<Digest>,
    pub seal_hash: Digest,
}

/// A commitment to the closing state of one accounting period.
#[derive(Debug, PartialEq, Eq)]
pub struct Seal {
    /// The ledger whose books this seal covers.
    ///
    /// Named inside the hash, not alongside it. Two ledgers can hold
    /// structurally identical entries; with the ledger in the preimage a seal is
    /// evidence about one entity or it does not verify at all.
    pub ledger: LedgerId,
    /// The period being sealed.
    pub period: PeriodId,
    /// Log index of the first entry the period covers, if it covers any.
    pub first_index: Option<u64>,
    /// Log index of the last entry the period covers, if it covers any.
    pub last_index: Option<u64>,
    /// How many entries the period actually contains.
    pub entry_count: u64,
    /// The journal's tree head at the moment of sealing.
    pub tree_head: TreeHead,
    /// Merkle root over the period's closing trial balance.
    ///
    /// The rows it commits to are keyed on account *handles*, so it is only
    /// meaningful together with [`Seal::accounts_root`], which says what those
    /// handles were.
    pub trial_balance_root: Digest,
    /// Merkle root over the handle-to-account bindings in force at sealing.
    ///
    /// Without it the handles would float: renumbering the registry after the
    /// fact would leave every seal and every balance proof verifying exactly as
    /// before, while every balance in them silently referred to a different
    /// account.
    pub accounts_root: Digest,
    /// Hash of the preceding seal, or `None` for the first.
    pub prev_seal: Option<Digest>,
    /// Hash over every other field.
    pub seal_hash: Digest,
}

impl View for Seal {
    type V = SealFacts;

    open spec fn view(&self) -> SealFacts {
        SealFacts {
            ledger: self.ledger@,
            period: self.period@,
            first_index: self.first_index,
            last_index: self.last_index,
            entry_count: self.entry_count,
            tree_head: self.tree_head,
            trial_balance_root: self.trial_balance_root,
            accounts_root: self.accounts_root,
            prev_seal: self.prev_seal,
            seal_hash: self.seal_hash,
        }
    }
}

impl Clone for Seal {
    fn clone(&self) -> (copy: Self)
        ensures
            copy@ == self@,
    {
        Seal {
            ledger: self.ledger.clone(),
            period: self.period.clone(),
            first_index: self.first_index,
            last_index: self.last_index,
            entry_count: self.entry_count,
            tree_head: self.tree_head,
            trial_balance_root: self.trial_balance_root,
            accounts_root: self.accounts_root,
            prev_seal: self.prev_seal,
            seal_hash: self.seal_hash,
        }
    }
}

/// True of what a seal can hold: its identifiers are valid labels.
pub open spec fn valid_seal(s: SealFacts) -> bool {
    dimensions::label_error(s.ledger) is None && dimensions::label_error(s.period) is None
}

/// An optional log index, encoded.
pub open spec fn index_bytes(index: Option<u64>) -> Seq<u8> {
    canonical::option_bytes(
        match index {
            None => None,
            Some(v) => Some(canonical::le_bytes(v as nat, 8)),
        },
    )
}

/// An optional digest, encoded.
pub open spec fn digest_bytes(digest: Option<Digest>) -> Seq<u8> {
    canonical::option_bytes(
        match digest {
            None => None,
            Some(d) => Some(d@),
        },
    )
}

/// The part of a seal's encoding that names the period and its extent.
pub open spec fn extent_bytes(s: SealFacts) -> Seq<u8> {
    canonical::text_bytes(s.ledger) + canonical::text_bytes(s.period) + index_bytes(s.first_index)
        + index_bytes(s.last_index)
}

/// The part of a seal's encoding that names the log.
pub open spec fn log_bytes(s: SealFacts) -> Seq<u8> {
    canonical::le_bytes(s.entry_count as nat, 8) + canonical::le_bytes(s.tree_head.size as nat, 8)
        + s.tree_head.root@
}

/// The part of a seal's encoding that names the balances, the accounts and the
/// preceding seal.
pub open spec fn roots_bytes(s: SealFacts) -> Seq<u8> {
    s.trial_balance_root@ + s.accounts_root@ + digest_bytes(s.prev_seal)
}

/// The canonical encoding of a seal: every field except its own hash.
pub open spec fn seal_encoding(s: SealFacts) -> Seq<u8> {
    extent_bytes(s) + log_bytes(s) + roots_bytes(s)
}

/// The bytes hashed for a seal.
pub open spec fn seal_input(s: SealFacts) -> Seq<u8> {
    hash::tagged_preimage(encode_utf8(tag::SEAL_V1@), seal_encoding(s))
}

/// The hash of a seal's contents.
pub open spec fn seal_digest(s: SealFacts) -> Digest {
    hash::tagged_hash(encode_utf8(tag::SEAL_V1@), seal_encoding(s))
}

/// True when a seal's hash is that of its contents.
pub open spec fn self_consistent(s: SealFacts) -> bool {
    s.seal_hash == seal_digest(s)
}

/// True when two seals agree in everything but their hash.
pub open spec fn same_claims(a: SealFacts, b: SealFacts) -> bool {
    b == (SealFacts { seal_hash: b.seal_hash, ..a })
}

/// The seal of a period: its contents, and their hash.
pub open spec fn sealed<const P: u8>(
    ledger: Seq<char>,
    period: Seq<char>,
    coverage: PeriodCoverage,
    tree_head: TreeHead,
    balances: Map<BalanceKey, Balance<P>>,
    accounts_root: Digest,
    prev_seal: Option<Digest>,
) -> SealFacts {
    // The hash is no part of what is hashed, so any value holds its place.
    let contents = SealFacts {
        ledger,
        period,
        first_index: coverage.first_index,
        last_index: coverage.last_index,
        entry_count: coverage.entry_count,
        tree_head,
        trial_balance_root: balances_root(balances),
        accounts_root,
        prev_seal,
        seal_hash: accounts_root,
    };
    SealFacts { seal_hash: seal_digest(contents), ..contents }
}

impl Seal {
    /// Builds a seal, computing every root and the chaining hash.
    ///
    /// `accounts_root` is the root of an [`AccountRegistry::commitment`] taken
    /// at the same moment as the trial balance. It has to be the registry the
    /// balances were computed against, or the seal commits to handles it does
    /// not explain.
    #[must_use]
    pub fn build<const P: u8>(
        ledger: LedgerId,
        period: PeriodId,
        coverage: PeriodCoverage,
        tree_head: TreeHead,
        trial_balance: &TrialBalance<P>,
        accounts_root: Digest,
        prev_seal: Option<Digest>,
    ) -> (seal: Self)
        ensures
            seal@ == sealed(
                ledger@,
                period@,
                coverage,
                tree_head,
                trial_balance@,
                accounts_root,
                prev_seal,
            ),
            self_consistent(seal@),
    {
        let root = trial_balance_root(trial_balance);
        let mut seal = Seal {
            ledger,
            period,
            first_index: coverage.first_index,
            last_index: coverage.last_index,
            entry_count: coverage.entry_count,
            tree_head,
            trial_balance_root: root,
            accounts_root,
            prev_seal,
            seal_hash: Digest::from_bytes([0u8; 32]),
        };
        seal.seal_hash = seal.compute_hash();
        seal
    }

    /// Recomputes the hash over every field except `seal_hash` itself.
    #[must_use]
    pub fn compute_hash(&self) -> (h: Digest)
        ensures
            h == seal_digest(self@),
    {
        let bytes = self.to_canonical_bytes();
        tagged(tag::SEAL_V1.as_bytes(), bytes.as_slice())
    }

    /// True when `seal_hash` matches the seal's own contents.
    #[must_use]
    pub fn is_self_consistent(&self) -> (r: bool)
        ensures
            r == self_consistent(self@),
    {
        self.compute_hash() == self.seal_hash
    }

    /// The span of log indices the period's entries fall within.
    #[must_use]
    pub fn index_span(&self) -> (r: Option<(u64, u64)>)
        ensures
            r == (match (self.first_index, self.last_index) {
                (Some(first), Some(last)) => if first <= last {
                    Some((first, last))
                } else {
                    None
                },
                _ => None,
            }),
    {
        match (self.first_index, self.last_index) {
            (Some(first), Some(last)) => if last >= first {
                Some((first, last))
            } else {
                None
            },
            _ => None,
        }
    }
}

proof fn lemma_regroup_four(o: Seq<u8>, a: Seq<u8>, b: Seq<u8>, c: Seq<u8>, d: Seq<u8>)
    ensures
        o + a + b + c + d == o + (a + b + c + d),
{
    assert(o + a + b + c + d =~= o + (a + b + c + d));
}

proof fn lemma_regroup_three(o: Seq<u8>, a: Seq<u8>, b: Seq<u8>, c: Seq<u8>)
    ensures
        o + a + b + c == o + (a + b + c),
{
    assert(o + a + b + c =~= o + (a + b + c));
}

impl Canonical for Seal {
    /// Encodes every field except `seal_hash`, which is derived from this.
    open spec fn encoding(&self) -> Seq<u8> {
        seal_encoding(self@)
    }

    fn encode(&self, w: &mut CanonicalWriter) {
        let ghost before = w@;
        self.ledger.encode(w);
        self.period.encode(w);
        w.option(self.first_index.as_ref());
        w.option(self.last_index.as_ref());
        proof {
            lemma_regroup_four(
                before,
                canonical::text_bytes(self@.ledger),
                canonical::text_bytes(self@.period),
                index_bytes(self@.first_index),
                index_bytes(self@.last_index),
            );
        }
        let ghost extent = w@;
        assert(extent == before + extent_bytes(self@));
        w.u64(self.entry_count);
        w.u64(self.tree_head.size);
        self.tree_head.root.encode(w);
        proof {
            lemma_regroup_three(
                extent,
                canonical::le_bytes(self@.entry_count as nat, 8),
                canonical::le_bytes(self@.tree_head.size as nat, 8),
                self@.tree_head.root@,
            );
        }
        let ghost logged = w@;
        assert(logged == extent + log_bytes(self@));
        self.trial_balance_root.encode(w);
        self.accounts_root.encode(w);
        w.option(self.prev_seal.as_ref());
        proof {
            lemma_regroup_three(
                logged,
                self@.trial_balance_root@,
                self@.accounts_root@,
                digest_bytes(self@.prev_seal),
            );
            lemma_regroup_three(
                before,
                extent_bytes(self@),
                log_bytes(self@),
                roots_bytes(self@),
            );
        }
    }
}

// ── the committed trial balance ─────────────────────────────────────────────

/// The encoding of one row of a trial balance.
pub open spec fn row_encoding<const P: u8>(key: BalanceKey, balance: Balance<P>) -> Seq<u8> {
    canonical::le_bytes(key.account.position as nat, 4) + key.currency@ + seq![
        posting::layer_byte(key.layer),
        P,
    ] + canonical::le_bytes(canonical::twos64(balance.debits.minor as int), 8)
        + canonical::le_bytes(canonical::twos64(balance.credits.minor as int), 8)
}

/// The bytes hashed for one row of a trial balance.
pub open spec fn row_input<const P: u8>(key: BalanceKey, balance: Balance<P>) -> Seq<u8> {
    hash::tagged_preimage(encode_utf8(tag::TRIAL_BALANCE_V1@), row_encoding(key, balance))
}

/// The leaf one row of a trial balance hashes to.
pub open spec fn row_leaf<const P: u8>(key: BalanceKey, balance: Balance<P>) -> Digest {
    hash::tagged_hash(encode_utf8(tag::TRIAL_BALANCE_V1@), row_encoding(key, balance))
}

/// The leaves of some rows, in order.
pub open spec fn row_leaves<const P: u8>(rows: Seq<(BalanceKey, Balance<P>)>) -> Seq<Digest> {
    rows.map_values(|row: (BalanceKey, Balance<P>)| row_leaf(row.0, row.1))
}

/// The leaves of a trial balance, in key order.
pub open spec fn balance_leaves<const P: u8>(balances: Map<BalanceKey, Balance<P>>) -> Seq<
    Digest,
> {
    row_leaves(balance::rows_of(balances))
}

/// The Merkle root over a trial balance.
pub open spec fn balances_root<const P: u8>(balances: Map<BalanceKey, Balance<P>>) -> Digest {
    merkle::root_of(balance_leaves(balances))
}

/// The bytes hashed for the root over a trial balance.
pub open spec fn balances_inputs<const P: u8>(balances: Map<BalanceKey, Balance<P>>) -> Set<
    Seq<u8>,
> {
    balance::rows_of(balances).map_values(
        |row: (BalanceKey, Balance<P>)| row_input(row.0, row.1),
    ).to_set().union(merkle::log_inputs(balance_leaves(balances)))
}

/// Merkle root over a trial balance.
///
/// Build a [`TrialBalanceCommitment`] instead when you also want to prove
/// individual rows.
#[must_use]
pub fn trial_balance_root<const P: u8>(tb: &TrialBalance<P>) -> (root: Digest)
    ensures
        root == balances_root(tb@),
{
    TrialBalanceCommitment::of(tb).root()
}

/// The leaf a single trial-balance row hashes to.
///
/// One leaf per `(account, currency, layer) → (debits, credits)` row. Both gross
/// totals are covered, not the net: two accounts that net to zero — one quiet,
/// one with heavy offsetting turnover — must not produce the same commitment.
/// The scale is covered too, so the same minor units at a different precision
/// are a different balance rather than a coincidence.
#[must_use]
pub fn balance_leaf<const P: u8>(key: &BalanceKey, balance: &Balance<P>) -> (leaf: Digest)
    ensures
        leaf == row_leaf(*key, *balance),
{
    let mut w = CanonicalWriter::new();
    w.u32(key.account.position);
    w.fixed(key.currency.as_bytes().as_slice());
    w.u8(key.layer.discriminant());
    w.u8(P);
    w.i64(balance.debits.minor);
    w.i64(balance.credits.minor);
    assert(w@ =~= row_encoding(*key, *balance));
    tagged(tag::TRIAL_BALANCE_V1.as_bytes(), w.as_slice())
}

/// A Merkle commitment to a trial balance, able to prove individual rows.
///
/// A seal stores only [`Self::root`]. Rebuild the commitment from the same trial
/// balance to answer a proof request; it is a pure function of the balances, so
/// the rebuild is exact or the root does not match and nothing can be proven.
#[derive(Debug)]
pub struct TrialBalanceCommitment<const P: u8> {
    rows: Vec<(BalanceKey, Balance<P>)>,
    log: MerkleLog,
}

impl<const P: u8> View for TrialBalanceCommitment<P> {
    type V = Seq<(BalanceKey, Balance<P>)>;

    /// The rows committed to, in order.
    closed spec fn view(&self) -> Seq<(BalanceKey, Balance<P>)> {
        self.rows@
    }
}

impl<const P: u8> Clone for TrialBalanceCommitment<P> {
    fn clone(&self) -> (copy: Self)
        ensures
            copy@ == self@,
            self.wf() ==> copy.wf(),
    {
        let n: usize = self.rows.len();
        let mut rows: Vec<(BalanceKey, Balance<P>)> = Vec::with_capacity(n);
        let mut i: usize = 0;
        while i < n
            invariant
                i <= n,
                n == self.rows.len(),
                rows@ == self.rows@.take(i as int),
            decreases n - i,
        {
            rows.push(self.rows[i]);
            assert(rows@ =~= self.rows@.take(i + 1));
            i += 1;
        }
        assert(self.rows@.take(n as int) =~= self.rows@);
        TrialBalanceCommitment { rows, log: self.log.clone() }
    }
}

impl<const P: u8> TrialBalanceCommitment<P> {
    /// The log holds one leaf per row, and no key has two rows.
    pub closed spec fn wf(&self) -> bool {
        &&& self.log.wf()
        &&& self.log@ == row_leaves(self@)
        &&& forall|i: int, j: int|
            0 <= i < j < self@.len() ==> (#[trigger] self@[i]).0 != (#[trigger] self@[j]).0
    }

    /// Commits to a trial balance.
    ///
    /// Leaves follow the trial balance's own deterministic order, so the root is
    /// a pure function of the balances and not of how they were accumulated.
    #[must_use]
    pub fn of(tb: &TrialBalance<P>) -> (commitment: Self)
        ensures
            commitment.wf(),
            commitment@ == balance::rows_of(tb@),
            balance::listable(tb@),
    {
        let rows = tb.iter();
        proof {
            tb.lemma_rows();
        }
        let n: usize = rows.len();
        let mut leaves: Vec<Digest> = Vec::with_capacity(n);
        let mut i: usize = 0;
        while i < n
            invariant
                i <= n,
                n == rows.len(),
                leaves@ == row_leaves(rows@).take(i as int),
            decreases n - i,
        {
            leaves.push(balance_leaf(&rows[i].0, &rows[i].1));
            assert(leaves@ =~= row_leaves(rows@).take(i + 1));
            i += 1;
        }
        assert(row_leaves(rows@).take(n as int) =~= row_leaves(rows@));
        proof {
            assert forall|i: int, j: int| 0 <= i < j < rows@.len() implies (#[trigger] rows@[i]).0
                != (#[trigger] rows@[j]).0 by {
                assert(BalanceKey::before(rows@[i].0, rows@[j].0));
                BalanceKey::lemma_irreflexive(rows@[i].0);
            }
        }
        TrialBalanceCommitment { rows, log: MerkleLog::from_leaves(leaves) }
    }

    /// The root a seal records.
    #[must_use]
    pub fn root(&self) -> (root: Digest)
        requires
            self.wf(),
        ensures
            root == merkle::root_of(row_leaves(self@)),
    {
        self.log.root()
    }

    /// Number of rows committed to.
    #[must_use]
    pub fn len(&self) -> (n: usize)
        ensures
            n == self@.len(),
    {
        self.rows.len()
    }

    /// True when the trial balance was empty.
    #[must_use]
    pub fn is_empty(&self) -> (r: bool)
        ensures
            r == (self@.len() == 0),
    {
        self.rows.len() == 0
    }

    /// Proves that `key` held the balance this commitment recorded for it.
    ///
    /// Returns `None` when the key is absent. That is not the same as a balance
    /// of zero: an account with no postings has no row, so there is nothing to
    /// prove about it and a proof must not be manufactured.
    #[must_use]
    pub fn prove(&self, key: &BalanceKey) -> (r: Option<BalanceProof<P>>)
        requires
            self.wf(),
        ensures
            match r {
                Some(proof) => proof.key == *key && exists|i: int| #[trigger]
                    proof.is_for_row(i, self@),
                None => forall|i: int| 0 <= i < self@.len() ==> (#[trigger] self@[i]).0 != *key,
            },
    {
        let n: usize = self.rows.len();
        let mut i: usize = 0;
        while i < n
            invariant
                i <= n,
                n == self.rows.len(),
                self.wf(),
                forall|j: int| 0 <= j < i ==> (#[trigger] self@[j]).0 != *key,
            decreases n - i,
        {
            if self.rows[i].0 == *key {
                let proof = match self.log.inclusion_proof(i as u64) {
                    Ok(proof) => proof,
                    Err(_) => {
                        assert(false);
                        return None;
                    },
                };
                let found = BalanceProof { key: self.rows[i].0, balance: self.rows[i].1, proof };
                assert(found.is_for_row(i as int, self@));
                return Some(found);
            }
            i += 1;
        }
        None
    }

    /// Proves every row, in commitment order.
    pub fn prove_all(&self) -> (r: Result<Vec<BalanceProof<P>>, ProofError>)
        requires
            self.wf(),
        ensures
            match r {
                Ok(proofs) => {
                    &&& proofs@.len() == self@.len()
                    &&& forall|i: int|
                        0 <= i < proofs@.len() ==> (#[trigger] proofs@[i]).is_for_row(i, self@)
                },
                Err(_) => false,
            },
    {
        let n: usize = self.rows.len();
        let mut proofs: Vec<BalanceProof<P>> = Vec::with_capacity(n);
        let mut i: usize = 0;
        while i < n
            invariant
                i <= n,
                n == self.rows.len(),
                self.wf(),
                proofs@.len() == i,
                forall|j: int| 0 <= j < i ==> (#[trigger] proofs@[j]).is_for_row(j, self@),
            decreases n - i,
        {
            match self.log.inclusion_proof(i as u64) {
                Ok(proof) => {
                    proofs.push(
                        BalanceProof { key: self.rows[i].0, balance: self.rows[i].1, proof },
                    );
                },
                Err(e) => {
                    return Err(e);
                },
            }
            i += 1;
        }
        Ok(proofs)
    }
}

/// Proof that one account's balance is the one a seal committed to.
///
/// Self-contained: it carries the claim as well as the path, so a verifier needs
/// nothing but this and the root out of the seal.
#[derive(Debug, PartialEq, Eq)]
pub struct BalanceProof<const P: u8> {
    /// What the balance is for.
    pub key: BalanceKey,
    /// The balance being claimed.
    pub balance: Balance<P>,
    /// Path from the balance's leaf up to the trial-balance root.
    pub proof: InclusionProof,
}

impl<const P: u8> Clone for BalanceProof<P> {
    fn clone(&self) -> (copy: Self)
        ensures
            copy.key == self.key,
            copy.balance == self.balance,
            copy.proof.leaf_index == self.proof.leaf_index,
            copy.proof.tree_size == self.proof.tree_size,
            copy.proof.path@ == self.proof.path@,
    {
        BalanceProof { key: self.key, balance: self.balance, proof: self.proof.clone() }
    }
}

impl<const P: u8> BalanceProof<P> {
    /// True for the proof a commitment to `rows` gives for the row at `i`.
    pub open spec fn is_for_row(&self, i: int, rows: Seq<(BalanceKey, Balance<P>)>) -> bool {
        &&& 0 <= i < rows.len() <= u64::MAX
        &&& (self.key, self.balance) == rows[i]
        &&& self.proof.is_audit_path(i as u64, row_leaves(rows))
    }

    /// True when the claim is proven against a trial-balance root.
    pub open spec fn attests(&self, root: Digest) -> bool {
        self.proof.proves(row_leaf(self.key, self.balance), root)
    }

    /// True when the claim is proven against a whole seal.
    pub open spec fn attests_under(&self, seal: SealFacts) -> bool {
        self_consistent(seal) && self.attests(seal.trial_balance_root)
    }

    /// True when the claim and the account it is about are proven against one
    /// seal.
    pub open spec fn names(&self, binding: AccountBindingProof, seal: SealFacts) -> bool {
        &&& self.attests_under(seal)
        &&& binding.record.id == self.key.account
        &&& binding.attests(seal.accounts_root)
    }

    /// The bytes hashed while checking this proof.
    pub open spec fn inputs(&self) -> Set<Seq<u8>> {
        self.proof.inputs(row_leaf(self.key, self.balance)).insert(
            row_input(self.key, self.balance),
        )
    }

    /// Verifies the claim against a [`Seal::trial_balance_root`].
    ///
    /// Returns `false` on any inconsistency rather than distinguishing failure
    /// modes: a verifier cannot act differently on a malformed proof than on a
    /// forged one.
    #[must_use]
    pub fn verify(&self, trial_balance_root: &Digest) -> (valid: bool)
        ensures
            valid == self.attests(*trial_balance_root),
    {
        self.proof.verify(&balance_leaf(&self.key, &self.balance), trial_balance_root)
    }

    /// Verifies the claim against a whole seal.
    ///
    /// Establishes what a *handle* held. To learn which account that handle is,
    /// pair this with an [`AccountBindingProof`] against the same seal's
    /// [`Seal::accounts_root`] — or use [`BalanceProof::verify_naming`], which
    /// checks both together.
    #[must_use]
    pub fn verify_against(&self, seal: &Seal) -> (valid: bool)
        ensures
            valid == self.attests_under(seal@),
    {
        seal.is_self_consistent() && self.verify(&seal.trial_balance_root)
    }

    /// Verifies the balance *and* the account it belongs to, against one seal.
    ///
    /// Fails unless the binding proof names the same handle the balance is for —
    /// otherwise a genuine balance for one account could be presented under
    /// another account's name.
    #[must_use]
    pub fn verify_naming(&self, binding: &AccountBindingProof, seal: &Seal) -> (valid: bool)
        ensures
            valid == self.names(*binding, seal@),
    {
        self.verify_against(seal) && binding.id() == self.key.account && binding.verify(
            &seal.accounts_root,
        )
    }
}

// ── one balance out of a seal ───────────────────────────────────────────────

/// Failure proving a balance out of a seal.
#[derive(Debug, PartialEq, Eq)]
#[non_exhaustive]
pub enum SealedBalanceError {
    /// The period has not been sealed.
    NotSealed {
        /// The period asked about.
        period: PeriodId,
    },
    /// The period is sealed but no longer defined.
    UndefinedPeriod {
        /// The period asked about.
        period: PeriodId,
    },
    /// The books no longer reproduce what the seal committed to.
    Restated {
        /// The period whose closing balances or accounts changed.
        period: PeriodId,
    },
}

/// The complete claim an auditor wants: a seal, what one account closed its
/// period at, and which account that is.
///
/// Checkable by someone who holds nothing else, and disclosing nothing else.
#[derive(Debug, PartialEq, Eq)]
pub struct SealedBalance<const P: u8> {
    /// The seal the claim is made under.
    pub seal: Seal,
    /// The closing balance and its path to the seal's trial-balance root.
    pub balance: BalanceProof<P>,
    /// The account and its path to the seal's accounts root.
    pub account: AccountBindingProof,
}

/// What came of asking what an account closed a sealed period at.
///
/// That there is nothing to prove is an answer and not a failure: the books are
/// intact either way. An account without a row and an account the registry had
/// not issued yet are different answers, and neither is a balance of zero.
#[derive(Debug, PartialEq, Eq)]
pub enum SealedBalanceOutcome<const P: u8> {
    /// The balance, proven and named.
    Proven(SealedBalance<P>),
    /// The account was registered and had no row in the closing trial balance.
    NoRow,
    /// The account had not been registered when the period was sealed.
    NotYetRegistered,
}

impl<const P: u8> SealedBalance<P> {
    /// True when the balance and its account are both proven under the seal.
    pub open spec fn holds(&self) -> bool {
        self.balance.names(self.account, self.seal@)
    }

    /// Verifies the whole claim: the seal against its own hash, the balance
    /// against the seal, and the account against the same seal.
    #[must_use]
    pub fn verify(&self) -> (valid: bool)
        ensures
            valid == self.holds(),
    {
        self.balance.verify_naming(&self.account, &self.seal)
    }

    /// The account the balance is for.
    #[must_use]
    pub fn path(&self) -> (path: &AccountPath)
        ensures
            path@ == self.account.record@.account.path,
    {
        &self.account.record.account.path
    }

    /// Proves what `key` closed a sealed period at, and names it.
    ///
    /// `closing` is the closing trial balance rebuilt from the books, and
    /// `accounts` the registry as it stood at sealing. Both are compared with
    /// what the seal recorded before anything is proven: a proof against a
    /// commitment just computed from the same books would be internally
    /// consistent and evidence of nothing.
    pub fn assemble(
        seal: Seal,
        closing: &TrialBalance<P>,
        accounts: &AccountRegistry,
        key: BalanceKey,
    ) -> (r: Result<SealedBalanceOutcome<P>, SealedBalanceError>)
        requires
            accounts.wf(),
        ensures
            if balances_root(closing@) != seal@.trial_balance_root || account::commitment_of(
                accounts@,
            ).root != seal@.accounts_root {
                r matches Err(SealedBalanceError::Restated { period }) && period@ == seal@.period
            } else if key.account.position >= accounts@.len() {
                r matches Ok(SealedBalanceOutcome::NotYetRegistered)
            } else if !closing@.contains_key(key) {
                r matches Ok(SealedBalanceOutcome::NoRow)
            } else {
                &&& r matches Ok(SealedBalanceOutcome::Proven(proven))
                &&& proven.seal@ == seal@
                &&& proven.balance.key == key
                &&& proven.balance.balance == closing@[key]
                &&& proven.account.record@ == account::bindings(
                    accounts@,
                )[key.account.position as int]
                &&& proven.holds() == self_consistent(seal@)
            },
    {
        let commitment = TrialBalanceCommitment::of(closing);
        if commitment.root() != seal.trial_balance_root || accounts.commitment().root
            != seal.accounts_root {
            return Err(SealedBalanceError::Restated { period: seal.period.clone() });
        }
        let account = match accounts.prove_binding(key.account) {
            Some(account) => account,
            None => {
                return Ok(SealedBalanceOutcome::NotYetRegistered);
            },
        };
        let balance = match commitment.prove(&key) {
            Some(balance) => balance,
            None => {
                proof {
                    lemma_row_of_key(closing@, key);
                }
                return Ok(SealedBalanceOutcome::NoRow);
            },
        };
        proof {
            let rows = balance::rows_of(closing@);
            let i = choose|i: int| #[trigger] balance.is_for_row(i, rows);
            assert(row_leaves(rows)[i] == row_leaf(balance.key, balance.balance));
            merkle::law_inclusion_proofs_verify(balance.proof, i as u64, row_leaves(rows));
            lemma_rows_are_of_map(closing@, i);
        }
        Ok(SealedBalanceOutcome::Proven(SealedBalance { seal, balance, account }))
    }
}

impl<const P: u8> SealedBalanceOutcome<P> {
    /// The proven balance, if there is one.
    #[must_use]
    pub fn into_proven(self) -> (r: Option<SealedBalance<P>>)
        ensures
            r == (match self {
                SealedBalanceOutcome::Proven(proven) => Some(proven),
                _ => None,
            }),
    {
        match self {
            SealedBalanceOutcome::Proven(proven) => Some(proven),
            SealedBalanceOutcome::NoRow => None,
            SealedBalanceOutcome::NotYetRegistered => None,
        }
    }

    /// True when there is nothing to prove.
    #[must_use]
    pub fn is_absent(&self) -> (r: bool)
        ensures
            r == !(self is Proven),
    {
        match self {
            SealedBalanceOutcome::Proven(_) => false,
            SealedBalanceOutcome::NoRow => true,
            SealedBalanceOutcome::NotYetRegistered => true,
        }
    }
}

/// Every row is a key of the balances with the balance it holds.
proof fn lemma_rows_are_of_map<const P: u8>(balances: Map<BalanceKey, Balance<P>>, i: int)
    requires
        balance::listable(balances),
        0 <= i < balance::rows_of(balances).len(),
    ensures
        balances.contains_key(balance::rows_of(balances)[i].0),
        balance::rows_of(balances)[i].1 == balances[balance::rows_of(balances)[i].0],
{
    let keys = ordered::sorted_keys::<BalanceKey, Balance<P>>(balances);
    assert(keys.contains(keys[i]));
}

/// Every key of the balances has a row.
proof fn lemma_row_of_key<const P: u8>(balances: Map<BalanceKey, Balance<P>>, key: BalanceKey)
    requires
        balance::listable(balances),
    ensures
        balances.contains_key(key) ==> exists|i: int|
            0 <= i < balance::rows_of(balances).len() && (#[trigger] balance::rows_of(
                balances,
            )[i]).0 == key,
{
    let keys = ordered::sorted_keys::<BalanceKey, Balance<P>>(balances);
    if balances.contains_key(key) {
        assert(keys.contains(key));
        let i = choose|i: int| 0 <= i < keys.len() && keys[i] == key;
        assert(balance::rows_of(balances)[i].0 == key);
    }
}

// ── the chain ───────────────────────────────────────────────────────────────

/// What is wrong with a seal in a chain.
pub ghost enum ChainFault {
    Tampered { period: Seq<char> },
    BrokenChain { period: Seq<char> },
    ForeignLedger { period: Seq<char>, expected: Seq<char>, found: Seq<char> },
    MisplacedGenesis { period: Seq<char> },
    NonMonotonic { period: Seq<char> },
}

/// Failure verifying a chain of seals.
#[derive(Debug, PartialEq, Eq)]
#[allow(inconsistent_fields)]
#[non_exhaustive]
pub enum SealChainError {
    /// A seal's stored hash did not match its contents.
    Tampered {
        /// The offending period.
        period: PeriodId,
    },
    /// A seal did not reference its predecessor.
    BrokenChain {
        /// The offending period.
        period: PeriodId,
    },
    /// A seal named a different ledger than the chain it was offered to.
    ForeignLedger {
        /// The offending period.
        period: PeriodId,
        /// The ledger the chain covers.
        expected: LedgerId,
        /// The ledger the seal names.
        found: LedgerId,
    },
    /// The first seal claimed a predecessor, or a later one claimed none.
    MisplacedGenesis {
        /// The offending period.
        period: PeriodId,
    },
    /// Tree heads did not grow monotonically.
    NonMonotonic {
        /// The offending period.
        period: PeriodId,
    },
}

impl View for SealChainError {
    type V = ChainFault;

    open spec fn view(&self) -> ChainFault {
        match *self {
            SealChainError::Tampered { period } => ChainFault::Tampered { period: period@ },
            SealChainError::BrokenChain { period } => ChainFault::BrokenChain { period: period@ },
            SealChainError::ForeignLedger { period, expected, found } => {
                ChainFault::ForeignLedger { period: period@, expected: expected@, found: found@ }
            },
            SealChainError::MisplacedGenesis { period } => {
                ChainFault::MisplacedGenesis { period: period@ }
            },
            SealChainError::NonMonotonic { period } => {
                ChainFault::NonMonotonic { period: period@ }
            },
        }
    }
}

/// What is wrong with a seal after the one before it, if anything.
pub open spec fn link_fault(previous: Option<SealFacts>, seal: SealFacts) -> Option<ChainFault> {
    let period = seal.period;
    if !self_consistent(seal) {
        Some(ChainFault::Tampered { period })
    } else {
        match (previous, seal.prev_seal) {
            (None, None) => None,
            (None, Some(_)) => Some(ChainFault::MisplacedGenesis { period }),
            (Some(prev), reference) => if prev.ledger != seal.ledger {
                Some(
                    ChainFault::ForeignLedger { period, expected: prev.ledger, found: seal.ledger },
                )
            } else if reference is None {
                Some(ChainFault::MisplacedGenesis { period })
            } else if reference != Some(prev.seal_hash) {
                Some(ChainFault::BrokenChain { period })
            } else if seal.tree_head.size < prev.tree_head.size {
                Some(ChainFault::NonMonotonic { period })
            } else {
                None
            },
        }
    }
}

/// The last of some seals.
pub open spec fn last_of(seals: Seq<SealFacts>) -> Option<SealFacts> {
    if seals.len() == 0 {
        None
    } else {
        Some(seals.last())
    }
}

/// The first thing wrong with a chain of seals, if anything.
pub open spec fn chain_fault(seals: Seq<SealFacts>) -> Option<ChainFault>
    decreases seals.len(),
{
    if seals.len() == 0 {
        None
    } else {
        match chain_fault(seals.drop_last()) {
            Some(fault) => Some(fault),
            None => link_fault(last_of(seals.drop_last()), seals.last()),
        }
    }
}

/// What some seals hold.
pub open spec fn seal_facts(seals: Seq<Seal>) -> Seq<SealFacts> {
    seals.map_values(|s: Seal| s@)
}

/// Every rule that relates a seal to the one before it.
///
/// Shared by [`SealChain::push`] and [`verify_links`] so that appending and
/// re-checking cannot drift apart.
fn check_link(previous: Option<&Seal>, seal: &Seal) -> (r: Result<(), SealChainError>)
    ensures
        ({
            let before = match previous {
                Some(prev) => Some(prev@),
                None => None,
            };
            match link_fault(before, seal@) {
                None => r is Ok,
                Some(fault) => r matches Err(e) && e@ == fault,
            }
        }),
{
    if !seal.is_self_consistent() {
        return Err(SealChainError::Tampered { period: seal.period.clone() });
    }
    match previous {
        None => match seal.prev_seal {
            None => Ok(()),
            Some(_) => Err(SealChainError::MisplacedGenesis { period: seal.period.clone() }),
        },
        Some(prev) => {
            if !prev.ledger.same(&seal.ledger) {
                return Err(
                    SealChainError::ForeignLedger {
                        period: seal.period.clone(),
                        expected: prev.ledger.clone(),
                        found: seal.ledger.clone(),
                    },
                );
            }
            match seal.prev_seal {
                None => Err(SealChainError::MisplacedGenesis { period: seal.period.clone() }),
                Some(reference) => {
                    if prev.seal_hash != reference {
                        return Err(SealChainError::BrokenChain { period: seal.period.clone() });
                    }
                    if seal.tree_head.size < prev.tree_head.size {
                        return Err(SealChainError::NonMonotonic { period: seal.period.clone() });
                    }
                    Ok(())
                },
            }
        },
    }
}

/// Verifies a run of seals, oldest first: every seal and every link.
///
/// What someone who was handed the seals and nothing else can check.
pub fn verify_links(seals: &[Seal]) -> (r: Result<(), SealChainError>)
    ensures
        match chain_fault(seal_facts(seals@)) {
            None => r is Ok,
            Some(fault) => r matches Err(e) && e@ == fault,
        },
{
    let mut i: usize = 0;
    assert(seal_facts(seals@).take(0) =~= Seq::<SealFacts>::empty());
    while i < seals.len()
        invariant
            i <= seals.len(),
            chain_fault(seal_facts(seals@).take(i as int)) is None,
        decreases seals.len() - i,
    {
        let previous = if i == 0 {
            None
        } else {
            Some(&seals[i - 1])
        };
        proof {
            let facts = seal_facts(seals@);
            assert(facts.take(i + 1).drop_last() =~= facts.take(i as int));
            assert(facts.take(i + 1).last() == seals@[i as int]@);
            if i > 0 {
                assert(facts.take(i as int).last() == seals@[i - 1]@);
            }
        }
        match check_link(previous, &seals[i]) {
            Ok(()) => {},
            Err(e) => {
                proof {
                    lemma_fault_persists(seal_facts(seals@), i + 1);
                }
                return Err(e);
            },
        }
        i += 1;
    }
    assert(seal_facts(seals@).take(seals@.len() as int) =~= seal_facts(seals@));
    Ok(())
}

proof fn lemma_fault_persists(seals: Seq<SealFacts>, k: int)
    requires
        0 <= k <= seals.len(),
        chain_fault(seals.take(k)) is Some,
    ensures
        chain_fault(seals) == chain_fault(seals.take(k)),
    decreases seals.len(),
{
    if k == seals.len() {
        assert(seals.take(k) =~= seals);
    } else {
        assert(seals.drop_last().take(k) =~= seals.take(k));
        lemma_fault_persists(seals.drop_last(), k);
    }
}

/// An ordered chain of period seals.
#[derive(Debug)]
pub struct SealChain {
    seals: Vec<Seal>,
}

impl View for SealChain {
    type V = Seq<SealFacts>;

    closed spec fn view(&self) -> Seq<SealFacts> {
        seal_facts(self.seals@)
    }
}

impl Default for SealChain {
    fn default() -> (chain: Self)
        ensures
            chain@ == Seq::<SealFacts>::empty(),
    {
        SealChain::new()
    }
}

impl Clone for SealChain {
    fn clone(&self) -> (copy: Self)
        ensures
            copy@ == self@,
    {
        let n: usize = self.seals.len();
        let mut seals: Vec<Seal> = Vec::with_capacity(n);
        let mut i: usize = 0;
        while i < n
            invariant
                i <= n,
                n == self.seals.len(),
                seal_facts(seals@) == seal_facts(self.seals@).take(i as int),
            decreases n - i,
        {
            let copy = self.seals[i].clone();
            let ghost before = seals@;
            seals.push(copy);
            assert(seal_facts(seals@) =~= seal_facts(before).push(copy@));
            assert(seal_facts(seals@) =~= seal_facts(self.seals@).take(i + 1));
            i += 1;
        }
        assert(seal_facts(self.seals@).take(n as int) =~= seal_facts(self.seals@));
        SealChain { seals }
    }
}

/// The position of the seal of a period, if it has been sealed.
pub open spec fn seal_of(seals: Seq<SealFacts>, period: Seq<char>) -> Option<int>
    decreases seals.len(),
{
    if seals.len() == 0 {
        None
    } else {
        match seal_of(seals.drop_last(), period) {
            Some(i) => Some(i),
            None => if seals.last().period == period {
                Some(seals.len() - 1)
            } else {
                None
            },
        }
    }
}

/// A seal that is found is there, and is of the period asked for.
pub proof fn lemma_seal_of(seals: Seq<SealFacts>, period: Seq<char>)
    ensures
        seal_of(seals, period) matches Some(k) ==> 0 <= k < seals.len() && seals[k].period
            == period,
    decreases seals.len(),
{
    if seals.len() > 0 {
        lemma_seal_of(seals.drop_last(), period);
    }
}

proof fn lemma_first_seal(seals: Seq<SealFacts>, period: Seq<char>, k: int)
    requires
        0 <= k <= seals.len(),
        forall|j: int| 0 <= j < k ==> (#[trigger] seals[j]).period != period,
    ensures
        k == seals.len() ==> seal_of(seals, period) is None,
        k < seals.len() && seals[k].period == period ==> seal_of(seals, period) == Some(k),
    decreases seals.len(),
{
    if seals.len() > 0 {
        let fewer = seals.drop_last();
        if k < seals.len() {
            lemma_first_seal(fewer, period, k);
        } else {
            assert(seals.last() == seals[k - 1]);
            lemma_first_seal(fewer, period, k - 1);
        }
    }
}

impl SealChain {
    /// Creates an empty chain.
    #[must_use]
    pub fn new() -> (chain: Self)
        ensures
            chain@ == Seq::<SealFacts>::empty(),
    {
        let chain = SealChain { seals: Vec::new() };
        assert(chain@ =~= Seq::<SealFacts>::empty());
        chain
    }

    /// The hash of the most recent seal.
    #[must_use]
    pub fn head(&self) -> (r: Option<Digest>)
        ensures
            r == (match last_of(self@) {
                Some(seal) => Some(seal.seal_hash),
                None => None,
            }),
    {
        let n: usize = self.seals.len();
        if n == 0 {
            None
        } else {
            Some(self.seals[n - 1].seal_hash)
        }
    }

    /// The most recent seal.
    #[must_use]
    pub fn last(&self) -> (r: Option<&Seal>)
        ensures
            match r {
                Some(seal) => last_of(self@) == Some(seal@),
                None => last_of(self@) is None,
            },
    {
        let n: usize = self.seals.len();
        if n == 0 {
            None
        } else {
            Some(&self.seals[n - 1])
        }
    }

    /// Appends a seal, checking that it chains to the current head.
    pub fn push(&mut self, seal: Seal) -> (r: Result<(), SealChainError>)
        ensures
            match link_fault(last_of(old(self)@), seal@) {
                None => r is Ok && final(self)@ == old(self)@.push(seal@),
                Some(fault) => (r matches Err(e) && e@ == fault) && final(self)@ == old(self)@,
            },
    {
        match check_link(self.last(), &seal) {
            Ok(()) => {
                self.seals.push(seal);
                assert(self@ =~= old(self)@.push(seal@));
                Ok(())
            },
            Err(e) => Err(e),
        }
    }

    /// Verifies every seal and every link.
    pub fn verify(&self) -> (r: Result<(), SealChainError>)
        ensures
            match chain_fault(self@) {
                None => r is Ok,
                Some(fault) => r matches Err(e) && e@ == fault,
            },
    {
        verify_links(self.seals.as_slice())
    }

    /// The seals, oldest first.
    #[must_use]
    pub fn seals(&self) -> (seals: &[Seal])
        ensures
            seal_facts(seals@) == self@,
    {
        self.seals.as_slice()
    }

    /// Number of seals.
    #[must_use]
    pub fn len(&self) -> (n: usize)
        ensures
            n == self@.len(),
    {
        self.seals.len()
    }

    /// True when nothing has been sealed.
    #[must_use]
    pub fn is_empty(&self) -> (r: bool)
        ensures
            r == (self@.len() == 0),
    {
        self.seals.len() == 0
    }

    /// Where the seal covering a period stands in the chain, if it has been
    /// sealed.
    pub(crate) fn position(&self, period: &PeriodId) -> (r: Option<usize>)
        ensures
            match r {
                Some(i) => i < self@.len() && seal_of(self@, period@) == Some(i as int)
                    && self@[i as int].period == period@,
                None => seal_of(self@, period@) is None,
            },
    {
        let mut i: usize = 0;
        while i < self.seals.len()
            invariant
                i <= self.seals.len(),
                forall|j: int| 0 <= j < i ==> (#[trigger] self@[j]).period != period@,
            decreases self.seals.len() - i,
        {
            if self.seals[i].period.same(period) {
                proof {
                    lemma_first_seal(self@, period@, i as int);
                }
                return Some(i);
            }
            i += 1;
        }
        proof {
            lemma_first_seal(self@, period@, i as int);
        }
        None
    }

    /// The seal covering a period, if it has been sealed.
    #[must_use]
    pub fn get(&self, period: &PeriodId) -> (r: Option<&Seal>)
        ensures
            match r {
                Some(seal) => seal_of(self@, period@) is Some && seal@ == self@[seal_of(
                    self@,
                    period@,
                )->0],
                None => seal_of(self@, period@) is None,
            },
    {
        match self.position(period) {
            Some(i) => Some(&self.seals[i]),
            None => None,
        }
    }
}

// ── what seals establish ────────────────────────────────────────────────────

/// The three parts of a seal's encoding are read back in one way only.
proof fn lemma_extent_unambiguous(a: SealFacts, b: SealFacts, x: Seq<u8>, y: Seq<u8>)
    requires
        valid_seal(a),
        valid_seal(b),
        extent_bytes(a) + x == extent_bytes(b) + y,
    ensures
        a.ledger == b.ledger,
        a.period == b.period,
        a.first_index == b.first_index,
        a.last_index == b.last_index,
        x == y,
{
    let (la, lb) = (canonical::text_bytes(a.ledger), canonical::text_bytes(b.ledger));
    let (pa, pb) = (canonical::text_bytes(a.period), canonical::text_bytes(b.period));
    let (fa, fb) = (index_bytes(a.first_index), index_bytes(b.first_index));
    let (ta, tb) = (index_bytes(a.last_index), index_bytes(b.last_index));
    lemma_nest_four(la, pa, fa, ta, x);
    lemma_nest_four(lb, pb, fb, tb, y);
    dimensions::lemma_label_unambiguous(
        a.ledger,
        b.ledger,
        pa + (fa + (ta + x)),
        pb + (fb + (tb + y)),
    );
    dimensions::lemma_label_unambiguous(a.period, b.period, fa + (ta + x), fb + (tb + y));
    lemma_index_unambiguous(a.first_index, b.first_index, ta + x, tb + y);
    lemma_index_unambiguous(a.last_index, b.last_index, x, y);
}

proof fn lemma_nest_four(a: Seq<u8>, b: Seq<u8>, c: Seq<u8>, d: Seq<u8>, x: Seq<u8>)
    ensures
        a + b + c + d + x == a + (b + (c + (d + x))),
{
    assert(a + b + c + d + x =~= a + (b + (c + (d + x))));
}

proof fn lemma_nest_three(a: Seq<u8>, b: Seq<u8>, c: Seq<u8>, x: Seq<u8>)
    ensures
        a + b + c + x == a + (b + (c + x)),
{
    assert(a + b + c + x =~= a + (b + (c + x)));
}

proof fn lemma_index_unambiguous(a: Option<u64>, b: Option<u64>, x: Seq<u8>, y: Seq<u8>)
    requires
        index_bytes(a) + x == index_bytes(b) + y,
    ensures
        a == b,
        x == y,
{
    let pa = match a {
        None => None,
        Some(v) => Some(canonical::le_bytes(v as nat, 8)),
    };
    let pb = match b {
        None => None,
        Some(v) => Some(canonical::le_bytes(v as nat, 8)),
    };
    canonical::lemma_option_split(pa, pb, x, y);
    if let (Some(v), Some(w)) = (a, b) {
        canonical::lemma_byte_range_values();
        canonical::lemma_le_bytes_unambiguous(v as nat, w as nat, 8, x, y);
    }
}

proof fn lemma_log_unambiguous(a: SealFacts, b: SealFacts, x: Seq<u8>, y: Seq<u8>)
    requires
        log_bytes(a) + x == log_bytes(b) + y,
    ensures
        a.entry_count == b.entry_count,
        a.tree_head == b.tree_head,
        x == y,
{
    let (ca, cb) = (a.entry_count as nat, b.entry_count as nat);
    let (sa, sb) = (a.tree_head.size as nat, b.tree_head.size as nat);
    let (ra, rb) = (a.tree_head.root, b.tree_head.root);
    lemma_nest_three(canonical::le_bytes(ca, 8), canonical::le_bytes(sa, 8), ra@, x);
    lemma_nest_three(canonical::le_bytes(cb, 8), canonical::le_bytes(sb, 8), rb@, y);
    canonical::lemma_byte_range_values();
    canonical::lemma_le_bytes_unambiguous(
        ca,
        cb,
        8,
        canonical::le_bytes(sa, 8) + (ra@ + x),
        canonical::le_bytes(sb, 8) + (rb@ + y),
    );
    canonical::lemma_le_bytes_unambiguous(sa, sb, 8, ra@ + x, rb@ + y);
    canonical::lemma_split_at(ra@, rb@, x, y);
    hash::lemma_hash_bytes_determine(ra, rb);
}

proof fn lemma_roots_unambiguous(a: SealFacts, b: SealFacts)
    requires
        roots_bytes(a) == roots_bytes(b),
    ensures
        a.trial_balance_root == b.trial_balance_root,
        a.accounts_root == b.accounts_root,
        a.prev_seal == b.prev_seal,
{
    let empty = Seq::<u8>::empty();
    let (pa, pb) = (digest_bytes(a.prev_seal), digest_bytes(b.prev_seal));
    let (ta, tb) = (a.trial_balance_root, b.trial_balance_root);
    let (na, nb) = (a.accounts_root, b.accounts_root);
    assert(roots_bytes(a) =~= ta@ + (na@ + pa));
    assert(roots_bytes(b) =~= tb@ + (nb@ + pb));
    canonical::lemma_split_at(ta@, tb@, na@ + pa, nb@ + pb);
    canonical::lemma_split_at(na@, nb@, pa, pb);
    hash::lemma_hash_bytes_determine(ta, tb);
    hash::lemma_hash_bytes_determine(na, nb);
    assert(pa + empty =~= pa);
    assert(pb + empty =~= pb);
    let oa = match a.prev_seal {
        None => None,
        Some(d) => Some(d@),
    };
    let ob = match b.prev_seal {
        None => None,
        Some(d) => Some(d@),
    };
    canonical::lemma_option_split(oa, ob, empty, empty);
    if let (Some(d), Some(e)) = (a.prev_seal, b.prev_seal) {
        canonical::lemma_split_at(d@, e@, empty, empty);
        hash::lemma_hash_bytes_determine(d, e);
    }
}

proof fn lemma_seal_tags_are_short()
    ensures
        encode_utf8(tag::SEAL_V1@).len() <= u64::MAX,
        encode_utf8(tag::TRIAL_BALANCE_V1@).len() <= u64::MAX,
{
    reveal_strlit("doubleentry/seal/v1");
    reveal_strlit("doubleentry/trialbalance/v1");
    assert(is_ascii_chars(tag::SEAL_V1@));
    assert(is_ascii_chars(tag::TRIAL_BALANCE_V1@));
    is_ascii_chars_encode_utf8(tag::SEAL_V1@);
    is_ascii_chars_encode_utf8(tag::TRIAL_BALANCE_V1@);
}

/// A seal's hash binds everything it claims: editing any field, the ledger
/// included, invalidates it.
pub proof fn law_seal_hash_binds_claims(a: SealFacts, b: SealFacts)
    requires
        valid_seal(a),
        valid_seal(b),
        seal_digest(a) == seal_digest(b),
        hash::collision_free(set![seal_input(a), seal_input(b)]),
    ensures
        same_claims(a, b),
{
    let t = encode_utf8(tag::SEAL_V1@);
    lemma_seal_tags_are_short();
    hash::lemma_tagged_hash_binds(
        t,
        seal_encoding(a),
        t,
        seal_encoding(b),
        set![seal_input(a), seal_input(b)],
    );
    let empty = Seq::<u8>::empty();
    assert(seal_encoding(a) =~= extent_bytes(a) + (log_bytes(a) + roots_bytes(a)));
    assert(seal_encoding(b) =~= extent_bytes(b) + (log_bytes(b) + roots_bytes(b)));
    lemma_extent_unambiguous(
        a,
        b,
        log_bytes(a) + roots_bytes(a),
        log_bytes(b) + roots_bytes(b),
    );
    lemma_log_unambiguous(a, b, roots_bytes(a), roots_bytes(b));
    lemma_roots_unambiguous(a, b);
}

/// The bytes hashed for the seals of a chain.
pub open spec fn chain_inputs(seals: Seq<SealFacts>) -> Set<Seq<u8>> {
    seals.map_values(|s: SealFacts| seal_input(s)).to_set()
}

/// The newest seal determines the whole chain: removing, reordering or restating
/// a sealed period cannot leave the newest seal's hash as it was.
pub proof fn law_newest_seal_binds_the_chain(a: Seq<SealFacts>, b: Seq<SealFacts>)
    requires
        a.len() >= 1,
        b.len() >= 1,
        forall|i: int| 0 <= i < a.len() ==> valid_seal(#[trigger] a[i]),
        forall|i: int| 0 <= i < b.len() ==> valid_seal(#[trigger] b[i]),
        chain_fault(a) is None,
        chain_fault(b) is None,
        a.last().seal_hash == b.last().seal_hash,
        hash::collision_free(chain_inputs(a).union(chain_inputs(b))),
    ensures
        a == b,
    decreases a.len(),
{
    let hashed = chain_inputs(a).union(chain_inputs(b));
    let (na, nb) = (a.len() - 1, b.len() - 1);
    let (x, y) = (a[na], b[nb]);
    assert(chain_inputs(a).contains(seal_input(x))) by {
        let inputs = a.map_values(|s: SealFacts| seal_input(s));
        assert(inputs[na] == seal_input(x));
        assert(inputs.to_set().contains(inputs[na]));
    }
    assert(chain_inputs(b).contains(seal_input(y))) by {
        let inputs = b.map_values(|s: SealFacts| seal_input(s));
        assert(inputs[nb] == seal_input(y));
        assert(inputs.to_set().contains(inputs[nb]));
    }
    assert(self_consistent(x) && self_consistent(y));
    law_seal_hash_binds_claims(x, y);
    assert(x == y);
    let (fa, fb) = (a.drop_last(), b.drop_last());
    if na == 0 {
        if nb > 0 {
            assert(y.prev_seal is Some);
        }
        assert(a =~= b);
    } else {
        assert(x.prev_seal is Some);
        assert(nb > 0);
        assert(fa.last().seal_hash == fb.last().seal_hash);
        assert(hash::collision_free(chain_inputs(fa).union(chain_inputs(fb)))) by {
            lemma_fewer_inputs(a);
            lemma_fewer_inputs(b);
            assert forall|z: Seq<u8>| chain_inputs(fa).union(chain_inputs(fb)).contains(
                z,
            ) implies hashed.contains(z) by {}
        }
        assert forall|i: int| 0 <= i < fa.len() implies valid_seal(#[trigger] fa[i]) by {
            assert(fa[i] == a[i]);
        }
        assert forall|i: int| 0 <= i < fb.len() implies valid_seal(#[trigger] fb[i]) by {
            assert(fb[i] == b[i]);
        }
        law_newest_seal_binds_the_chain(fa, fb);
        assert(a =~= fa.push(x));
        assert(b =~= fb.push(y));
    }
}

proof fn lemma_fewer_inputs(seals: Seq<SealFacts>)
    requires
        seals.len() >= 1,
    ensures
        chain_inputs(seals.drop_last()).subset_of(chain_inputs(seals)),
{
    let f = |s: SealFacts| seal_input(s);
    let inputs = seals.map_values(f);
    assert forall|z: Seq<u8>| chain_inputs(seals.drop_last()).contains(z) implies chain_inputs(
        seals,
    ).contains(z) by {
        let fewer = seals.drop_last().map_values(f);
        let i = choose|i: int| 0 <= i < fewer.len() && fewer[i] == z;
        assert(inputs[i] == z);
        assert(inputs.to_set().contains(inputs[i]));
    }
}

/// A chain that verifies is one ledger's, its tree never shrinks, and only its
/// first seal has no predecessor.
pub proof fn law_chain_is_of_one_ledger_and_grows(seals: Seq<SealFacts>, i: int, j: int)
    requires
        chain_fault(seals) is None,
        0 <= i < j < seals.len(),
    ensures
        seals[i].ledger == seals[j].ledger,
        seals[i].tree_head.size <= seals[j].tree_head.size,
        seals[j].prev_seal == Some(seals[j - 1].seal_hash),
        seals[0].prev_seal is None,
    decreases seals.len(),
{
    let fewer = seals.drop_last();
    assert(chain_fault(fewer) is None);
    assert(fewer.last() == seals[seals.len() - 2]);
    if j < seals.len() - 1 {
        law_chain_is_of_one_ledger_and_grows(fewer, i, j);
    } else {
        assert(link_fault(Some(fewer.last()), seals.last()) is None);
        if i < j - 1 {
            law_chain_is_of_one_ledger_and_grows(fewer, i, j - 1);
        } else if i > 0 {
            law_chain_is_of_one_ledger_and_grows(fewer, 0, i);
        } else {
            assert(fewer.drop_last() =~= Seq::<SealFacts>::empty());
        }
    }
}

/// Every seal of a chain that verifies hashes its own contents.
pub proof fn lemma_chained_seals_are_consistent(seals: Seq<SealFacts>, i: int)
    requires
        chain_fault(seals) is None,
        0 <= i < seals.len(),
    ensures
        self_consistent(seals[i]),
    decreases seals.len(),
{
    if i < seals.len() - 1 {
        lemma_chained_seals_are_consistent(seals.drop_last(), i);
    }
}

/// A row's leaf binds its key and both gross totals: equal leaves are equal
/// rows.
pub proof fn law_row_leaf_binds<const P: u8>(
    k: BalanceKey,
    a: Balance<P>,
    l: BalanceKey,
    b: Balance<P>,
)
    requires
        row_leaf(k, a) == row_leaf(l, b),
        hash::collision_free(set![row_input(k, a), row_input(l, b)]),
    ensures
        k == l,
        a == b,
{
    let t = encode_utf8(tag::TRIAL_BALANCE_V1@);
    lemma_seal_tags_are_short();
    hash::lemma_tagged_hash_binds(
        t,
        row_encoding(k, a),
        t,
        row_encoding(l, b),
        set![row_input(k, a), row_input(l, b)],
    );
    let empty = Seq::<u8>::empty();
    let (ha, hb) = (seq![posting::layer_byte(k.layer), P], seq![posting::layer_byte(l.layer), P]);
    let (da, db) = (
        canonical::twos64(a.debits.minor as int),
        canonical::twos64(b.debits.minor as int),
    );
    let (ca, cb) = (
        canonical::twos64(a.credits.minor as int),
        canonical::twos64(b.credits.minor as int),
    );
    let (wa, wb) = (
        canonical::le_bytes(da, 8) + (canonical::le_bytes(ca, 8) + empty),
        canonical::le_bytes(db, 8) + (canonical::le_bytes(cb, 8) + empty),
    );
    let (pa, pb) = (k.account.position as nat, l.account.position as nat);
    lemma_nest_row(
        canonical::le_bytes(pa, 4),
        k.currency@,
        ha,
        canonical::le_bytes(da, 8),
        canonical::le_bytes(ca, 8),
    );
    lemma_nest_row(
        canonical::le_bytes(pb, 4),
        l.currency@,
        hb,
        canonical::le_bytes(db, 8),
        canonical::le_bytes(cb, 8),
    );
    canonical::lemma_byte_range_values();
    canonical::lemma_le_bytes_unambiguous(
        pa,
        pb,
        4,
        k.currency@ + (ha + wa),
        l.currency@ + (hb + wb),
    );
    k.currency.lemma_code_len();
    l.currency.lemma_code_len();
    canonical::lemma_split_at(k.currency@, l.currency@, ha + wa, hb + wb);
    crate::money::Currency::lemma_code_determines(k.currency, l.currency);
    canonical::lemma_split_at(ha, hb, wa, wb);
    assert(ha[0] == hb[0]);
    canonical::lemma_le_bytes_unambiguous(
        da,
        db,
        8,
        canonical::le_bytes(ca, 8) + empty,
        canonical::le_bytes(cb, 8) + empty,
    );
    canonical::lemma_le_bytes_unambiguous(ca, cb, 8, empty, empty);
}

proof fn lemma_nest_row(a: Seq<u8>, b: Seq<u8>, c: Seq<u8>, d: Seq<u8>, e: Seq<u8>)
    ensures
        a + b + c + d + e == a + (b + (c + (d + (e + Seq::empty())))),
{
    assert(a + b + c + d + e =~= a + (b + (c + (d + (e + Seq::<u8>::empty())))));
}

/// The proof a commitment gives for a row verifies against its root.
pub proof fn law_balance_proofs_verify<const P: u8>(
    proof: BalanceProof<P>,
    i: int,
    balances: Map<BalanceKey, Balance<P>>,
)
    requires
        proof.is_for_row(i, balance::rows_of(balances)),
    ensures
        proof.attests(balances_root(balances)),
{
    let rows = balance::rows_of(balances);
    assert(row_leaves(rows)[i] == row_leaf(proof.key, proof.balance));
    merkle::law_inclusion_proofs_verify(proof.proof, i as u64, row_leaves(rows));
}

proof fn lemma_row_is_hashed<const P: u8>(balances: Map<BalanceKey, Balance<P>>, i: int)
    requires
        0 <= i < balance::rows_of(balances).len(),
    ensures
        balances_inputs(balances).contains(
            row_input(balance::rows_of(balances)[i].0, balance::rows_of(balances)[i].1),
        ),
        balance_leaves(balances)[i] == row_leaf(
            balance::rows_of(balances)[i].0,
            balance::rows_of(balances)[i].1,
        ),
{
    let inputs = balance::rows_of(balances).map_values(
        |row: (BalanceKey, Balance<P>)| row_input(row.0, row.1),
    );
    assert(inputs.to_set().contains(inputs[i]));
}

/// A balance proof that verifies against the root of a trial balance claims what
/// that trial balance holds: a restated balance, a balance moved to another
/// account, and a balance for an account without a row do not prove.
pub proof fn law_balance_proofs_bind<const P: u8>(
    proof: BalanceProof<P>,
    balances: Map<BalanceKey, Balance<P>>,
)
    requires
        balance::listable(balances),
        proof.attests(balances_root(balances)),
        hash::collision_free(
            proof.inputs().union(balances_inputs(balances)).insert(merkle::empty_input()),
        ),
    ensures
        balances.contains_key(proof.key),
        balances[proof.key] == proof.balance,
{
    let hashed = proof.inputs().union(balances_inputs(balances)).insert(merkle::empty_input());
    let leaf = row_leaf(proof.key, proof.balance);
    let leaves = balance_leaves(balances);
    let fewer = proof.proof.inputs(leaf).union(merkle::log_inputs(leaves)).insert(
        merkle::empty_input(),
    );
    assert(hash::collision_free(fewer)) by {
        assert forall|x: Seq<u8>| fewer.contains(x) implies hashed.contains(x) by {}
    }
    merkle::law_inclusion_under_a_root_binds(proof.proof, leaf, leaves);
    let i = choose|i: int| 0 <= i < leaves.len() && leaves[i] == leaf;
    let rows = balance::rows_of(balances);
    lemma_row_is_hashed(balances, i);
    law_row_leaf_binds(proof.key, proof.balance, rows[i].0, rows[i].1);
    lemma_rows_are_of_map(balances, i);
}

/// The root over a trial balance binds every balance in it, gross totals and
/// all: trial balances with one root are the same.
pub proof fn law_balances_root_binds<const P: u8>(
    a: Map<BalanceKey, Balance<P>>,
    b: Map<BalanceKey, Balance<P>>,
)
    requires
        balance::listable(a),
        balance::listable(b),
        balances_root(a) == balances_root(b),
        hash::collision_free(
            balances_inputs(a).union(balances_inputs(b)).insert(merkle::empty_input()),
        ),
    ensures
        a == b,
{
    let hashed = balances_inputs(a).union(balances_inputs(b)).insert(merkle::empty_input());
    lemma_balances_are_in(a, b, hashed);
    lemma_balances_are_in(b, a, hashed);
    assert(a =~= b);
}

proof fn lemma_balances_are_in<const P: u8>(
    a: Map<BalanceKey, Balance<P>>,
    b: Map<BalanceKey, Balance<P>>,
    hashed: Set<Seq<u8>>,
)
    requires
        balance::listable(a),
        balance::listable(b),
        balances_root(a) == balances_root(b),
        hash::collision_free(hashed),
        balances_inputs(a).subset_of(hashed),
        balances_inputs(b).subset_of(hashed),
        hashed.contains(merkle::empty_input()),
    ensures
        forall|k: BalanceKey| #[trigger]
            a.contains_key(k) ==> b.contains_key(k) && a[k] == b[k],
{
    let (la, lb) = (balance_leaves(a), balance_leaves(b));
    let (ra, rb) = (balance::rows_of(a), balance::rows_of(b));
    let fewer = merkle::log_inputs(la).union(merkle::log_inputs(lb)).insert(
        merkle::empty_input(),
    );
    assert(hash::collision_free(fewer)) by {
        assert forall|x: Seq<u8>| fewer.contains(x) implies hashed.contains(x) by {
            assert(merkle::log_inputs(la).contains(x) ==> balances_inputs(a).contains(x));
            assert(merkle::log_inputs(lb).contains(x) ==> balances_inputs(b).contains(x));
        }
    }
    merkle::law_root_binds_the_set_of_leaves(la, lb);
    assert forall|k: BalanceKey| #[trigger] a.contains_key(k) implies b.contains_key(k) && a[k]
        == b[k] by {
        lemma_row_of_key(a, k);
        let i = choose|i: int| 0 <= i < ra.len() && (#[trigger] ra[i]).0 == k;
        assert(lb.contains(la[i]));
        let j = choose|j: int| 0 <= j < lb.len() && lb[j] == la[i];
        lemma_row_is_hashed(a, i);
        lemma_row_is_hashed(b, j);
        law_row_leaf_binds(ra[i].0, ra[i].1, rb[j].0, rb[j].1);
        lemma_rows_are_of_map(a, i);
        lemma_rows_are_of_map(b, j);
    }
}

/// A balance that is proven and named under the seal of some books is the one
/// those books closed at, for the account their registry held at that handle.
pub proof fn law_named_balances_bind<const P: u8>(
    proof: BalanceProof<P>,
    binding: AccountBindingProof,
    seal: SealFacts,
    balances: Map<BalanceKey, Balance<P>>,
    accounts: Seq<account::AccountFacts>,
)
    requires
        balance::listable(balances),
        accounts.len() <= account::MAX_ACCOUNTS,
        forall|i: int| 0 <= i < accounts.len() ==> account::is_path((#[trigger] accounts[i]).path),
        account::is_path(binding.record@.account.path),
        seal.trial_balance_root == balances_root(balances),
        seal.accounts_root == account::commitment_of(accounts).root,
        proof.names(binding, seal),
        hash::collision_free(
            proof.inputs().union(balances_inputs(balances)).insert(merkle::empty_input()),
        ),
        hash::collision_free(
            account::commitment_inputs(accounts).union(
                binding.proof.inputs(account::binding_leaf(binding.record@)),
            ).insert(account::binding_input(binding.record@)).insert(merkle::empty_input()),
        ),
    ensures
        balances.contains_key(proof.key),
        balances[proof.key] == proof.balance,
        proof.key.account.position < accounts.len(),
        binding.record@.account == accounts[proof.key.account.position as int],
{
    law_balance_proofs_bind(proof, balances);
    account::law_binding_proofs_bind_under_a_root(binding, accounts);
}

} // verus!
