//! Entries — atomic, balanced sets of postings.
//!
//! # Balanced by construction
//!
//! [`Entry`] carries a type-state parameter. A draft is freely editable and
//! proves nothing; sealing it runs every invariant and yields an
//! [`Entry<Balanced, P>`]. The balanced form has private fields and no public
//! constructor, and the marker types sit behind a trait that nothing outside
//! this crate can name, so nothing else can produce one by any route other than
//! validation.
//!
//! The guarantee this provides is worth stating precisely, because it is easy to
//! overclaim. Whether a set of postings balances is a property of runtime values,
//! so no type system short of dependent types decides it at compile time. What
//! the type state gives is that **an unbalanced entry cannot be represented as a
//! validated one**: every API that persists, exports, or commits to an entry
//! accepts only the balanced form.

use crate::account::{self, AccountId, AccountRegistry};
use crate::balance::{self, Balance};
use crate::canonical::{self, Canonical, CanonicalWriter};
use crate::date::{self, Date};
use crate::dimensions::{self, DimensionError, Label};
use crate::hash::{self, hex_val, tagged, to_hex_text, Digest};
use crate::ident::{self, fresh_uuid, uuid_to_bytes};
use crate::money::{Amount, Currency, MoneyError};
use crate::ordered::{self, rank_bytes, Key, Rank, SortedMap};
use crate::period::{self, PeriodCalendar, PeriodState};
use crate::posting::{self, Direction, Posting};
use crate::state::State;
use crate::tag;
use crate::text::{self, chars_of, is_control};
use std::marker::PhantomData;
use vstd::prelude::*;
use vstd::string::*;
use vstd::utf8::*;

verus! {

/// Maximum characters in an entry description.
pub const MAX_DESCRIPTION_LEN: usize = 512;

/// Maximum bytes in an idempotency key.
pub const MAX_IDEMPOTENCY_KEY_LEN: usize = 128;

/// Maximum number of postings one entry may carry.
///
/// Not an arbitrary bound. A posting is addressed by its position within its
/// entry, and that position is narrowed twice on the way out of the engine: to a
/// `u16` in a posting reference, and to a `SMALLINT` in the reference SQL
/// schema. `i16::MAX` is the largest index both can carry, so an entry beyond it
/// could not be referenced by a clearing, could not be written to a posting row,
/// and could not appear correctly in a statement.
///
/// Enforced at validation rather than truncated at the boundary, because a
/// truncated position is a posting silently pointing at the wrong movement.
pub const MAX_POSTINGS: usize = 0x7fff;

/// Type state for an entry still under construction.
#[derive(Debug, Clone, Copy, PartialEq, Eq)]
pub struct Draft;

/// Type state for an entry that has passed validation.
#[derive(Debug, Clone, Copy, PartialEq, Eq)]
pub struct Balanced;

impl State for Draft {

}

impl State for Balanced {

}

// ── identifiers ─────────────────────────────────────────────────────────────

/// Identifier for an entry: the value of a UUID.
///
/// Time-ordered identifiers keep insertion local in a B-tree index. The engine
/// never generates one itself: identity is supplied by the caller so that a
/// replay produces byte-identical output.
#[derive(Debug, Clone, Copy, PartialEq, Eq, Structural, PartialOrd, Ord, Hash)]
pub struct EntryId {
    /// The UUID as a number, most significant byte first.
    pub value: u128,
}

impl View for EntryId {
    type V = EntryId;

    open spec fn view(&self) -> EntryId {
        *self
    }
}

impl EntryId {
    /// Wraps an existing UUID.
    #[must_use]
    pub fn from_uuid(value: u128) -> (id: Self)
        ensures
            id.value == value,
    {
        EntryId { value }
    }

    /// The underlying UUID.
    #[must_use]
    pub fn as_uuid(&self) -> (value: u128)
        ensures
            value == self.value,
    {
        self.value
    }

    /// Generates a fresh time-ordered identifier.
    ///
    /// Provided for callers that have no identifier of their own. It reads the
    /// clock, so it is not part of the deterministic path; the engine never
    /// calls it.
    ///
    /// # Panics
    ///
    /// Panics where the machine offers no usable clock or randomness: when the
    /// system clock stands before 1970, or the operating system yields no random
    /// bytes.
    #[must_use]
    pub fn generate() -> (id: Self)
        ensures
            ident::time_ordered_uuid(id.value),
    {
        EntryId { value: fresh_uuid() }
    }

    /// The identifier as text: hexadecimal digits in groups of 8, 4, 4, 4 and 12.
    #[must_use]
    pub fn to_string(&self) -> (s: String)
        ensures
            s@ == ident::uuid_text(self.value),
    {
        ident::uuid_to_text(self.value)
    }
}

impl Canonical for EntryId {
    open spec fn encoding(&self) -> Seq<u8> {
        ident::uuid_bytes(self.value)
    }

    fn encode(&self, w: &mut CanonicalWriter) {
        w.fixed(uuid_to_bytes(self.value).as_slice());
    }
}

impl Key for EntryId {
    /// By the value of the UUID.
    open spec fn before(a: EntryId, b: EntryId) -> bool {
        a.value < b.value
    }

    proof fn lemma_irreflexive(a: EntryId) {
    }

    proof fn lemma_transitive(a: EntryId, b: EntryId, c: EntryId) {
    }

    proof fn lemma_total(a: EntryId, b: EntryId) {
    }

    fn rank(&self, other: &Self) -> (r: Rank) {
        if self.value < other.value {
            Rank::Before
        } else if self.value > other.value {
            Rank::After
        } else {
            Rank::Same
        }
    }
}

/// Failure constructing a bounded entry field.
#[derive(Debug, Clone, Copy, PartialEq, Eq, Structural)]
#[non_exhaustive]
pub enum EntryFieldError {
    /// The idempotency key was empty.
    EmptyIdempotencyKey,
    /// The idempotency key exceeded [`MAX_IDEMPOTENCY_KEY_LEN`].
    IdempotencyKeyTooLong,
    /// The idempotency key was not valid hex.
    MalformedIdempotencyKey,
    /// The description exceeded [`MAX_DESCRIPTION_LEN`].
    DescriptionTooLong,
    /// The description contained a control character other than a newline.
    DescriptionControlCharacter,
}

/// Why some bytes are not an idempotency key, if they are not.
pub open spec fn key_fault(bytes: Seq<u8>) -> Option<EntryFieldError> {
    if bytes.len() == 0 {
        Some(EntryFieldError::EmptyIdempotencyKey)
    } else if bytes.len() > MAX_IDEMPOTENCY_KEY_LEN {
        Some(EntryFieldError::IdempotencyKeyTooLong)
    } else {
        None
    }
}

/// Why some hexadecimal text is not an idempotency key, if it is not.
pub open spec fn hex_key_fault(text: Seq<u8>) -> Option<EntryFieldError> {
    if text.len() % 2 == 1 || !hash::all_hex(text) {
        Some(EntryFieldError::MalformedIdempotencyKey)
    } else {
        key_fault(hash::unhex(text))
    }
}

/// A caller-supplied key that makes recording an entry idempotent.
///
/// Two submissions carrying the same key are the same logical transaction.
/// Whether that is a safe replay or a conflict is decided by comparing content
/// hashes, not by comparing keys.
#[derive(Debug, PartialEq, Eq, PartialOrd, Ord, Hash)]
pub struct IdempotencyKey {
    bytes: Vec<u8>,
}

impl View for IdempotencyKey {
    type V = Seq<u8>;

    closed spec fn view(&self) -> Seq<u8> {
        self.bytes@
    }
}

impl Clone for IdempotencyKey {
    fn clone(&self) -> (copy: Self)
        ensures
            copy@ == self@,
    {
        proof {
            use_type_invariant(self);
        }
        let mut bytes: Vec<u8> = Vec::with_capacity(self.bytes.len());
        bytes.extend_from_slice(self.bytes.as_slice());
        assert(bytes@ =~= self@);
        IdempotencyKey { bytes }
    }
}

impl IdempotencyKey {
    /// The bytes are a key.
    #[verifier::type_invariant]
    pub open spec fn is_key(&self) -> bool {
        key_fault(self@) is None
    }

    /// Wraps raw key bytes.
    pub fn new(bytes: Vec<u8>) -> (r: Result<Self, EntryFieldError>)
        ensures
            match r {
                Ok(key) => key_fault(bytes@) is None && key@ == bytes@,
                Err(e) => key_fault(bytes@) == Some(e),
            },
    {
        if bytes.len() == 0 {
            return Err(EntryFieldError::EmptyIdempotencyKey);
        }
        if bytes.len() > MAX_IDEMPOTENCY_KEY_LEN {
            return Err(EntryFieldError::IdempotencyKeyTooLong);
        }
        Ok(IdempotencyKey { bytes })
    }

    /// The key bytes.
    #[must_use]
    pub fn as_bytes(&self) -> (bytes: &[u8])
        ensures
            bytes@ == self@,
    {
        self.bytes.as_slice()
    }

    /// Renders the key as lowercase hex.
    #[must_use]
    pub fn to_hex(&self) -> (s: String)
        ensures
            s@ == hash::hex_text(self@),
    {
        to_hex_text(self.bytes.as_slice())
    }

    /// Parses a key from lowercase or uppercase hex.
    pub fn parse_hex(s: &str) -> (r: Result<Self, EntryFieldError>)
        ensures
            match r {
                Ok(key) => hex_key_fault(encode_utf8(s@)) is None && key@ == hash::unhex(
                    encode_utf8(s@),
                ),
                Err(e) => hex_key_fault(encode_utf8(s@)) == Some(e),
            },
    {
        let text: &[u8] = s.as_bytes();
        if text.len() % 2 == 1 {
            return Err(EntryFieldError::MalformedIdempotencyKey);
        }
        let n: usize = text.len() / 2;
        let mut out: Vec<u8> = Vec::with_capacity(n);
        let mut i: usize = 0;
        while i < n
            invariant
                i <= n,
                2 * n == text.len(),
                text@ == encode_utf8(s@),
                out@.len() == i,
                forall|k: int| 0 <= k < 2 * i ==> hash::hex_digit_value(#[trigger] text@[k]) is Some,
                forall|k: int| 0 <= k < i ==> #[trigger] out@[k] == hash::unhex(text@)[k],
            decreases n - i,
        {
            let hi: u8 = match hex_val(text[2 * i]) {
                Ok(v) => v,
                Err(_) => {
                    assert(hash::hex_digit_value(text@[2 * i]) is None);
                    return Err(EntryFieldError::MalformedIdempotencyKey);
                },
            };
            let lo: u8 = match hex_val(text[2 * i + 1]) {
                Ok(v) => v,
                Err(_) => {
                    assert(hash::hex_digit_value(text@[2 * i + 1]) is None);
                    return Err(EntryFieldError::MalformedIdempotencyKey);
                },
            };
            out.push(16 * hi + lo);
            i += 1;
        }
        assert(out@ =~= hash::unhex(text@));
        Self::new(out)
    }
}

impl Key for IdempotencyKey {
    /// By the bytes.
    open spec fn before(a: Seq<u8>, b: Seq<u8>) -> bool {
        ordered::bytes_before(a, b)
    }

    proof fn lemma_irreflexive(a: Seq<u8>) {
        ordered::lemma_bytes_irreflexive(a);
    }

    proof fn lemma_transitive(a: Seq<u8>, b: Seq<u8>, c: Seq<u8>) {
        ordered::lemma_bytes_transitive(a, b, c);
    }

    proof fn lemma_total(a: Seq<u8>, b: Seq<u8>) {
        ordered::lemma_bytes_total(a, b);
    }

    fn rank(&self, other: &Self) -> (r: Rank) {
        rank_bytes(self.bytes.as_slice(), other.bytes.as_slice())
    }
}

// ── descriptive fields ──────────────────────────────────────────────────────

/// True when some character is a control character other than a newline.
pub open spec fn has_stray_control(text: Seq<char>) -> bool {
    exists|i: int| 0 <= i < text.len() && text::control(#[trigger] text[i]) && text[i] != '\n'
}

/// Why some text is not a description, if it is not.
pub open spec fn description_fault(text: Seq<char>) -> Option<EntryFieldError> {
    if text.len() > MAX_DESCRIPTION_LEN {
        Some(EntryFieldError::DescriptionTooLong)
    } else if has_stray_control(text) {
        Some(EntryFieldError::DescriptionControlCharacter)
    } else {
        None
    }
}

/// A free-text description of an entry.
#[derive(Debug, PartialEq, Eq, PartialOrd, Ord, Hash)]
pub struct Description {
    text: String,
}

impl View for Description {
    type V = Seq<char>;

    closed spec fn view(&self) -> Seq<char> {
        self.text@
    }
}

impl Clone for Description {
    fn clone(&self) -> (copy: Self)
        ensures
            copy@ == self@,
    {
        proof {
            use_type_invariant(self);
        }
        Description { text: self.text.clone() }
    }
}

impl Default for Description {
    fn default() -> (d: Self)
        ensures
            d@ == Seq::<char>::empty(),
    {
        Description { text: String::new() }
    }
}

impl Description {
    /// The text is a description.
    #[verifier::type_invariant]
    pub open spec fn is_description(&self) -> bool {
        description_fault(self@) is None
    }

    /// Validates and wraps a description.
    pub fn new(s: &str) -> (r: Result<Self, EntryFieldError>)
        ensures
            match r {
                Ok(d) => description_fault(s@) is None && d@ == s@,
                Err(e) => description_fault(s@) == Some(e),
            },
    {
        let chars = chars_of(s);
        if chars.len() > MAX_DESCRIPTION_LEN {
            return Err(EntryFieldError::DescriptionTooLong);
        }
        let mut i: usize = 0;
        while i < chars.len()
            invariant
                i <= chars.len(),
                chars@ == s@,
                s@.len() <= MAX_DESCRIPTION_LEN,
                forall|k: int|
                    0 <= k < i ==> !(text::control(#[trigger] chars@[k]) && chars@[k] != '\n'),
            decreases chars.len() - i,
        {
            if is_control(chars[i]) && chars[i] != '\n' {
                assert(text::control(s@[i as int]));
                return Err(EntryFieldError::DescriptionControlCharacter);
            }
            i += 1;
        }
        Ok(Description { text: s.to_owned() })
    }

    /// The description text.
    #[must_use]
    pub fn as_str(&self) -> (s: &str)
        ensures
            s@ == self@,
    {
        self.text.as_str()
    }
}

/// The text of an optional label.
pub open spec fn label_text(label: Option<Label>) -> Option<Seq<char>> {
    match label {
        Some(l) => Some(l@),
        None => None,
    }
}

/// True when optional text, where there is any, is a label.
pub open spec fn label_or_none(text: Option<Seq<char>>) -> bool {
    text matches Some(t) ==> dimensions::label_error(t) is None
}

/// The encoding of an optional label.
pub open spec fn label_option(text: Option<Seq<char>>) -> Seq<u8> {
    canonical::option_bytes(
        match text {
            Some(t) => Some(canonical::text_bytes(t)),
            None => None,
        },
    )
}

fn clone_label(label: &Option<Label>) -> (copy: Option<Label>)
    ensures
        label_text(copy) == label_text(*label),
{
    match label {
        Some(l) => Some(l.clone()),
        None => None,
    }
}

/// Who recorded an entry, as mathematics.
#[verifier::ext_equal]
pub struct ProvenanceFacts {
    /// The acting principal.
    pub actor: Option<Seq<char>>,
    /// The system the entry originated in.
    pub source: Option<Seq<char>>,
    /// Correlation identifier tying this entry to an external process.
    pub correlation: Option<Seq<char>>,
}

/// The encoding of provenance.
pub open spec fn provenance_encoding(p: ProvenanceFacts) -> Seq<u8> {
    label_option(p.actor) + label_option(p.source) + label_option(p.correlation)
}

/// Who recorded an entry, and on whose behalf.
///
/// Recorded on every entry and folded into its hash. An audit trail that cannot
/// say who made a booking is not an audit trail.
#[derive(Debug, PartialEq, Eq)]
pub struct Provenance {
    /// The acting principal.
    pub actor: Option<Label>,
    /// The system the entry originated in.
    pub source: Option<Label>,
    /// Correlation identifier tying this entry to an external process.
    pub correlation: Option<Label>,
}

impl View for Provenance {
    type V = ProvenanceFacts;

    open spec fn view(&self) -> ProvenanceFacts {
        ProvenanceFacts {
            actor: label_text(self.actor),
            source: label_text(self.source),
            correlation: label_text(self.correlation),
        }
    }
}

impl Clone for Provenance {
    fn clone(&self) -> (copy: Self)
        ensures
            copy@ == self@,
    {
        Provenance {
            actor: clone_label(&self.actor),
            source: clone_label(&self.source),
            correlation: clone_label(&self.correlation),
        }
    }
}

impl Default for Provenance {
    fn default() -> (p: Self)
        ensures
            p@ == (ProvenanceFacts { actor: None, source: None, correlation: None }),
    {
        Provenance { actor: None, source: None, correlation: None }
    }
}

impl Provenance {
    /// Empty provenance.
    #[must_use]
    pub fn none() -> (p: Self)
        ensures
            p@ == (ProvenanceFacts { actor: None, source: None, correlation: None }),
    {
        Provenance { actor: None, source: None, correlation: None }
    }

    /// Sets the acting principal.
    pub fn with_actor(self, actor: &str) -> (r: Result<Self, DimensionError>)
        ensures
            match r {
                Ok(p) => dimensions::label_error(actor@) is None && p@ == (ProvenanceFacts {
                    actor: Some(actor@),
                    ..self@
                }),
                Err(e) => dimensions::label_error(actor@) == Some(e),
            },
    {
        match Label::new(actor) {
            Ok(label) => Ok(
                Provenance {
                    actor: Some(label),
                    source: self.source,
                    correlation: self.correlation,
                },
            ),
            Err(e) => Err(e),
        }
    }

    /// Sets the originating system.
    pub fn with_source(self, source: &str) -> (r: Result<Self, DimensionError>)
        ensures
            match r {
                Ok(p) => dimensions::label_error(source@) is None && p@ == (ProvenanceFacts {
                    source: Some(source@),
                    ..self@
                }),
                Err(e) => dimensions::label_error(source@) == Some(e),
            },
    {
        match Label::new(source) {
            Ok(label) => Ok(
                Provenance { actor: self.actor, source: Some(label), correlation: self.correlation },
            ),
            Err(e) => Err(e),
        }
    }

    /// Sets the correlation identifier.
    pub fn with_correlation(self, correlation: &str) -> (r: Result<Self, DimensionError>)
        ensures
            match r {
                Ok(p) => dimensions::label_error(correlation@) is None && p@ == (ProvenanceFacts {
                    correlation: Some(correlation@),
                    ..self@
                }),
                Err(e) => dimensions::label_error(correlation@) == Some(e),
            },
    {
        match Label::new(correlation) {
            Ok(label) => Ok(
                Provenance { actor: self.actor, source: self.source, correlation: Some(label) },
            ),
            Err(e) => Err(e),
        }
    }
}

impl Canonical for Provenance {
    open spec fn encoding(&self) -> Seq<u8> {
        provenance_encoding(self@)
    }

    fn encode(&self, w: &mut CanonicalWriter) {
        w.option(self.actor.as_ref());
        w.option(self.source.as_ref());
        w.option(self.correlation.as_ref());
        assert(w@ =~= old(w)@ + self.encoding());
    }
}

/// A document reference, as mathematics.
#[verifier::ext_equal]
pub struct DocumentFacts {
    /// Identifier of the document in its own system.
    pub id: Seq<char>,
    /// Content hash of the document, when the citing system holds one.
    pub content_hash: Option<Digest>,
}

/// The encoding of a document reference.
pub open spec fn document_encoding(d: DocumentFacts) -> Seq<u8> {
    canonical::text_bytes(d.id) + canonical::option_bytes(
        match d.content_hash {
            Some(h) => Some(h@),
            None => None,
        },
    )
}

/// A reference to the source document behind an entry.
///
/// Binding the document's content hash into the entry makes the link
/// tamper-evident: a document swapped after the fact no longer matches the
/// booking that cites it.
///
/// The hash is optional because the alternative is worse. Systems routinely
/// book against a document they hold only an identifier for — an invoice number
/// arriving on a message bus, a payment reference from a bank statement — and a
/// mandatory hash pushes those callers into inventing one, which produces a
/// commitment that looks cryptographic and verifies nothing. Leaving it absent
/// says exactly what is true: the entry names a document without vouching for
/// its contents. [`Self::is_verifiable`] distinguishes the two, and the presence
/// of the hash is itself part of the canonical encoding, so an unhashed
/// reference cannot later be passed off as a hashed one.
#[derive(Debug, PartialEq, Eq)]
pub struct DocumentRef {
    /// Identifier of the document in its own system.
    pub id: Label,
    /// Content hash of the document, when the citing system holds one.
    pub content_hash: Option<Digest>,
}

impl View for DocumentRef {
    type V = DocumentFacts;

    open spec fn view(&self) -> DocumentFacts {
        DocumentFacts { id: self.id@, content_hash: self.content_hash }
    }
}

impl Clone for DocumentRef {
    fn clone(&self) -> (copy: Self)
        ensures
            copy@ == self@,
    {
        DocumentRef { id: self.id.clone(), content_hash: self.content_hash }
    }
}

impl DocumentRef {
    /// Creates a document reference bound to the document's contents.
    ///
    /// # Errors
    ///
    /// Returns an error if `id` is not a valid label.
    pub fn new(id: &str, content_hash: Digest) -> (r: Result<Self, DimensionError>)
        ensures
            match r {
                Ok(d) => dimensions::label_error(id@) is None && d@ == (DocumentFacts {
                    id: id@,
                    content_hash: Some(content_hash),
                }),
                Err(e) => dimensions::label_error(id@) == Some(e),
            },
    {
        match Label::new(id) {
            Ok(label) => Ok(DocumentRef { id: label, content_hash: Some(content_hash) }),
            Err(e) => Err(e),
        }
    }

    /// Creates a reference that names a document without committing to it.
    ///
    /// Use when the identifier is all the citing system has. The entry records
    /// which document it relates to; it does not detect a change to that
    /// document.
    ///
    /// # Errors
    ///
    /// Returns an error if `id` is not a valid label.
    pub fn unverified(id: &str) -> (r: Result<Self, DimensionError>)
        ensures
            match r {
                Ok(d) => dimensions::label_error(id@) is None && d@ == (DocumentFacts {
                    id: id@,
                    content_hash: None,
                }),
                Err(e) => dimensions::label_error(id@) == Some(e),
            },
    {
        match Label::new(id) {
            Ok(label) => Ok(DocumentRef { id: label, content_hash: None }),
            Err(e) => Err(e),
        }
    }

    /// True when the reference carries a content hash.
    #[must_use]
    pub fn is_verifiable(&self) -> (r: bool)
        ensures
            r == (self@.content_hash is Some),
    {
        self.content_hash.is_some()
    }
}

impl Canonical for DocumentRef {
    open spec fn encoding(&self) -> Seq<u8> {
        document_encoding(self@)
    }

    fn encode(&self, w: &mut CanonicalWriter) {
        self.id.encode(w);
        w.option(self.content_hash.as_ref());
        assert(w@ =~= old(w)@ + self.encoding());
    }
}

// ── policy ──────────────────────────────────────────────────────────────────

/// Which currencies a ledger accepts.
#[derive(Debug, Clone, Copy, PartialEq, Eq, Structural)]
pub enum CurrencyPolicy {
    /// Any currency, balanced independently per currency.
    Multi,
    /// Exactly one currency.
    Single(Currency),
}

impl Default for CurrencyPolicy {
    fn default() -> (policy: Self)
        ensures
            policy is Multi,
    {
        CurrencyPolicy::Multi
    }
}

/// Ledger-wide validation settings, as mathematics.
#[verifier::ext_equal]
pub struct PolicyFacts {
    /// Accepted currencies.
    pub currency: CurrencyPolicy,
    /// Dimension axes every posting must carry.
    pub required: Seq<Seq<char>>,
    /// Largest permitted gap in days between booking date and value date.
    pub max_drift: Option<i64>,
}

/// The text of some labels.
pub open spec fn label_texts(labels: Seq<Label>) -> Seq<Seq<char>> {
    labels.map_values(|l: Label| l@)
}

/// Ledger-wide validation settings.
///
/// Everything here is off by default: a policy the caller did not ask for is a
/// rule they will discover by having a valid booking rejected.
#[derive(Debug)]
pub struct LedgerPolicy {
    /// Accepted currencies.
    pub currency: CurrencyPolicy,
    /// Dimension axes every posting must carry.
    ///
    /// Set this where the books cannot be kept without an attribution — a
    /// regulated activity, a mandate, a fund — so that an unattributed posting
    /// is rejected at the door rather than silently landing outside every
    /// grouping a report knows about. Discovering it later means restating.
    ///
    /// The engine checks presence, never the value: which values are legal is a
    /// question about your business, and one this crate has no way to answer.
    pub required_dimensions: Vec<Label>,
    /// Largest permitted gap in days between booking date and value date.
    pub max_value_date_drift_days: Option<i64>,
}

impl View for LedgerPolicy {
    type V = PolicyFacts;

    open spec fn view(&self) -> PolicyFacts {
        PolicyFacts {
            currency: self.currency,
            required: label_texts(self.required_dimensions@),
            max_drift: self.max_value_date_drift_days,
        }
    }
}

/// The policy that constrains nothing.
pub open spec fn no_policy() -> PolicyFacts {
    PolicyFacts { currency: CurrencyPolicy::Multi, required: Seq::empty(), max_drift: None }
}

impl Default for LedgerPolicy {
    fn default() -> (policy: Self)
        ensures
            policy@ == no_policy(),
    {
        LedgerPolicy::permissive()
    }
}

impl Clone for LedgerPolicy {
    fn clone(&self) -> (copy: Self)
        ensures
            copy@ == self@,
    {
        let mut required: Vec<Label> = Vec::with_capacity(self.required_dimensions.len());
        let mut i: usize = 0;
        while i < self.required_dimensions.len()
            invariant
                i <= self.required_dimensions@.len(),
                required@.len() == i,
                forall|k: int|
                    0 <= k < i ==> (#[trigger] required@[k])@ == self.required_dimensions@[k]@,
            decreases self.required_dimensions@.len() - i,
        {
            required.push(self.required_dimensions[i].clone());
            i += 1;
        }
        assert(label_texts(required@) =~= label_texts(self.required_dimensions@));
        LedgerPolicy {
            currency: self.currency,
            required_dimensions: required,
            max_value_date_drift_days: self.max_value_date_drift_days,
        }
    }
}

impl LedgerPolicy {
    /// A policy that constrains nothing.
    #[must_use]
    pub fn permissive() -> (policy: Self)
        ensures
            policy@ == no_policy(),
    {
        let policy = LedgerPolicy {
            currency: CurrencyPolicy::Multi,
            required_dimensions: Vec::new(),
            max_value_date_drift_days: None,
        };
        assert(policy@ =~= no_policy());
        policy
    }

    /// Restricts the ledger to one currency.
    #[must_use]
    pub fn in_currency(self, currency: Currency) -> (policy: Self)
        ensures
            policy@ == (PolicyFacts { currency: CurrencyPolicy::Single(currency), ..self@ }),
    {
        let mut policy = self;
        policy.currency = CurrencyPolicy::Single(currency);
        policy
    }

    /// Requires `axis` on every posting.
    #[must_use]
    pub fn requiring(self, axis: Label) -> (policy: Self)
        ensures
            policy@ == (PolicyFacts {
                required: if self@.required.contains(axis@) {
                    self@.required
                } else {
                    self@.required.push(axis@)
                },
                ..self@
            }),
    {
        let mut i: usize = 0;
        while i < self.required_dimensions.len()
            invariant
                i <= self.required_dimensions@.len(),
                forall|k: int| 0 <= k < i ==> #[trigger] self@.required[k] != axis@,
            decreases self.required_dimensions@.len() - i,
        {
            if self.required_dimensions[i].same(&axis) {
                assert(self@.required[i as int] == axis@);
                return self;
            }
            i += 1;
        }
        let ghost before = self@;
        let mut policy = self;
        policy.required_dimensions.push(axis);
        assert(policy@.required =~= before.required.push(axis@));
        policy
    }

    /// Bounds how far a value date may sit from its booking date.
    #[must_use]
    pub fn with_max_value_date_drift(self, days: i64) -> (policy: Self)
        ensures
            policy@ == (PolicyFacts { max_drift: Some(days), ..self@ }),
    {
        let mut policy = self;
        policy.max_value_date_drift_days = Some(days);
        policy
    }
}

/// Everything validation needs to check an entry.
#[derive(Debug, Clone, Copy)]
pub struct SealContext<'a> {
    /// The accounts the entry may reference.
    pub accounts: &'a AccountRegistry,
    /// The period calendar governing booking dates.
    pub calendar: &'a PeriodCalendar,
    /// Ledger-wide policy.
    pub policy: &'a LedgerPolicy,
}

// ── violations ──────────────────────────────────────────────────────────────

/// A reason an entry fails validation, as mathematics.
#[verifier::ext_equal]
pub enum Violation {
    /// Fewer than two postings.
    TooFewPostings { count: int },
    /// More postings than a posting position can address.
    TooManyPostings { count: int },
    /// A posting carried a zero amount.
    ZeroAmount { index: int },
    /// A posting carried a negative amount.
    NegativeAmount { index: int },
    /// A posting referenced an account that is not registered.
    UnknownAccount { index: int, account: AccountId },
    /// A posting targeted an aggregation node rather than a leaf.
    NonLeafAccount { index: int, account: AccountId },
    /// A posting fell outside its account's open window.
    AccountNotOpen { index: int, account: AccountId, on: Date },
    /// Debits and credits did not match for a currency.
    Unbalanced { currency: Seq<u8>, debits: int, credits: int, difference: int, scale: int },
    /// The booking date fell in a period that no longer accepts postings.
    ClosedPeriod { on: Date, state: PeriodState },
    /// A currency outside the ledger's policy was used.
    CurrencyNotAllowed { currency: Seq<u8> },
    /// A posting lacked a dimension the ledger's policy requires.
    MissingDimension { index: int, axis: Seq<char> },
    /// The value date was too far from the booking date.
    ValueDateDrift { booking: Date, value: Date, max_days: int },
    /// Accumulating the postings overflowed.
    Overflow { currency: Seq<u8> },
}

/// A single reason an entry failed validation.
#[derive(Debug, PartialEq, Eq)]
#[non_exhaustive]
pub enum ValidationError {
    /// Fewer than two postings.
    TooFewPostings {
        /// Number of postings supplied.
        count: usize,
    },
    /// More postings than a posting position can address.
    TooManyPostings {
        /// Number of postings supplied.
        count: usize,
    },
    /// A posting carried a zero amount.
    ZeroAmount {
        /// Index of the offending posting.
        index: usize,
    },
    /// A posting carried a negative amount.
    NegativeAmount {
        /// Index of the offending posting.
        index: usize,
    },
    /// A posting referenced an account that is not registered.
    UnknownAccount {
        /// Index of the offending posting.
        index: usize,
        /// The account referenced.
        account: AccountId,
    },
    /// A posting targeted an aggregation node rather than a leaf.
    NonLeafAccount {
        /// Index of the offending posting.
        index: usize,
        /// The account referenced.
        account: AccountId,
    },
    /// A posting fell outside its account's open window.
    AccountNotOpen {
        /// Index of the offending posting.
        index: usize,
        /// The account referenced.
        account: AccountId,
        /// The booking date.
        on: Date,
    },
    /// Debits and credits did not match for a currency.
    ///
    /// Amounts are reported in minor units at `scale`, so the variant stays
    /// independent of the entry's compile-time precision.
    Unbalanced {
        /// The currency that failed to balance.
        currency: Currency,
        /// Gross debits, in minor units.
        debits_minor: i64,
        /// Gross credits, in minor units.
        credits_minor: i64,
        /// Debits less credits, in minor units.
        difference_minor: i64,
        /// Decimal places the minor units are expressed in.
        scale: u8,
    },
    /// The booking date fell in a period that no longer accepts postings.
    ClosedPeriod {
        /// The booking date.
        on: Date,
        /// The state of the period covering it.
        state: PeriodState,
    },
    /// A currency outside the ledger's policy was used.
    CurrencyNotAllowed {
        /// The offending currency.
        currency: Currency,
    },
    /// A posting lacked a dimension the ledger's policy requires.
    MissingDimension {
        /// Index of the offending posting.
        index: usize,
        /// The axis the policy requires.
        axis: Label,
    },
    /// The value date was too far from the booking date.
    ValueDateDrift {
        /// The booking date.
        booking: Date,
        /// The value date.
        value: Date,
        /// The configured maximum.
        max_days: i64,
    },
    /// Accumulating the postings overflowed.
    Overflow {
        /// The currency being accumulated.
        currency: Currency,
    },
}

impl View for ValidationError {
    type V = Violation;

    open spec fn view(&self) -> Violation {
        match *self {
            ValidationError::TooFewPostings { count } => Violation::TooFewPostings {
                count: count as int,
            },
            ValidationError::TooManyPostings { count } => Violation::TooManyPostings {
                count: count as int,
            },
            ValidationError::ZeroAmount { index } => Violation::ZeroAmount { index: index as int },
            ValidationError::NegativeAmount { index } => Violation::NegativeAmount {
                index: index as int,
            },
            ValidationError::UnknownAccount { index, account } => Violation::UnknownAccount {
                index: index as int,
                account,
            },
            ValidationError::NonLeafAccount { index, account } => Violation::NonLeafAccount {
                index: index as int,
                account,
            },
            ValidationError::AccountNotOpen { index, account, on } => Violation::AccountNotOpen {
                index: index as int,
                account,
                on,
            },
            ValidationError::Unbalanced {
                currency,
                debits_minor,
                credits_minor,
                difference_minor,
                scale,
            } => Violation::Unbalanced {
                currency: currency@,
                debits: debits_minor as int,
                credits: credits_minor as int,
                difference: difference_minor as int,
                scale: scale as int,
            },
            ValidationError::ClosedPeriod { on, state } => Violation::ClosedPeriod { on, state },
            ValidationError::CurrencyNotAllowed { currency } => Violation::CurrencyNotAllowed {
                currency: currency@,
            },
            ValidationError::MissingDimension { index, axis } => Violation::MissingDimension {
                index: index as int,
                axis: axis@,
            },
            ValidationError::ValueDateDrift { booking, value, max_days } =>
                Violation::ValueDateDrift { booking, value, max_days: max_days as int },
            ValidationError::Overflow { currency } => Violation::Overflow { currency: currency@ },
        }
    }
}

/// What some validation errors say.
pub open spec fn violations_of(errors: Seq<ValidationError>) -> Seq<Violation> {
    errors.map_values(|e: ValidationError| e@)
}

/// Every reason an entry failed validation.
///
/// Validation reports all violations rather than the first. A caller repairing a
/// batch import should not discover its problems one round trip at a time.
#[derive(Debug, PartialEq, Eq)]
pub struct ValidationErrors {
    list: Vec<ValidationError>,
}

impl View for ValidationErrors {
    type V = Seq<Violation>;

    closed spec fn view(&self) -> Seq<Violation> {
        violations_of(self.list@)
    }
}

impl ValidationErrors {
    /// There is at least one violation.
    #[verifier::type_invariant]
    pub open spec fn is_failure(&self) -> bool {
        self@.len() > 0
    }

    /// The individual violations.
    #[must_use]
    pub fn errors(&self) -> (errors: &[ValidationError])
        ensures
            violations_of(errors@) == self@,
    {
        self.list.as_slice()
    }

    /// Number of violations.
    #[must_use]
    pub fn len(&self) -> (n: usize)
        ensures
            n == self@.len(),
            n > 0,
    {
        proof {
            use_type_invariant(self);
        }
        self.list.len()
    }

    /// Always false: this type is only constructed with at least one violation.
    #[must_use]
    pub fn is_empty(&self) -> (r: bool)
        ensures
            !r,
    {
        proof {
            use_type_invariant(self);
        }
        self.list.len() == 0
    }

    /// True when any violation matches `predicate`.
    #[must_use]
    pub fn any<F: Fn(&ValidationError) -> bool>(&self, predicate: F) -> (r: bool)
        requires
            forall|e: &ValidationError| #[trigger] predicate.requires((e,)),
        ensures
            r ==> exists|i: int|
                0 <= i < self@.len() && may_answer(predicate, #[trigger] self@[i], true),
            !r ==> forall|i: int|
                0 <= i < self@.len() ==> may_answer(predicate, #[trigger] self@[i], false),
    {
        let mut i: usize = 0;
        while i < self.list.len()
            invariant
                i <= self.list.len(),
                forall|e: &ValidationError| #[trigger] predicate.requires((e,)),
                forall|k: int|
                    0 <= k < i ==> may_answer(predicate, #[trigger] self@[k], false),
            decreases self.list.len() - i,
        {
            let answer = predicate(&self.list[i]);
            proof {
                let e = &self.list@[i as int];
                assert(e@ == self@[i as int]);
                assert(predicate.ensures((e,), answer));
                assert(may_answer(predicate, self@[i as int], answer));
            }
            if answer {
                return true;
            }
            i += 1;
        }
        false
    }
}

/// True when a predicate on errors can give this answer on a violation.
pub open spec fn may_answer<F: Fn(&ValidationError) -> bool>(
    predicate: F,
    violation: Violation,
    answer: bool,
) -> bool {
    exists|e: &ValidationError| e@ == violation && #[trigger] predicate.ensures((e,), answer)
}

/// Storage returned an entry whose bytes do not match the hash recorded with it.
#[derive(Debug, Clone, Copy, PartialEq, Eq)]
pub struct IntegrityError {
    /// The hash the store recorded when the entry was written.
    pub expected: Digest,
    /// The hash of what the store just returned.
    pub actual: Digest,
}

// ── entries ─────────────────────────────────────────────────────────────────

/// What an entry says, as mathematics.
#[verifier::ext_equal]
pub struct EntryFacts {
    /// The identifier.
    pub id: EntryId,
    /// The idempotency key.
    pub key: Seq<u8>,
    /// The booking date.
    pub booking_date: Date,
    /// The value date.
    pub value_date: Date,
    /// The description.
    pub description: Seq<char>,
    /// The postings.
    pub postings: Seq<posting::Movement>,
    /// The caller-defined kind, if one was set.
    pub kind: Option<Seq<char>>,
    /// Who recorded the entry.
    pub provenance: ProvenanceFacts,
    /// The source document, if one was attached.
    pub document: Option<DocumentFacts>,
    /// The entry this one reverses, if any.
    pub reverses: Option<EntryId>,
    /// The booking date of the entry being reversed.
    pub original_booking_date: Option<Date>,
}

/// True when every field of an entry is within its bounds.
pub open spec fn valid_entry(e: EntryFacts) -> bool {
    &&& key_fault(e.key) is None
    &&& description_fault(e.description) is None
    &&& forall|i: int|
        0 <= i < e.postings.len() ==> posting::valid_movement(#[trigger] e.postings[i])
    &&& label_or_none(e.kind)
    &&& label_or_none(e.provenance.actor)
    &&& label_or_none(e.provenance.source)
    &&& label_or_none(e.provenance.correlation)
    &&& e.document matches Some(d) ==> dimensions::label_error(d.id) is None
}

/// The encoding of what comes before an entry's postings.
pub open spec fn head_encoding(p: u8, e: EntryFacts) -> Seq<u8> {
    seq![p] + canonical::prefixed(e.key) + date::date_encoding(e.booking_date)
        + date::date_encoding(e.value_date) + canonical::text_bytes(e.description)
}

/// The encoding of an entry's postings.
pub open spec fn postings_encoding(postings: Seq<posting::Movement>) -> Seq<u8> {
    canonical::counted(postings.map_values(|m: posting::Movement| posting::movement_encoding(m)))
}

/// The encoding of what comes after an entry's postings.
pub open spec fn tail_encoding(e: EntryFacts) -> Seq<u8> {
    label_option(e.kind) + provenance_encoding(e.provenance) + canonical::option_bytes(
        match e.document {
            Some(d) => Some(document_encoding(d)),
            None => None,
        },
    ) + canonical::option_bytes(
        match e.reverses {
            Some(id) => Some(ident::uuid_bytes(id.value)),
            None => None,
        },
    ) + canonical::option_bytes(
        match e.original_booking_date {
            Some(d) => Some(date::date_encoding(d)),
            None => None,
        },
    )
}

/// The encoding of an entry at precision `p`: everything but its identifier.
pub open spec fn entry_encoding(p: u8, e: EntryFacts) -> Seq<u8> {
    head_encoding(p, e) + postings_encoding(e.postings) + tail_encoding(e)
}

/// The content hash of an entry at precision `p`.
pub open spec fn entry_hash(p: u8, e: EntryFacts) -> Digest {
    hash::tagged_hash(encode_utf8(tag::ENTRY_V1@), entry_encoding(p, e))
}

/// The bytes hashed for the content of an entry.
pub open spec fn entry_input(p: u8, e: EntryFacts) -> Seq<u8> {
    hash::tagged_preimage(encode_utf8(tag::ENTRY_V1@), entry_encoding(p, e))
}

/// What some postings say.
pub open spec fn movements<const P: u8>(postings: Seq<Posting<P>>) -> Seq<posting::Movement> {
    postings.map_values(|p: Posting<P>| p@)
}

/// An atomic, balanced collection of postings.
///
/// See the [module documentation](self) for what the `S` type parameter
/// guarantees.
#[derive(Debug, PartialEq, Eq)]
pub struct Entry<S: State, const P: u8> {
    id: EntryId,
    idempotency_key: IdempotencyKey,
    booking_date: Date,
    value_date: Date,
    description: Description,
    postings: Vec<Posting<P>>,
    kind: Option<Label>,
    provenance: Provenance,
    document: Option<DocumentRef>,
    reverses: Option<EntryId>,
    original_booking_date: Option<Date>,
    _state: PhantomData<S>,
}

impl<S: State, const P: u8> View for Entry<S, P> {
    type V = EntryFacts;

    closed spec fn view(&self) -> EntryFacts {
        EntryFacts {
            id: self.id,
            key: self.idempotency_key@,
            booking_date: self.booking_date,
            value_date: self.value_date,
            description: self.description@,
            postings: movements(self.postings@),
            kind: label_text(self.kind),
            provenance: self.provenance@,
            document: match self.document {
                Some(d) => Some(d@),
                None => None,
            },
            reverses: self.reverses,
            original_booking_date: self.original_booking_date,
        }
    }
}

impl<S: State, const P: u8> Entry<S, P> {
    /// Every field is within its bounds.
    #[verifier::type_invariant]
    pub open spec fn is_valid(&self) -> bool {
        valid_entry(self@)
    }
}

/// The facts of a fresh draft.
pub open spec fn fresh_draft(id: EntryId, key: Seq<u8>, booking_date: Date) -> EntryFacts {
    EntryFacts {
        id,
        key,
        booking_date,
        value_date: booking_date,
        description: Seq::empty(),
        postings: Seq::empty(),
        kind: None,
        provenance: ProvenanceFacts { actor: None, source: None, correlation: None },
        document: None,
        reverses: None,
        original_booking_date: None,
    }
}

impl<const P: u8> Entry<Draft, P> {
    /// Starts a new draft entry.
    ///
    /// The value date defaults to the booking date.
    #[must_use]
    pub fn new(id: EntryId, idempotency_key: IdempotencyKey, booking_date: Date) -> (draft: Self)
        ensures
            draft@ == fresh_draft(id, idempotency_key@, booking_date),
    {
        proof {
            use_type_invariant(&idempotency_key);
        }
        let postings: Vec<Posting<P>> = Vec::new();
        let description = Description::default();
        proof {
            use_type_invariant(&description);
            assert(movements(postings@) =~= Seq::empty());
        }
        Entry {
            id,
            idempotency_key,
            booking_date,
            value_date: booking_date,
            description,
            postings,
            kind: None,
            provenance: Provenance::none(),
            document: None,
            reverses: None,
            original_booking_date: None,
            _state: PhantomData,
        }
    }

    /// Adds a posting.
    #[must_use]
    pub fn post(self, posting: Posting<P>) -> (draft: Self)
        ensures
            draft@ == (EntryFacts { postings: self@.postings.push(posting@), ..self@ }),
    {
        proof {
            use_type_invariant(&self);
            use_type_invariant(&posting.dimensions);
            posting.dimensions.lemma_walk();
        }
        let mut postings = self.postings;
        let ghost before = movements(postings@);
        postings.push(posting);
        proof {
            assert(movements(postings@) =~= before.push(posting@));
        }
        Entry {
            id: self.id,
            idempotency_key: self.idempotency_key,
            booking_date: self.booking_date,
            value_date: self.value_date,
            description: self.description,
            postings,
            kind: self.kind,
            provenance: self.provenance,
            document: self.document,
            reverses: self.reverses,
            original_booking_date: self.original_booking_date,
            _state: PhantomData,
        }
    }

    /// Adds a debit to `account`.
    #[must_use]
    pub fn debit(self, account: AccountId, amount: Amount<P>, currency: Currency) -> (draft: Self)
        ensures
            draft@ == (EntryFacts {
                postings: self@.postings.push(
                    plain_movement(account, Direction::Debit, amount.minor as int, currency),
                ),
                ..self@
            }),
    {
        self.post(Posting::debit(account, amount, currency))
    }

    /// Adds a credit to `account`.
    #[must_use]
    pub fn credit(self, account: AccountId, amount: Amount<P>, currency: Currency) -> (draft: Self)
        ensures
            draft@ == (EntryFacts {
                postings: self@.postings.push(
                    plain_movement(account, Direction::Credit, amount.minor as int, currency),
                ),
                ..self@
            }),
    {
        self.post(Posting::credit(account, amount, currency))
    }

    /// Sets the value date.
    #[must_use]
    pub fn with_value_date(self, date: Date) -> (draft: Self)
        ensures
            draft@ == (EntryFacts { value_date: date, ..self@ }),
    {
        proof {
            use_type_invariant(&self);
        }
        let mut draft = self;
        draft.value_date = date;
        draft
    }

    /// Sets the description.
    #[must_use]
    pub fn with_description(self, description: Description) -> (draft: Self)
        ensures
            draft@ == (EntryFacts { description: description@, ..self@ }),
    {
        proof {
            use_type_invariant(&self);
            use_type_invariant(&description);
        }
        let mut draft = self;
        draft.description = description;
        draft
    }

    /// Tags the entry with a caller-defined kind.
    ///
    /// Entry-level, unlike dimensions, which describe a single posting. What an
    /// entry *is* — an invoice, a payment, an advance, a correction — belongs to
    /// the whole entry, and putting it on the postings would repeat it and permit
    /// two postings of one entry to disagree.
    ///
    /// Opaque to the engine: it is stored, hashed, indexed, and grouped by,
    /// never interpreted. No vocabulary ships with this crate.
    #[must_use]
    pub fn with_kind(self, kind: Label) -> (draft: Self)
        ensures
            draft@ == (EntryFacts { kind: Some(kind@), ..self@ }),
    {
        proof {
            use_type_invariant(&self);
            use_type_invariant(&kind);
        }
        let mut draft = self;
        draft.kind = Some(kind);
        draft
    }

    /// Sets the provenance.
    #[must_use]
    pub fn with_provenance(self, provenance: Provenance) -> (draft: Self)
        ensures
            draft@ == (EntryFacts { provenance: provenance@, ..self@ }),
    {
        provenance.check_labels();
        proof {
            use_type_invariant(&self);
        }
        let mut draft = self;
        draft.provenance = provenance;
        draft
    }

    /// Attaches a source document reference.
    #[must_use]
    pub fn with_document(self, document: DocumentRef) -> (draft: Self)
        ensures
            draft@ == (EntryFacts { document: Some(document@), ..self@ }),
    {
        proof {
            use_type_invariant(&self);
            use_type_invariant(&document.id);
        }
        let mut draft = self;
        draft.document = Some(document);
        draft
    }

    /// Marks this entry as reversing `original`, preserving its booking date.
    #[must_use]
    pub fn reversing(self, original: EntryId, original_booking_date: Date) -> (draft: Self)
        ensures
            draft@ == (EntryFacts {
                reverses: Some(original),
                original_booking_date: Some(original_booking_date),
                ..self@
            }),
    {
        proof {
            use_type_invariant(&self);
        }
        let mut draft = self;
        draft.reverses = Some(original);
        draft.original_booking_date = Some(original_booking_date);
        draft
    }

    /// Sets both reversal fields as they were read back from a record.
    #[must_use]
    pub fn with_reversal(
        self,
        reverses: Option<EntryId>,
        original_booking_date: Option<Date>,
    ) -> (draft: Self)
        ensures
            draft@ == (EntryFacts { reverses, original_booking_date, ..self@ }),
    {
        proof {
            use_type_invariant(&self);
        }
        let mut draft = self;
        draft.reverses = reverses;
        draft.original_booking_date = original_booking_date;
        draft
    }

    /// The same contents in the validated state.
    fn adopted(self) -> (entry: Entry<Balanced, P>)
        ensures
            entry@ == self@,
    {
        proof {
            use_type_invariant(&self);
        }
        Entry {
            id: self.id,
            idempotency_key: self.idempotency_key,
            booking_date: self.booking_date,
            value_date: self.value_date,
            description: self.description,
            postings: self.postings,
            kind: self.kind,
            provenance: self.provenance,
            document: self.document,
            reverses: self.reverses,
            original_booking_date: self.original_booking_date,
            _state: PhantomData,
        }
    }

    /// Adopts a draft as validated on the evidence of its content hash.
    ///
    /// For a backend rehydrating an entry **it wrote itself**. Re-running
    /// [`Entry::seal`] would be wrong here: validation is against the ledger's
    /// *current* accounts, calendar, and policy, so a historical entry would
    /// start failing the day its account closed or its period sealed — even
    /// though it was valid when written and must stay readable forever.
    ///
    /// Comparing the content hash is both safer and cheaper. It proves the bytes
    /// are exactly what passed validation originally, which re-validation does
    /// not: re-validation would accept a *different* entry that also happens to
    /// balance. A mismatch means the row was altered underneath the engine, and
    /// is reported rather than returned.
    ///
    /// # Errors
    ///
    /// Returns [`IntegrityError`] when the reconstructed entry does not hash to
    /// `expected`.
    pub fn adopt_verified(self, expected: Digest) -> (r: Result<Entry<Balanced, P>, IntegrityError>)
        ensures
            match r {
                Ok(entry) => entry@ == self@ && entry_hash(P, self@) == expected,
                Err(e) => {
                    &&& entry_hash(P, self@) != expected
                    &&& e.expected == expected
                    &&& e.actual == entry_hash(P, self@)
                },
            },
    {
        let actual = self.digest();
        if actual == expected {
            Ok(self.adopted())
        } else {
            Err(IntegrityError { expected, actual })
        }
    }
}

/// A settled movement without dimensions.
pub open spec fn plain_movement(
    account: AccountId,
    direction: Direction,
    minor: int,
    currency: Currency,
) -> posting::Movement {
    posting::Movement {
        account,
        direction,
        minor,
        currency,
        layer: posting::Layer::Settled,
        dimensions: Seq::empty(),
    }
}

impl Provenance {
    /// Every label set is one.
    fn check_labels(&self)
        ensures
            label_or_none(self@.actor),
            label_or_none(self@.source),
            label_or_none(self@.correlation),
    {
        if let Some(l) = &self.actor {
            proof {
                use_type_invariant(l);
            }
        }
        if let Some(l) = &self.source {
            proof {
                use_type_invariant(l);
            }
        }
        if let Some(l) = &self.correlation {
            proof {
                use_type_invariant(l);
            }
        }
    }
}

impl<S: State, const P: u8> Entry<S, P> {
    /// The content hash of these bytes, whatever state the entry is in.
    ///
    /// Deliberately not public. The hash of a *draft* proves only that the bytes
    /// are what they are; publishing it would hand a caller the one input
    /// [`Entry::adopt_verified`] needs, turning a check that the bytes already
    /// passed validation into a check that they hash to their own hash.
    ///
    /// Inside the crate it has one honest use: deciding idempotency before
    /// validation runs, so a safe retry cannot trip a rule the original
    /// submission already passed.
    pub(crate) fn digest(&self) -> (h: Digest)
        ensures
            h == entry_hash(P, self@),
            valid_entry(self@),
    {
        proof {
            use_type_invariant(self);
        }
        tagged(tag::ENTRY_V1.as_bytes(), self.to_canonical_bytes().as_slice())
    }

    /// The entry's identifier.
    #[must_use]
    pub fn id(&self) -> (id: EntryId)
        ensures
            id == self@.id,
    {
        self.id
    }

    /// The idempotency key.
    #[must_use]
    pub fn idempotency_key(&self) -> (key: &IdempotencyKey)
        ensures
            key@ == self@.key,
    {
        &self.idempotency_key
    }

    /// The booking date.
    #[must_use]
    pub fn booking_date(&self) -> (date: Date)
        ensures
            date == self@.booking_date,
    {
        self.booking_date
    }

    /// The value date.
    #[must_use]
    pub fn value_date(&self) -> (date: Date)
        ensures
            date == self@.value_date,
    {
        self.value_date
    }

    /// The description.
    #[must_use]
    pub fn description(&self) -> (description: &Description)
        ensures
            description@ == self@.description,
    {
        &self.description
    }

    /// The postings.
    #[must_use]
    pub fn postings(&self) -> (postings: &[Posting<P>])
        ensures
            movements(postings@) == self@.postings,
            postings@.len() == self@.postings.len(),
            forall|i: int|
                0 <= i < postings@.len() ==> (#[trigger] postings@[i])@ == self@.postings[i],
    {
        self.postings.as_slice()
    }

    /// The caller-defined kind, if one was set.
    #[must_use]
    pub fn kind(&self) -> (kind: Option<&Label>)
        ensures
            match kind {
                Some(label) => self@.kind == Some(label@),
                None => self@.kind is None,
            },
    {
        self.kind.as_ref()
    }

    /// Who recorded the entry.
    #[must_use]
    pub fn provenance(&self) -> (provenance: &Provenance)
        ensures
            provenance@ == self@.provenance,
    {
        &self.provenance
    }

    /// The source document, if one was attached.
    #[must_use]
    pub fn document(&self) -> (document: Option<&DocumentRef>)
        ensures
            match document {
                Some(d) => self@.document == Some(d@),
                None => self@.document is None,
            },
    {
        self.document.as_ref()
    }

    /// The entry this one reverses, if any.
    #[must_use]
    pub fn reverses(&self) -> (id: Option<EntryId>)
        ensures
            id == self@.reverses,
    {
        self.reverses
    }

    /// The booking date of the entry being reversed.
    ///
    /// Set when a correction to a sealed period is booked in a later open
    /// period; the original date is retained so the correction can still be
    /// attributed to the period it economically belongs to.
    #[must_use]
    pub fn original_booking_date(&self) -> (date: Option<Date>)
        ensures
            date == self@.original_booking_date,
    {
        self.original_booking_date
    }
}

/// Copies some postings.
pub(crate) fn clone_postings<const P: u8>(postings: &Vec<Posting<P>>) -> (copy: Vec<Posting<P>>)
    ensures
        movements(copy@) == movements(postings@),
{
    let mut copy: Vec<Posting<P>> = Vec::with_capacity(postings.len());
    let mut i: usize = 0;
    while i < postings.len()
        invariant
            i <= postings.len(),
            copy@.len() == i,
            forall|k: int| 0 <= k < i ==> (#[trigger] copy@[k])@ == postings@[k]@,
        decreases postings.len() - i,
    {
        copy.push(postings[i].clone());
        i += 1;
    }
    assert(movements(copy@) =~= movements(postings@));
    copy
}

impl<S: State, const P: u8> Clone for Entry<S, P> {
    fn clone(&self) -> (copy: Self)
        ensures
            copy@ == self@,
    {
        proof {
            use_type_invariant(self);
        }
        Entry {
            id: self.id,
            idempotency_key: self.idempotency_key.clone(),
            booking_date: self.booking_date,
            value_date: self.value_date,
            description: self.description.clone(),
            postings: clone_postings(&self.postings),
            kind: clone_label(&self.kind),
            provenance: self.provenance.clone(),
            document: match &self.document {
                Some(d) => Some(d.clone()),
                None => None,
            },
            reverses: self.reverses,
            original_booking_date: self.original_booking_date,
            _state: PhantomData,
        }
    }
}

/// The encoding does not depend on the type state: a draft and the balanced
/// entry it seals into are the same bytes. Only the *use* of those bytes
/// differs, which is why [`Entry::content_hash`] is offered on the balanced form
/// alone.
impl<S: State, const P: u8> Canonical for Entry<S, P> {
    open spec fn encoding(&self) -> Seq<u8> {
        entry_encoding(P, self@)
    }

    fn encode(&self, w: &mut CanonicalWriter) {
        self.encode_head(w);
        w.seq(self.postings.as_slice());
        self.encode_tail(w);
        proof {
            assert(canonical::encodings(self.postings@) =~= self@.postings.map_values(
                |m: posting::Movement| posting::movement_encoding(m),
            ));
            assert(w@ =~= old(w)@ + self.encoding());
        }
    }
}

impl<S: State, const P: u8> Entry<S, P> {
    fn encode_head(&self, w: &mut CanonicalWriter)
        ensures
            final(w)@ == old(w)@ + head_encoding(P, self@),
    {
        w.u8(P);
        w.bytes(self.idempotency_key.as_bytes());
        self.booking_date.encode(w);
        self.value_date.encode(w);
        w.str(self.description.as_str());
        assert(w@ =~= old(w)@ + head_encoding(P, self@));
    }

    fn encode_tail(&self, w: &mut CanonicalWriter)
        ensures
            final(w)@ == old(w)@ + tail_encoding(self@),
    {
        w.option(self.kind.as_ref());
        self.provenance.encode(w);
        w.option(self.document.as_ref());
        w.option(self.reverses.as_ref());
        w.option(self.original_booking_date.as_ref());
        assert(w@ =~= old(w)@ + tail_encoding(self@));
    }
}

// ── validation ──────────────────────────────────────────────────────────────

/// The gross totals of a currency, zero where nothing has moved in it.
pub open spec fn total_in<const P: u8>(totals: Map<Seq<u8>, Balance<P>>, code: Seq<u8>) -> Balance<
    P,
> {
    if totals.contains_key(code) {
        totals[code]
    } else {
        balance::zero_balance::<P>()
    }
}

/// Gross totals per currency code. A movement that overflows its side is left
/// out of the totals.
pub open spec fn tally<const P: u8>(postings: Seq<posting::Movement>) -> Map<Seq<u8>, Balance<P>>
    decreases postings.len(),
{
    if postings.len() == 0 {
        Map::empty()
    } else {
        let before = tally::<P>(postings.drop_last());
        let m = postings.last();
        let total = total_in(before, m.currency@);
        before.insert(
            m.currency@,
            match balance::moved(total, m.direction, m.minor) {
                Ok(after) => after,
                Err(_) => total,
            },
        )
    }
}

/// True when adding posting `i` to the totals of those before it overflows.
pub open spec fn overflows_at<const P: u8>(postings: Seq<posting::Movement>, i: int) -> bool {
    let m = postings[i];
    balance::moved(
        total_in(tally::<P>(postings.take(i)), m.currency@),
        m.direction,
        m.minor,
    ) is Err
}

/// What is wrong with the number of postings.
pub open spec fn count_faults(count: int) -> Seq<Violation> {
    if count < 2 {
        seq![Violation::TooFewPostings { count }]
    } else if count > MAX_POSTINGS {
        seq![Violation::TooManyPostings { count }]
    } else {
        Seq::empty()
    }
}

/// What is wrong with the amount of a posting.
pub open spec fn amount_faults(m: posting::Movement, index: int) -> Seq<Violation> {
    if m.minor == 0 {
        seq![Violation::ZeroAmount { index }]
    } else if m.minor < 0 {
        seq![Violation::NegativeAmount { index }]
    } else {
        Seq::empty()
    }
}

/// What is wrong with the account of a posting on a booking date.
pub open spec fn account_faults(
    m: posting::Movement,
    index: int,
    accounts: Seq<account::AccountFacts>,
    on: Date,
) -> Seq<Violation> {
    let at = m.account.position as int;
    if at >= accounts.len() {
        seq![Violation::UnknownAccount { index, account: m.account }]
    } else {
        (if account::is_leaf_at(accounts, at) {
            Seq::empty()
        } else {
            seq![Violation::NonLeafAccount { index, account: m.account }]
        }) + (if account::open_on(accounts[at], on@) {
            Seq::empty()
        } else {
            seq![Violation::AccountNotOpen { index, account: m.account, on }]
        })
    }
}

/// What is wrong with the currency of a posting.
pub open spec fn currency_faults(m: posting::Movement, policy: CurrencyPolicy) -> Seq<Violation> {
    match policy {
        CurrencyPolicy::Single(allowed) => if m.currency == allowed {
            Seq::empty()
        } else {
            seq![Violation::CurrencyNotAllowed { currency: m.currency@ }]
        },
        CurrencyPolicy::Multi => Seq::empty(),
    }
}

/// The required axes that a posting lacks.
pub open spec fn dimension_faults(
    m: posting::Movement,
    index: int,
    required: Seq<Seq<char>>,
) -> Seq<Violation>
    decreases required.len(),
{
    if required.len() == 0 {
        Seq::empty()
    } else {
        let before = dimension_faults(m, index, required.drop_last());
        if dimensions::has_axis(m.dimensions, required.last()) {
            before
        } else {
            before.push(Violation::MissingDimension { index, axis: required.last() })
        }
    }
}

/// The overflow, if any, that posting `i` brings.
pub open spec fn overflow_faults<const P: u8>(postings: Seq<posting::Movement>, i: int) -> Seq<
    Violation,
> {
    if overflows_at::<P>(postings, i) {
        seq![Violation::Overflow { currency: postings[i].currency@ }]
    } else {
        Seq::empty()
    }
}

/// What is wrong with posting `i`.
pub open spec fn posting_faults<const P: u8>(
    e: EntryFacts,
    i: int,
    accounts: Seq<account::AccountFacts>,
    policy: PolicyFacts,
) -> Seq<Violation> {
    let m = e.postings[i];
    amount_faults(m, i) + account_faults(m, i, accounts, e.booking_date) + currency_faults(
        m,
        policy.currency,
    ) + dimension_faults(m, i, policy.required) + overflow_faults::<P>(e.postings, i)
}

/// What is wrong with the first `n` postings.
pub open spec fn postings_faults<const P: u8>(
    e: EntryFacts,
    n: int,
    accounts: Seq<account::AccountFacts>,
    policy: PolicyFacts,
) -> Seq<Violation>
    decreases n,
{
    if n <= 0 {
        Seq::empty()
    } else {
        postings_faults::<P>(e, n - 1, accounts, policy) + posting_faults::<P>(
            e,
            n - 1,
            accounts,
            policy,
        )
    }
}

/// The nearest `i64` to an integer.
pub open spec fn clamped(v: int) -> int {
    if v < i64::MIN {
        i64::MIN as int
    } else if v > i64::MAX {
        i64::MAX as int
    } else {
        v
    }
}

/// The currencies, among `codes`, whose totals do not balance.
pub open spec fn imbalance_faults<const P: u8>(
    totals: Map<Seq<u8>, Balance<P>>,
    codes: Seq<Seq<u8>>,
) -> Seq<Violation>
    decreases codes.len(),
{
    if codes.len() == 0 {
        Seq::empty()
    } else {
        let before = imbalance_faults(totals, codes.drop_last());
        let total = totals[codes.last()];
        if total.debits.minor == total.credits.minor {
            before
        } else {
            before.push(
                Violation::Unbalanced {
                    currency: codes.last(),
                    debits: total.debits.minor as int,
                    credits: total.credits.minor as int,
                    difference: clamped(total.debits.minor - total.credits.minor),
                    scale: P as int,
                },
            )
        }
    }
}

/// What is wrong with the booking date.
pub open spec fn period_faults(on: Date, state: PeriodState) -> Seq<Violation> {
    if state is Open {
        Seq::empty()
    } else {
        seq![Violation::ClosedPeriod { on, state }]
    }
}

/// What is wrong with the distance of the value date from the booking date.
pub open spec fn drift_faults(booking: Date, value: Date, max_drift: Option<i64>) -> Seq<Violation> {
    match max_drift {
        Some(max_days) => {
            let drift = if value@ >= booking@ {
                value@ - booking@
            } else {
                booking@ - value@
            };
            if drift > max_days {
                seq![Violation::ValueDateDrift { booking, value, max_days: max_days as int }]
            } else {
                Seq::empty()
            }
        },
        None => Seq::empty(),
    }
}

/// Every reason an entry fails validation, in the order they are reported.
pub open spec fn faults<const P: u8>(
    e: EntryFacts,
    accounts: Seq<account::AccountFacts>,
    periods: Map<Seq<char>, period::PeriodFacts>,
    policy: PolicyFacts,
) -> Seq<Violation> {
    let totals = tally::<P>(e.postings);
    count_faults(e.postings.len() as int) + postings_faults::<P>(
        e,
        e.postings.len() as int,
        accounts,
        policy,
    ) + imbalance_faults(totals, ordered::sorted_keys::<Currency, Balance<P>>(totals))
        + period_faults(
        e.booking_date,
        period::governing_state(periods, e.booking_date@),
    ) + drift_faults(e.booking_date, e.value_date, policy.max_drift)
}

proof fn lemma_push_violation(errors: Seq<ValidationError>, e: ValidationError)
    ensures
        violations_of(errors.push(e)) == violations_of(errors).push(e@),
{
    assert(violations_of(errors.push(e)) =~= violations_of(errors).push(e@));
}

/// Records one more violation.
fn report(errors: &mut Vec<ValidationError>, e: ValidationError)
    ensures
        violations_of(final(errors)@) == violations_of(old(errors)@) + seq![e@],
{
    proof {
        lemma_push_violation(errors@, e);
    }
    errors.push(e);
    assert(violations_of(errors@) =~= violations_of(old(errors)@) + seq![e@]);
}

fn check_amount<const P: u8>(posting: &Posting<P>, index: usize, errors: &mut Vec<ValidationError>)
    ensures
        violations_of(final(errors)@) == violations_of(old(errors)@) + amount_faults(
            posting@,
            index as int,
        ),
{
    if posting.amount.is_zero() {
        report(errors, ValidationError::ZeroAmount { index });
    } else if posting.amount.is_negative() {
        report(errors, ValidationError::NegativeAmount { index });
    } else {
        assert(violations_of(errors@) =~= violations_of(errors@) + Seq::<Violation>::empty());
    }
}

fn check_account<const P: u8>(
    posting: &Posting<P>,
    index: usize,
    accounts: &AccountRegistry,
    on: Date,
    errors: &mut Vec<ValidationError>,
)
    requires
        accounts.wf(),
    ensures
        violations_of(final(errors)@) == violations_of(old(errors)@) + account_faults(
            posting@,
            index as int,
            accounts@,
            on,
        ),
{
    match accounts.get(posting.account) {
        None => {
            report(errors, ValidationError::UnknownAccount { index, account: posting.account });
        },
        Some(account) => {
            if !accounts.is_leaf(posting.account) {
                report(errors, ValidationError::NonLeafAccount { index, account: posting.account });
            }
            if !account.is_open_on(on) {
                report(
                    errors,
                    ValidationError::AccountNotOpen { index, account: posting.account, on },
                );
            }
        },
    }
    assert(violations_of(errors@) =~= violations_of(old(errors)@) + account_faults(
        posting@,
        index as int,
        accounts@,
        on,
    ));
}

fn check_currency<const P: u8>(
    posting: &Posting<P>,
    policy: CurrencyPolicy,
    errors: &mut Vec<ValidationError>,
)
    ensures
        violations_of(final(errors)@) == violations_of(old(errors)@) + currency_faults(
            posting@,
            policy,
        ),
{
    match policy {
        CurrencyPolicy::Single(allowed) => {
            if posting.currency != allowed {
                report(errors, ValidationError::CurrencyNotAllowed { currency: posting.currency });
            }
        },
        CurrencyPolicy::Multi => {},
    }
    assert(violations_of(errors@) =~= violations_of(old(errors)@) + currency_faults(
        posting@,
        policy,
    ));
}

fn check_dimensions<const P: u8>(
    posting: &Posting<P>,
    index: usize,
    required: &Vec<Label>,
    errors: &mut Vec<ValidationError>,
)
    ensures
        violations_of(final(errors)@) == violations_of(old(errors)@) + dimension_faults(
            posting@,
            index as int,
            label_texts(required@),
        ),
{
    let ghost axes = label_texts(required@);
    let mut i: usize = 0;
    proof {
        assert(axes.take(0) =~= Seq::empty());
        assert(violations_of(errors@) =~= violations_of(errors@) + dimension_faults(
            posting@,
            index as int,
            axes.take(0),
        ));
    }
    while i < required.len()
        invariant
            i <= required.len(),
            axes == label_texts(required@),
            violations_of(errors@) == violations_of(old(errors)@) + dimension_faults(
                posting@,
                index as int,
                axes.take(i as int),
            ),
        decreases required.len() - i,
    {
        proof {
            assert(axes.take(i + 1).drop_last() =~= axes.take(i as int));
            assert(axes.take(i + 1).last() == required@[i as int]@);
        }
        if !posting.dimensions.contains(required[i].as_str()) {
            report(errors, ValidationError::MissingDimension { index, axis: required[i].clone() });
            assert(violations_of(errors@) =~= violations_of(old(errors)@) + dimension_faults(
                posting@,
                index as int,
                axes.take(i + 1),
            ));
        }
        i += 1;
    }
    assert(axes.take(axes.len() as int) =~= axes);
}

/// Adds a posting to the totals of its currency. False when that overflows,
/// which leaves the total as it was.
fn accumulate<const P: u8>(
    totals: &mut SortedMap<Currency, Balance<P>>,
    posting: &Posting<P>,
) -> (fits: bool)
    ensures
        ({
            let m = posting@;
            let total = total_in(old(totals)@, m.currency@);
            match balance::moved(total, m.direction, m.minor) {
                Ok(after) => fits && final(totals)@ == old(totals)@.insert(m.currency@, after),
                Err(_) => !fits && final(totals)@ == old(totals)@.insert(m.currency@, total),
            }
        }),
{
    let mut total: Balance<P> = match totals.get(&posting.currency) {
        Some(total) => *total,
        None => Balance::zero(),
    };
    let fits = total.add(posting.direction, posting.amount).is_ok();
    totals.insert(posting.currency, total);
    fits
}

fn check_overflow<const P: u8>(
    totals: &mut SortedMap<Currency, Balance<P>>,
    postings: &Vec<Posting<P>>,
    index: usize,
    errors: &mut Vec<ValidationError>,
)
    requires
        index < postings@.len(),
        old(totals)@ == tally::<P>(movements(postings@).take(index as int)),
    ensures
        final(totals)@ == tally::<P>(movements(postings@).take(index + 1)),
        violations_of(final(errors)@) == violations_of(old(errors)@) + overflow_faults::<P>(
            movements(postings@),
            index as int,
        ),
{
    let ghost all = movements(postings@);
    proof {
        assert(all.take(index + 1).drop_last() =~= all.take(index as int));
        assert(all.take(index + 1).last() == postings@[index as int]@);
    }
    if !accumulate(totals, &postings[index]) {
        report(errors, ValidationError::Overflow { currency: postings[index].currency });
    }
    assert(violations_of(errors@) =~= violations_of(old(errors)@) + overflow_faults::<P>(
        all,
        index as int,
    ));
}

fn check_balances<const P: u8>(
    totals: &SortedMap<Currency, Balance<P>>,
    errors: &mut Vec<ValidationError>,
)
    ensures
        violations_of(final(errors)@) == violations_of(old(errors)@) + imbalance_faults(
            totals@,
            ordered::sorted_keys::<Currency, Balance<P>>(totals@),
        ),
{
    let n: usize = totals.len();
    let ghost codes = totals.keys();
    proof {
        totals.lemma_keys_are_sorted();
        totals.lemma_sequences();
        assert(codes.take(0) =~= Seq::empty());
        assert(violations_of(errors@) =~= violations_of(errors@) + imbalance_faults(
            totals@,
            codes.take(0),
        ));
    }
    let mut i: usize = 0;
    while i < n
        invariant
            i <= n,
            n == codes.len(),
            n == totals.values().len(),
            codes == totals.keys(),
            forall|k: int|
                0 <= k < n ==> totals@.contains_key(#[trigger] totals.keys()[k])
                    && totals@[totals.keys()[k]] == totals.values()[k],
            violations_of(errors@) == violations_of(old(errors)@) + imbalance_faults(
                totals@,
                codes.take(i as int),
            ),
        decreases n - i,
    {
        let total: Balance<P> = *totals.value_at(i);
        let currency: Currency = *totals.key_at(i);
        proof {
            assert(codes.take(i + 1).drop_last() =~= codes.take(i as int));
            assert(codes.take(i + 1).last() == currency@);
            assert(totals@[totals.keys()[i as int]] == total);
        }
        if !total.is_balanced() {
            let debits_minor: i64 = total.debits.to_minor();
            let credits_minor: i64 = total.credits.to_minor();
            report(
                errors,
                ValidationError::Unbalanced {
                    currency,
                    debits_minor,
                    credits_minor,
                    difference_minor: saturating_difference(debits_minor, credits_minor),
                    scale: P,
                },
            );
            assert(violations_of(errors@) =~= violations_of(old(errors)@) + imbalance_faults(
                totals@,
                codes.take(i + 1),
            ));
        }
        i += 1;
    }
    assert(codes.take(codes.len() as int) =~= codes);
}

/// `a - b`, or the nearest `i64` to it.
fn saturating_difference(a: i64, b: i64) -> (d: i64)
    ensures
        d == clamped(a - b),
{
    let d: i128 = a as i128 - b as i128;
    if d < i64::MIN as i128 {
        i64::MIN
    } else if d > i64::MAX as i128 {
        i64::MAX
    } else {
        d as i64
    }
}

impl<const P: u8> Entry<Draft, P> {
    /// Runs every invariant and produces a validated entry.
    ///
    /// # Errors
    ///
    /// Returns every violation found, not merely the first.
    pub fn seal(self, ctx: &SealContext<'_>) -> (r: Result<Entry<Balanced, P>, ValidationErrors>)
        requires
            ctx.accounts.wf(),
            ctx.calendar.wf(),
        ensures
            ({
                let found = faults::<P>(self@, ctx.accounts@, ctx.calendar@, ctx.policy@);
                match r {
                    Ok(entry) => found.len() == 0 && entry@ == self@,
                    Err(errors) => found.len() > 0 && errors@ == found,
                }
            }),
    {
        let mut errors: Vec<ValidationError> = Vec::new();
        let count: usize = self.postings.len();
        if count < 2 {
            report(&mut errors, ValidationError::TooFewPostings { count });
        }
        if count > MAX_POSTINGS {
            report(&mut errors, ValidationError::TooManyPostings { count });
        }
        let ghost head = count_faults(count as int);
        assert(violations_of(errors@) =~= head);

        // Per-currency gross totals; ordered so error reporting is deterministic.
        let mut totals: SortedMap<Currency, Balance<P>> = SortedMap::new();
        let mut index: usize = 0;
        assert(self@.postings.take(0) =~= Seq::empty());
        assert(head =~= head + postings_faults::<P>(self@, 0, ctx.accounts@, ctx.policy@));
        while index < count
            invariant
                index <= count,
                count == self.postings@.len(),
                ctx.accounts.wf(),
                totals@ == tally::<P>(self@.postings.take(index as int)),
                violations_of(errors@) == head + postings_faults::<P>(
                    self@,
                    index as int,
                    ctx.accounts@,
                    ctx.policy@,
                ),
            decreases count - index,
        {
            let ghost before = violations_of(errors@);
            let posting = &self.postings[index];
            let ghost m = posting@;
            check_amount(posting, index, &mut errors);
            check_account(posting, index, ctx.accounts, self.booking_date, &mut errors);
            check_currency(posting, ctx.policy.currency, &mut errors);
            check_dimensions(posting, index, &ctx.policy.required_dimensions, &mut errors);
            check_overflow(&mut totals, &self.postings, index, &mut errors);
            proof {
                assert(self@.postings[index as int] == m);
                let found = posting_faults::<P>(self@, index as int, ctx.accounts@, ctx.policy@);
                assert(violations_of(errors@) =~= before + found);
                assert(before + found =~= head + (postings_faults::<P>(
                    self@,
                    index as int,
                    ctx.accounts@,
                    ctx.policy@,
                ) + found));
            }
            index += 1;
        }
        assert(self@.postings.take(count as int) =~= self@.postings);
        check_balances(&totals, &mut errors);

        let state = ctx.calendar.state_on(self.booking_date);
        if !state.accepts_postings() {
            report(&mut errors, ValidationError::ClosedPeriod { on: self.booking_date, state });
        }
        if let Some(max_days) = ctx.policy.max_value_date_drift_days {
            let booking: i64 = self.booking_date.to_julian_day() as i64;
            let value: i64 = self.value_date.to_julian_day() as i64;
            let drift: i64 = if value >= booking {
                value - booking
            } else {
                booking - value
            };
            if drift > max_days {
                report(
                    &mut errors,
                    ValidationError::ValueDateDrift {
                        booking: self.booking_date,
                        value: self.value_date,
                        max_days,
                    },
                );
            }
        }
        assert(violations_of(errors@) =~= faults::<P>(
            self@,
            ctx.accounts@,
            ctx.calendar@,
            ctx.policy@,
        ));
        if errors.len() == 0 {
            Ok(self.adopted())
        } else {
            Err(ValidationErrors { list: errors })
        }
    }
}

/// Gross totals per currency, or the overflow of the first posting that does not
/// fit.
pub open spec fn totals_of<const P: u8>(postings: Seq<posting::Movement>) -> Result<
    Map<Seq<u8>, Balance<P>>,
    MoneyError,
>
    decreases postings.len(),
{
    if postings.len() == 0 {
        Ok(Map::empty())
    } else {
        match totals_of::<P>(postings.drop_last()) {
            Err(e) => Err(e),
            Ok(before) => {
                let m = postings.last();
                match balance::moved(total_in(before, m.currency@), m.direction, m.minor) {
                    Ok(after) => Ok(before.insert(m.currency@, after)),
                    Err(e) => Err(e),
                }
            },
        }
    }
}

proof fn lemma_totals_error<const P: u8>(postings: Seq<posting::Movement>, k: int)
    requires
        0 <= k <= postings.len(),
        totals_of::<P>(postings.take(k)) is Err,
    ensures
        totals_of::<P>(postings) == totals_of::<P>(postings.take(k)),
    decreases postings.len(),
{
    if k == postings.len() {
        assert(postings.take(k) =~= postings);
    } else {
        assert(postings.drop_last().take(k) =~= postings.take(k));
        lemma_totals_error::<P>(postings.drop_last(), k);
    }
}

/// The postings that undo some postings: every side flipped, in order.
pub open spec fn inverted(postings: Seq<posting::Movement>) -> Seq<posting::Movement> {
    postings.map_values(|m: posting::Movement| posting::flipped(m))
}

/// The facts of a draft that reverses an entry.
pub open spec fn reversal_of(
    original: EntryFacts,
    id: EntryId,
    key: Seq<u8>,
    booking_date: Date,
) -> EntryFacts {
    EntryFacts {
        description: original.description,
        postings: inverted(original.postings),
        reverses: Some(original.id),
        original_booking_date: Some(original.booking_date),
        ..fresh_draft(id, key, booking_date)
    }
}

impl<const P: u8> Entry<Balanced, P> {
    /// The entry's content hash.
    ///
    /// Covers everything semantic, including provenance, dimensions, and the
    /// document reference. The identifier is deliberately excluded: it is
    /// storage metadata, and two submissions of the same logical transaction
    /// must hash identically for idempotency to be decidable.
    ///
    /// The consequence is worth being explicit about, since it bounds what
    /// [`Entry::adopt_verified`] establishes: the hash binds an entry's
    /// *contents*, not which row they were read out of. Two entries cannot
    /// nonetheless share one — the idempotency key is inside the preimage and
    /// unique across the ledger — so the hash still identifies an entry in
    /// practice. It is the key, not the identifier, that makes it so.
    #[must_use]
    pub fn content_hash(&self) -> (h: Digest)
        ensures
            h == entry_hash(P, self@),
            valid_entry(self@),
    {
        self.digest()
    }

    /// Gross debit and credit totals per currency.
    ///
    /// Every currency present is balanced; this reports the volume that moved.
    pub fn totals(&self) -> (r: Result<SortedMap<Currency, Balance<P>>, MoneyError>)
        ensures
            match r {
                Ok(totals) => totals_of::<P>(self@.postings) == Ok::<
                    Map<Seq<u8>, Balance<P>>,
                    MoneyError,
                >(totals@),
                Err(e) => totals_of::<P>(self@.postings) == Err::<
                    Map<Seq<u8>, Balance<P>>,
                    MoneyError,
                >(e),
            },
    {
        let mut out: SortedMap<Currency, Balance<P>> = SortedMap::new();
        let mut i: usize = 0;
        let ghost all = self@.postings;
        assert(all.take(0) =~= Seq::empty());
        while i < self.postings.len()
            invariant
                i <= self.postings.len(),
                all == self@.postings,
                totals_of::<P>(all.take(i as int)) == Ok::<Map<Seq<u8>, Balance<P>>, MoneyError>(
                    out@,
                ),
            decreases self.postings.len() - i,
        {
            let posting = &self.postings[i];
            proof {
                assert(all.take(i + 1).drop_last() =~= all.take(i as int));
                assert(all.take(i + 1).last() == posting@);
            }
            if !accumulate(&mut out, posting) {
                proof {
                    lemma_totals_error::<P>(all, i + 1);
                }
                return Err(MoneyError::Overflow);
            }
            i += 1;
        }
        assert(all.take(all.len() as int) =~= all);
        Ok(out)
    }

    /// Builds a draft that reverses this entry.
    ///
    /// Every posting's side is flipped and its magnitude preserved, so no
    /// arithmetic is performed and no overflow is possible. The reversal must
    /// still be sealed, which is where the target period is checked: a
    /// correction to a sealed period books into a later open one, never into
    /// the sealed period itself.
    ///
    /// Provenance and kind are deliberately **not** inherited. A correction is a
    /// new act by whoever made it, and it is not an invoice merely because the
    /// entry it reverses was one. Set both on the returned draft.
    #[must_use]
    pub fn reverse(&self, id: EntryId, key: IdempotencyKey, booking_date: Date) -> (draft: Entry<
        Draft,
        P,
    >)
        ensures
            draft@ == reversal_of(self@, id, key@, booking_date),
    {
        let mut draft = Entry::<Draft, P>::new(id, key, booking_date).with_description(
            self.description.clone(),
        ).reversing(self.id, self.booking_date);
        let ghost whole = reversal_of(self@, id, key@, booking_date);
        let mut i: usize = 0;
        assert(whole.postings.take(0) =~= Seq::empty());
        while i < self.postings.len()
            invariant
                i <= self.postings.len(),
                whole == reversal_of(self@, id, key@, booking_date),
                draft@ == (EntryFacts { postings: whole.postings.take(i as int), ..whole }),
            decreases self.postings.len() - i,
        {
            draft = draft.post(self.postings[i].inverted());
            assert(whole.postings.take(i + 1) =~= whole.postings.take(i as int).push(
                posting::flipped(self.postings@[i as int]@),
            ));
            i += 1;
        }
        assert(whole.postings.take(whole.postings.len() as int) =~= whole.postings);
        draft
    }
}

// ── what the content hash promises ──────────────────────────────────────────

/// True when two entries say the same, whatever their identifiers.
pub open spec fn same_contents(a: EntryFacts, b: EntryFacts) -> bool {
    b == (EntryFacts { id: b.id, ..a })
}

proof fn lemma_label_option_unambiguous(
    a: Option<Seq<char>>,
    b: Option<Seq<char>>,
    x: Seq<u8>,
    y: Seq<u8>,
)
    requires
        label_or_none(a),
        label_or_none(b),
        label_option(a) + x == label_option(b) + y,
    ensures
        a == b,
        x == y,
{
    let payload = |text: Option<Seq<char>>|
        match text {
            Some(t) => Some(canonical::text_bytes(t)),
            None => None,
        };
    canonical::lemma_option_split(payload(a), payload(b), x, y);
    if a is Some {
        dimensions::lemma_label_unambiguous(a->0, b->0, x, y);
    }
}

proof fn lemma_regroup_three(a: Seq<u8>, b: Seq<u8>, c: Seq<u8>, rest: Seq<u8>)
    ensures
        a + b + c + rest == a + (b + (c + rest)),
{
    assert(a + b + c + rest =~= a + (b + (c + rest)));
}

proof fn lemma_provenance_unambiguous(
    a: ProvenanceFacts,
    b: ProvenanceFacts,
    x: Seq<u8>,
    y: Seq<u8>,
)
    requires
        label_or_none(a.actor),
        label_or_none(a.source),
        label_or_none(a.correlation),
        label_or_none(b.actor),
        label_or_none(b.source),
        label_or_none(b.correlation),
        provenance_encoding(a) + x == provenance_encoding(b) + y,
    ensures
        a == b,
        x == y,
{
    let (ca, cb) = (label_option(a.correlation), label_option(b.correlation));
    let (sa, sb) = (label_option(a.source), label_option(b.source));
    let (aa, ab) = (label_option(a.actor), label_option(b.actor));
    lemma_regroup_three(aa, sa, ca, x);
    lemma_regroup_three(ab, sb, cb, y);
    lemma_label_option_unambiguous(a.actor, b.actor, sa + (ca + x), sb + (cb + y));
    lemma_label_option_unambiguous(a.source, b.source, ca + x, cb + y);
    lemma_label_option_unambiguous(a.correlation, b.correlation, x, y);
}

proof fn lemma_document_unambiguous(a: DocumentFacts, b: DocumentFacts, x: Seq<u8>, y: Seq<u8>)
    requires
        dimensions::label_error(a.id) is None,
        dimensions::label_error(b.id) is None,
        document_encoding(a) + x == document_encoding(b) + y,
    ensures
        a == b,
        x == y,
{
    let payload = |d: DocumentFacts|
        match d.content_hash {
            Some(h) => Some(h@),
            None => None,
        };
    let (ha, hb) = (
        canonical::option_bytes(payload(a)),
        canonical::option_bytes(payload(b)),
    );
    assert(document_encoding(a) + x =~= canonical::text_bytes(a.id) + (ha + x));
    assert(document_encoding(b) + y =~= canonical::text_bytes(b.id) + (hb + y));
    dimensions::lemma_label_unambiguous(a.id, b.id, ha + x, hb + y);
    canonical::lemma_option_split(payload(a), payload(b), x, y);
    if a.content_hash is Some {
        canonical::lemma_split_at((a.content_hash->0)@, (b.content_hash->0)@, x, y);
        hash::lemma_hash_bytes_determine(a.content_hash->0, b.content_hash->0);
    }
}

spec fn document_payload(e: EntryFacts) -> Option<Seq<u8>> {
    match e.document {
        Some(d) => Some(document_encoding(d)),
        None => None,
    }
}

spec fn reverses_payload(e: EntryFacts) -> Option<Seq<u8>> {
    match e.reverses {
        Some(id) => Some(ident::uuid_bytes(id.value)),
        None => None,
    }
}

spec fn original_payload(e: EntryFacts) -> Option<Seq<u8>> {
    match e.original_booking_date {
        Some(d) => Some(date::date_encoding(d)),
        None => None,
    }
}

spec fn after_document(e: EntryFacts) -> Seq<u8> {
    canonical::option_bytes(reverses_payload(e)) + canonical::option_bytes(original_payload(e))
}

spec fn after_provenance(e: EntryFacts) -> Seq<u8> {
    canonical::option_bytes(document_payload(e)) + after_document(e)
}

spec fn after_kind(e: EntryFacts) -> Seq<u8> {
    provenance_encoding(e.provenance) + after_provenance(e)
}

proof fn lemma_regroup(a: Seq<u8>, b: Seq<u8>, c: Seq<u8>, d: Seq<u8>, e: Seq<u8>)
    ensures
        a + b + c + d + e == a + (b + (c + (d + e))),
{
    assert(a + b + c + d + e =~= a + (b + (c + (d + e))));
}

proof fn lemma_tail_parts(e: EntryFacts)
    ensures
        tail_encoding(e) == label_option(e.kind) + after_kind(e),
{
    lemma_regroup(
        label_option(e.kind),
        provenance_encoding(e.provenance),
        canonical::option_bytes(document_payload(e)),
        canonical::option_bytes(reverses_payload(e)),
        canonical::option_bytes(original_payload(e)),
    );
}

proof fn lemma_corrections_unambiguous(a: EntryFacts, b: EntryFacts)
    requires
        after_document(a) == after_document(b),
    ensures
        a.reverses == b.reverses,
        a.original_booking_date == b.original_booking_date,
{
    let (oa, ob) = (
        canonical::option_bytes(original_payload(a)),
        canonical::option_bytes(original_payload(b)),
    );
    canonical::lemma_option_split(reverses_payload(a), reverses_payload(b), oa, ob);
    if a.reverses is Some {
        let (ia, ib) = ((a.reverses->0).value, (b.reverses->0).value);
        ident::lemma_uuid_bytes(ia, ib);
        ident::lemma_uuid_bytes(ib, ia);
        canonical::lemma_split_at(ident::uuid_bytes(ia), ident::uuid_bytes(ib), oa, ob);
    }
    let none = Seq::<u8>::empty();
    assert(oa + none =~= oa);
    assert(ob + none =~= ob);
    canonical::lemma_option_split(original_payload(a), original_payload(b), none, none);
    if a.original_booking_date is Some {
        date::lemma_date_unambiguous(
            a.original_booking_date->0,
            b.original_booking_date->0,
            none,
            none,
        );
    }
}

proof fn lemma_tail_unambiguous(a: EntryFacts, b: EntryFacts)
    requires
        valid_entry(a),
        valid_entry(b),
        tail_encoding(a) == tail_encoding(b),
    ensures
        a.kind == b.kind,
        a.provenance == b.provenance,
        a.document == b.document,
        a.reverses == b.reverses,
        a.original_booking_date == b.original_booking_date,
{
    lemma_tail_parts(a);
    lemma_tail_parts(b);
    lemma_label_option_unambiguous(a.kind, b.kind, after_kind(a), after_kind(b));
    lemma_provenance_unambiguous(
        a.provenance,
        b.provenance,
        after_provenance(a),
        after_provenance(b),
    );
    canonical::lemma_option_split(
        document_payload(a),
        document_payload(b),
        after_document(a),
        after_document(b),
    );
    if a.document is Some {
        lemma_document_unambiguous(
            a.document->0,
            b.document->0,
            after_document(a),
            after_document(b),
        );
    }
    lemma_corrections_unambiguous(a, b);
}

spec fn after_precision(e: EntryFacts, rest: Seq<u8>) -> Seq<u8> {
    canonical::prefixed(e.key) + (date::date_encoding(e.booking_date) + (date::date_encoding(
        e.value_date,
    ) + (canonical::text_bytes(e.description) + rest)))
}

proof fn lemma_head_parts(p: u8, e: EntryFacts, rest: Seq<u8>)
    ensures
        head_encoding(p, e) + rest == seq![p] + after_precision(e, rest),
{
    let (k, b, v, d) = (
        canonical::prefixed(e.key),
        date::date_encoding(e.booking_date),
        date::date_encoding(e.value_date),
        canonical::text_bytes(e.description),
    );
    lemma_regroup(seq![p], k, b, v, d);
    lemma_regroup_rest(seq![p], k, b, v, d, rest);
}

proof fn lemma_regroup_rest(
    a: Seq<u8>,
    b: Seq<u8>,
    c: Seq<u8>,
    d: Seq<u8>,
    e: Seq<u8>,
    rest: Seq<u8>,
)
    ensures
        a + b + c + d + e + rest == a + (b + (c + (d + (e + rest)))),
{
    assert(a + b + c + d + e + rest =~= a + (b + (c + (d + (e + rest)))));
}

proof fn lemma_head_unambiguous(p: u8, a: EntryFacts, x: Seq<u8>, q: u8, b: EntryFacts, y: Seq<u8>)
    requires
        valid_entry(a),
        valid_entry(b),
        head_encoding(p, a) + x == head_encoding(q, b) + y,
    ensures
        p == q,
        a.key == b.key,
        a.booking_date == b.booking_date,
        a.value_date == b.value_date,
        a.description == b.description,
        x == y,
{
    lemma_head_parts(p, a, x);
    lemma_head_parts(q, b, y);
    canonical::lemma_split_at(seq![p], seq![q], after_precision(a, x), after_precision(b, y));
    assert(seq![p][0] == seq![q][0]);
    let (da, db) = (
        canonical::text_bytes(a.description) + x,
        canonical::text_bytes(b.description) + y,
    );
    let (va, vb) = (
        date::date_encoding(a.value_date) + da,
        date::date_encoding(b.value_date) + db,
    );
    canonical::lemma_prefixed_unambiguous(
        a.key,
        b.key,
        date::date_encoding(a.booking_date) + va,
        date::date_encoding(b.booking_date) + vb,
    );
    date::lemma_date_unambiguous(a.booking_date, b.booking_date, va, vb);
    date::lemma_date_unambiguous(a.value_date, b.value_date, da, db);
    canonical::lemma_utf8_len(a.description);
    canonical::lemma_utf8_len(b.description);
    canonical::lemma_text_unambiguous(a.description, b.description, x, y);
}

proof fn lemma_postings_unambiguous(
    a: Seq<posting::Movement>,
    b: Seq<posting::Movement>,
    x: Seq<u8>,
    y: Seq<u8>,
)
    requires
        a.len() <= u32::MAX,
        b.len() <= u32::MAX,
        forall|i: int| 0 <= i < a.len() ==> posting::valid_movement(#[trigger] a[i]),
        forall|i: int| 0 <= i < b.len() ==> posting::valid_movement(#[trigger] b[i]),
        postings_encoding(a) + x == postings_encoding(b) + y,
    ensures
        a == b,
        x == y,
{
    let f = |m: posting::Movement| posting::movement_encoding(m);
    let ok = |m: posting::Movement| posting::valid_movement(m);
    assert forall|t: posting::Movement, u: posting::Movement, p: Seq<u8>, q: Seq<u8>|
        ok(t) && ok(u) && #[trigger] (f(t) + p) == #[trigger] (f(u) + q) implies t == u && p
        == q by {
        posting::lemma_movement_unambiguous(t, u, p, q);
    }
    canonical::lemma_counted_unambiguous(a, b, f, ok, x, y);
}

/// The canonical encoding of an entry determines everything but its identifier:
/// different contents never encode alike.
pub proof fn law_encoding_determines_contents(p: u8, a: EntryFacts, q: u8, b: EntryFacts)
    requires
        valid_entry(a),
        valid_entry(b),
        a.postings.len() <= u32::MAX,
        b.postings.len() <= u32::MAX,
        entry_encoding(p, a) == entry_encoding(q, b),
    ensures
        p == q,
        same_contents(a, b),
{
    let (ta, tb) = (tail_encoding(a), tail_encoding(b));
    let (pa, pb) = (postings_encoding(a.postings), postings_encoding(b.postings));
    assert(entry_encoding(p, a) =~= head_encoding(p, a) + (pa + ta));
    assert(entry_encoding(q, b) =~= head_encoding(q, b) + (pb + tb));
    lemma_head_unambiguous(p, a, pa + ta, q, b, pb + tb);
    lemma_postings_unambiguous(a.postings, b.postings, ta, tb);
    lemma_tail_unambiguous(a, b);
}

/// The content hash binds an entry's contents: two entries share one only if
/// they agree on every field but the identifier.
pub proof fn law_content_hash_binds_contents(p: u8, a: EntryFacts, q: u8, b: EntryFacts)
    requires
        valid_entry(a),
        valid_entry(b),
        a.postings.len() <= u32::MAX,
        b.postings.len() <= u32::MAX,
        entry_hash(p, a) == entry_hash(q, b),
        hash::collision_free(set![entry_input(p, a), entry_input(q, b)]),
    ensures
        p == q,
        same_contents(a, b),
{
    let t = encode_utf8(tag::ENTRY_V1@);
    reveal_strlit("doubleentry/entry/v1");
    assert(is_ascii_chars(tag::ENTRY_V1@));
    is_ascii_chars_encode_utf8(tag::ENTRY_V1@);
    hash::lemma_tagged_hash_binds(
        t,
        entry_encoding(p, a),
        t,
        entry_encoding(q, b),
        set![entry_input(p, a), entry_input(q, b)],
    );
    law_encoding_determines_contents(p, a, q, b);
}

/// The identifier is no part of the content: two submissions of one logical
/// transaction hash alike.
pub proof fn law_content_hash_ignores_identifier(p: u8, a: EntryFacts, b: EntryFacts)
    requires
        same_contents(a, b),
    ensures
        entry_hash(p, a) == entry_hash(p, b),
{
}

// ── what validation promises ────────────────────────────────────────────────

/// The sum of what moved on one side in one currency.
pub open spec fn side_sum(
    postings: Seq<posting::Movement>,
    code: Seq<u8>,
    side: Direction,
) -> int
    decreases postings.len(),
{
    if postings.len() == 0 {
        0
    } else {
        let m = postings.last();
        side_sum(postings.drop_last(), code, side) + if m.currency@ == code && m.direction
            == side {
            m.minor
        } else {
            0
        }
    }
}

/// True when debits equal credits in every currency.
pub open spec fn balances(postings: Seq<posting::Movement>) -> bool {
    forall|code: Seq<u8>|
        #[trigger] side_sum(postings, code, Direction::Debit) == side_sum(
            postings,
            code,
            Direction::Credit,
        )
}

/// The signed sum of what moved under one key, debit positive.
pub open spec fn net_of(postings: Seq<posting::Movement>, key: balance::BalanceKey) -> int
    decreases postings.len(),
{
    if postings.len() == 0 {
        0
    } else {
        let m = postings.last();
        net_of(postings.drop_last(), key) + if balance::key_of_movement(m) == key {
            match m.direction {
                Direction::Debit => m.minor,
                Direction::Credit => -m.minor,
            }
        } else {
            0
        }
    }
}

proof fn lemma_no_faults_below<const P: u8>(
    e: EntryFacts,
    n: int,
    i: int,
    accounts: Seq<account::AccountFacts>,
    policy: PolicyFacts,
)
    requires
        0 <= i < n,
        postings_faults::<P>(e, n, accounts, policy).len() == 0,
    ensures
        posting_faults::<P>(e, i, accounts, policy).len() == 0,
    decreases n,
{
    if i < n - 1 {
        lemma_no_faults_below::<P>(e, n - 1, i, accounts, policy);
    }
}

/// Without overflow the tally holds the sums of both sides.
proof fn lemma_tally_sums<const P: u8>(postings: Seq<posting::Movement>, code: Seq<u8>)
    requires
        forall|i: int| 0 <= i < postings.len() ==> !#[trigger] overflows_at::<P>(postings, i),
    ensures
        total_in(tally::<P>(postings), code).debits.minor == side_sum(
            postings,
            code,
            Direction::Debit,
        ),
        total_in(tally::<P>(postings), code).credits.minor == side_sum(
            postings,
            code,
            Direction::Credit,
        ),
        side_sum(postings, code, Direction::Debit) != 0 || side_sum(
            postings,
            code,
            Direction::Credit,
        ) != 0 ==> tally::<P>(postings).contains_key(code),
    decreases postings.len(),
{
    if postings.len() > 0 {
        let rest = postings.drop_last();
        assert forall|i: int| 0 <= i < rest.len() implies !#[trigger] overflows_at::<P>(
            rest,
            i,
        ) by {
            assert(rest.take(i) =~= postings.take(i));
            assert(!overflows_at::<P>(postings, i));
        }
        lemma_tally_sums::<P>(rest, code);
        assert(!overflows_at::<P>(postings, postings.len() - 1));
        assert(postings.take(postings.len() - 1) =~= rest);
    }
}

proof fn lemma_no_imbalance<const P: u8>(
    totals: Map<Seq<u8>, Balance<P>>,
    codes: Seq<Seq<u8>>,
    k: int,
)
    requires
        imbalance_faults(totals, codes).len() == 0,
        0 <= k < codes.len(),
    ensures
        totals[codes[k]].debits.minor == totals[codes[k]].credits.minor,
    decreases codes.len(),
{
    if k < codes.len() - 1 {
        lemma_no_imbalance(totals, codes.drop_last(), k);
    }
}

/// A validated entry balances: in every currency its debits equal its credits.
/// It has at least two postings and no more than a position can address, every
/// amount is positive, and every posting targets a registered leaf that is open
/// on the booking date, which lies in no closed period.
pub proof fn law_validated_entries_balance<const P: u8>(
    e: EntryFacts,
    accounts: Seq<account::AccountFacts>,
    periods: Map<Seq<char>, period::PeriodFacts>,
    policy: PolicyFacts,
)
    requires
        faults::<P>(e, accounts, periods, policy).len() == 0,
    ensures
        balances(e.postings),
        2 <= e.postings.len() <= MAX_POSTINGS,
        forall|i: int|
            0 <= i < e.postings.len() ==> {
                let m = #[trigger] e.postings[i];
                let at = m.account.position as int;
                &&& m.minor > 0
                &&& at < accounts.len()
                &&& account::is_leaf_at(accounts, at)
                &&& account::open_on(accounts[at], e.booking_date@)
            },
        period::governing_state(periods, e.booking_date@) is Open,
{
    let n = e.postings.len() as int;
    let totals = tally::<P>(e.postings);
    let codes = ordered::sorted_keys::<Currency, Balance<P>>(totals);
    assert(count_faults(n).len() == 0);
    assert(postings_faults::<P>(e, n, accounts, policy).len() == 0);
    assert(imbalance_faults(totals, codes).len() == 0);
    assert forall|i: int| 0 <= i < n implies {
        let m = #[trigger] e.postings[i];
        let at = m.account.position as int;
        &&& m.minor > 0
        &&& at < accounts.len()
        &&& account::is_leaf_at(accounts, at)
        &&& account::open_on(accounts[at], e.booking_date@)
        &&& !overflows_at::<P>(e.postings, i)
    } by {
        lemma_no_faults_below::<P>(e, n, i, accounts, policy);
        let m = e.postings[i];
        assert(amount_faults(m, i).len() == 0);
        assert(account_faults(m, i, accounts, e.booking_date).len() == 0);
        assert(overflow_faults::<P>(e.postings, i).len() == 0);
    }
    assert forall|i: int| 0 <= i < n implies !#[trigger] overflows_at::<P>(e.postings, i) by {
        let m = e.postings[i];
    }
    lemma_tally_is_listed::<P>(e.postings);
    assert forall|code: Seq<u8>|
        #[trigger] side_sum(e.postings, code, Direction::Debit) == side_sum(
            e.postings,
            code,
            Direction::Credit,
        ) by {
        lemma_tally_sums::<P>(e.postings, code);
        if totals.contains_key(code) {
            assert(codes.contains(code));
            let k = choose|k: int| 0 <= k < codes.len() && codes[k] == code;
            lemma_no_imbalance(totals, codes, k);
        }
    }
}

/// True when a posting is acceptable by itself: it moves a positive amount on a
/// registered leaf that is open on the booking date, in a currency the policy
/// accepts, along every axis the policy requires.
pub open spec fn sound_posting(
    m: posting::Movement,
    on: Date,
    accounts: Seq<account::AccountFacts>,
    policy: PolicyFacts,
) -> bool {
    let at = m.account.position as int;
    &&& m.minor > 0
    &&& at < accounts.len()
    &&& account::is_leaf_at(accounts, at)
    &&& account::open_on(accounts[at], on@)
    &&& policy.currency matches CurrencyPolicy::Single(allowed) ==> m.currency == allowed
    &&& forall|k: int|
        0 <= k < policy.required.len() ==> dimensions::has_axis(
            m.dimensions,
            #[trigger] policy.required[k],
        )
}

/// True when an entry may be recorded: its postings are acceptable, there are
/// enough of them and not too many, they balance in totals that fit, and both
/// dates are where they may be.
pub open spec fn sound_entry(
    e: EntryFacts,
    accounts: Seq<account::AccountFacts>,
    periods: Map<Seq<char>, period::PeriodFacts>,
    policy: PolicyFacts,
) -> bool {
    &&& 2 <= e.postings.len() <= MAX_POSTINGS
    &&& forall|i: int|
        0 <= i < e.postings.len() ==> sound_posting(
            #[trigger] e.postings[i],
            e.booking_date,
            accounts,
            policy,
        )
    &&& balances(e.postings)
    &&& forall|code: Seq<u8>| #[trigger]
        side_sum(e.postings, code, Direction::Debit) <= i64::MAX
    &&& period::governing_state(periods, e.booking_date@) is Open
    &&& policy.max_drift matches Some(days) ==> -days <= e.value_date@ - e.booking_date@ <= days
}

proof fn lemma_dimension_faults(m: posting::Movement, index: int, required: Seq<Seq<char>>)
    ensures
        dimension_faults(m, index, required).len() == 0 <==> (forall|k: int|
            0 <= k < required.len() ==> dimensions::has_axis(
                m.dimensions,
                #[trigger] required[k],
            )),
    decreases required.len(),
{
    if required.len() > 0 {
        let rest = required.drop_last();
        lemma_dimension_faults(m, index, rest);
        assert forall|k: int| 0 <= k < rest.len() implies rest[k] == required[k] by {}
        if dimension_faults(m, index, required).len() == 0 {
            assert forall|k: int| 0 <= k < required.len() implies dimensions::has_axis(
                m.dimensions,
                #[trigger] required[k],
            ) by {
                if k < rest.len() {
                    assert(rest[k] == required[k]);
                }
            }
        } else if forall|k: int|
            0 <= k < required.len() ==> dimensions::has_axis(
                m.dimensions,
                #[trigger] required[k],
            ) {
            assert(dimensions::has_axis(m.dimensions, required[required.len() - 1]));
            assert forall|k: int| 0 <= k < rest.len() implies dimensions::has_axis(
                m.dimensions,
                #[trigger] rest[k],
            ) by {
                assert(rest[k] == required[k]);
            }
        }
    }
}

/// Sums of positive amounts only grow.
proof fn lemma_side_sum_grows(
    postings: Seq<posting::Movement>,
    k: int,
    code: Seq<u8>,
    side: Direction,
)
    requires
        0 <= k <= postings.len(),
        forall|i: int| 0 <= i < postings.len() ==> (#[trigger] postings[i]).minor > 0,
    ensures
        0 <= side_sum(postings.take(k), code, side) <= side_sum(postings, code, side),
    decreases postings.len(),
{
    if k == postings.len() {
        assert(postings.take(k) =~= postings);
        if k > 0 {
            let rest = postings.drop_last();
            lemma_side_sum_grows(rest, rest.len() as int, code, side);
            assert(rest.take(rest.len() as int) =~= rest);
        }
    } else {
        let rest = postings.drop_last();
        lemma_side_sum_grows(rest, k, code, side);
        assert(rest.take(k) =~= postings.take(k));
    }
}

/// Totals that fit in the end fit all along.
proof fn lemma_no_overflow<const P: u8>(postings: Seq<posting::Movement>, n: int)
    requires
        0 <= n <= postings.len(),
        forall|i: int| 0 <= i < postings.len() ==> (#[trigger] postings[i]).minor > 0,
        balances(postings),
        forall|code: Seq<u8>| #[trigger]
            side_sum(postings, code, Direction::Debit) <= i64::MAX,
    ensures
        forall|i: int| 0 <= i < n ==> !#[trigger] overflows_at::<P>(postings, i),
    decreases n,
{
    if n > 0 {
        lemma_no_overflow::<P>(postings, n - 1);
        let before = postings.take(n - 1);
        let m = postings[n - 1];
        assert forall|i: int| 0 <= i < before.len() implies !#[trigger] overflows_at::<P>(
            before,
            i,
        ) by {
            assert(before.take(i) =~= postings.take(i));
            assert(!overflows_at::<P>(postings, i));
        }
        lemma_tally_sums::<P>(before, m.currency@);
        let more = postings.take(n);
        assert(more.drop_last() =~= before);
        lemma_side_sum_grows(postings, n, m.currency@, Direction::Debit);
        lemma_side_sum_grows(postings, n, m.currency@, Direction::Credit);
        lemma_side_sum_grows(postings, n - 1, m.currency@, Direction::Debit);
        lemma_side_sum_grows(postings, n - 1, m.currency@, Direction::Credit);
        assert(side_sum(postings, m.currency@, Direction::Debit) == side_sum(
            postings,
            m.currency@,
            Direction::Credit,
        ));
        assert(!overflows_at::<P>(postings, n - 1));
    }
}

proof fn lemma_no_posting_faults<const P: u8>(
    e: EntryFacts,
    n: int,
    accounts: Seq<account::AccountFacts>,
    policy: PolicyFacts,
)
    requires
        forall|i: int|
            0 <= i < n ==> (#[trigger] posting_faults::<P>(e, i, accounts, policy)).len() == 0,
    ensures
        postings_faults::<P>(e, n, accounts, policy).len() == 0,
    decreases n,
{
    if n > 0 {
        lemma_no_posting_faults::<P>(e, n - 1, accounts, policy);
        assert(posting_faults::<P>(e, n - 1, accounts, policy).len() == 0);
    }
}

proof fn lemma_all_balance<const P: u8>(
    totals: Map<Seq<u8>, Balance<P>>,
    codes: Seq<Seq<u8>>,
)
    requires
        forall|k: int|
            0 <= k < codes.len() ==> totals[#[trigger] codes[k]].debits.minor
                == totals[codes[k]].credits.minor,
    ensures
        imbalance_faults(totals, codes).len() == 0,
    decreases codes.len(),
{
    if codes.len() > 0 {
        let rest = codes.drop_last();
        assert forall|k: int| 0 <= k < rest.len() implies totals[#[trigger] rest[k]].debits.minor
            == totals[rest[k]].credits.minor by {
            assert(rest[k] == codes[k]);
        }
        lemma_all_balance(totals, rest);
        assert(codes.last() == codes[codes.len() - 1]);
    }
}

/// Validation accepts exactly the entries that may be recorded: it refuses none
/// of them, and nothing else passes.
pub proof fn law_validation_accepts_sound_entries<const P: u8>(
    e: EntryFacts,
    accounts: Seq<account::AccountFacts>,
    periods: Map<Seq<char>, period::PeriodFacts>,
    policy: PolicyFacts,
)
    ensures
        faults::<P>(e, accounts, periods, policy).len() == 0 <==> sound_entry(
            e,
            accounts,
            periods,
            policy,
        ),
{
    let n = e.postings.len() as int;
    let totals = tally::<P>(e.postings);
    let codes = ordered::sorted_keys::<Currency, Balance<P>>(totals);
    if faults::<P>(e, accounts, periods, policy).len() == 0 {
        law_validated_entries_balance::<P>(e, accounts, periods, policy);
        assert(postings_faults::<P>(e, n, accounts, policy).len() == 0);
        assert(drift_faults(e.booking_date, e.value_date, policy.max_drift).len() == 0);
        assert forall|i: int| 0 <= i < n implies sound_posting(
            #[trigger] e.postings[i],
            e.booking_date,
            accounts,
            policy,
        ) && !overflows_at::<P>(e.postings, i) by {
            lemma_no_faults_below::<P>(e, n, i, accounts, policy);
            let m = e.postings[i];
            assert(currency_faults(m, policy.currency).len() == 0);
            assert(dimension_faults(m, i, policy.required).len() == 0);
            assert(overflow_faults::<P>(e.postings, i).len() == 0);
            lemma_dimension_faults(m, i, policy.required);
        }
        assert forall|i: int| 0 <= i < n implies !#[trigger] overflows_at::<P>(e.postings, i) by {
            let m = e.postings[i];
        }
        assert forall|code: Seq<u8>| #[trigger]
            side_sum(e.postings, code, Direction::Debit) <= i64::MAX by {
            lemma_tally_sums::<P>(e.postings, code);
        }
    }
    if sound_entry(e, accounts, periods, policy) {
        assert forall|i: int| 0 <= i < n implies (#[trigger] e.postings[i]).minor > 0 by {
            assert(sound_posting(e.postings[i], e.booking_date, accounts, policy));
        }
        lemma_no_overflow::<P>(e.postings, n);
        assert forall|i: int| 0 <= i < n implies (#[trigger] posting_faults::<P>(
            e,
            i,
            accounts,
            policy,
        )).len() == 0 by {
            let m = e.postings[i];
            assert(sound_posting(m, e.booking_date, accounts, policy));
            assert(!overflows_at::<P>(e.postings, i));
            lemma_dimension_faults(m, i, policy.required);
        }
        lemma_no_posting_faults::<P>(e, n, accounts, policy);
        lemma_tally_is_listed::<P>(e.postings);
        assert forall|k: int| 0 <= k < codes.len() implies totals[#[trigger] codes[k]].debits.minor
            == totals[codes[k]].credits.minor by {
            lemma_tally_sums::<P>(e.postings, codes[k]);
            assert(side_sum(e.postings, codes[k], Direction::Debit) == side_sum(
                e.postings,
                codes[k],
                Direction::Credit,
            ));
            assert(totals.contains_key(codes[k]));
        }
        lemma_all_balance(totals, codes);
    }
}

/// The totals of a validated entry fit, and balance in every currency.
pub proof fn law_validated_totals_fit<const P: u8>(
    e: EntryFacts,
    accounts: Seq<account::AccountFacts>,
    periods: Map<Seq<char>, period::PeriodFacts>,
    policy: PolicyFacts,
)
    requires
        faults::<P>(e, accounts, periods, policy).len() == 0,
    ensures
        totals_of::<P>(e.postings) is Ok,
        forall|code: Seq<u8>| #[trigger]
            (totals_of::<P>(e.postings)->Ok_0).contains_key(code) ==> {
                let total = (totals_of::<P>(e.postings)->Ok_0)[code];
                total.debits.minor == total.credits.minor
            },
{
    law_validated_entries_balance::<P>(e, accounts, periods, policy);
    let n = e.postings.len() as int;
    assert(postings_faults::<P>(e, n, accounts, policy).len() == 0);
    assert forall|i: int| 0 <= i < n implies !#[trigger] overflows_at::<P>(e.postings, i) by {
        lemma_no_faults_below::<P>(e, n, i, accounts, policy);
        assert(overflow_faults::<P>(e.postings, i).len() == 0);
    }
    lemma_tally_is_totals::<P>(e.postings);
    assert forall|code: Seq<u8>| #[trigger]
        (totals_of::<P>(e.postings)->Ok_0).contains_key(code) implies {
        let total = (totals_of::<P>(e.postings)->Ok_0)[code];
        total.debits.minor == total.credits.minor
    } by {
        lemma_tally_sums::<P>(e.postings, code);
        assert(side_sum(e.postings, code, Direction::Debit) == side_sum(
            e.postings,
            code,
            Direction::Credit,
        ));
    }
}

proof fn lemma_tally_is_totals<const P: u8>(postings: Seq<posting::Movement>)
    requires
        forall|i: int| 0 <= i < postings.len() ==> !#[trigger] overflows_at::<P>(postings, i),
    ensures
        totals_of::<P>(postings) == Ok::<Map<Seq<u8>, Balance<P>>, MoneyError>(
            tally::<P>(postings),
        ),
    decreases postings.len(),
{
    if postings.len() > 0 {
        let rest = postings.drop_last();
        assert forall|i: int| 0 <= i < rest.len() implies !#[trigger] overflows_at::<P>(
            rest,
            i,
        ) by {
            assert(rest.take(i) =~= postings.take(i));
            assert(!overflows_at::<P>(postings, i));
        }
        lemma_tally_is_totals::<P>(rest);
        assert(!overflows_at::<P>(postings, postings.len() - 1));
        assert(postings.take(postings.len() - 1) =~= rest);
    }
}

/// The currencies of a tally can be listed in order.
pub proof fn lemma_tally_is_listed<const P: u8>(postings: Seq<posting::Movement>)
    ensures
        ordered::lists_keys::<Currency, Balance<P>>(
            tally::<P>(postings),
            ordered::sorted_keys::<Currency, Balance<P>>(tally::<P>(postings)),
        ),
    decreases postings.len(),
{
    if postings.len() == 0 {
        assert(ordered::lists_keys::<Currency, Balance<P>>(
            tally::<P>(postings),
            Seq::<Seq<u8>>::empty(),
        ));
    } else {
        lemma_tally_is_listed::<P>(postings.drop_last());
        let before = tally::<P>(postings.drop_last());
        let after = tally::<P>(postings);
        let code = postings.last().currency@;
        ordered::lemma_listing_extends::<Currency, Balance<P>>(before, code, after[code]);
        assert(after =~= before.insert(code, after[code]));
    }
}

/// Reversing twice gives the postings back.
pub proof fn law_inverting_postings_twice_restores(postings: Seq<posting::Movement>)
    ensures
        inverted(inverted(postings)) == postings,
{
    assert(inverted(inverted(postings)) =~= postings);
}

/// What a reversal moves under a key is the opposite of what the original moved
/// there: together they net to zero, account by account.
pub proof fn law_reversal_nets_to_zero(
    postings: Seq<posting::Movement>,
    key: balance::BalanceKey,
)
    ensures
        net_of(postings, key) + net_of(inverted(postings), key) == 0,
    decreases postings.len(),
{
    if postings.len() > 0 {
        law_reversal_nets_to_zero(postings.drop_last(), key);
        assert(inverted(postings).drop_last() =~= inverted(postings.drop_last()));
        let m = postings.last();
        assert(inverted(postings).last() == posting::flipped(m));
        assert(balance::key_of_movement(posting::flipped(m)) == balance::key_of_movement(m));
    }
}

/// The reversal of an entry that balances balances.
pub proof fn law_reversal_balances(postings: Seq<posting::Movement>)
    requires
        balances(postings),
    ensures
        balances(inverted(postings)),
{
    assert forall|code: Seq<u8>|
        #[trigger] side_sum(inverted(postings), code, Direction::Debit) == side_sum(
            inverted(postings),
            code,
            Direction::Credit,
        ) by {
        lemma_inverted_sides(postings, code);
        assert(side_sum(postings, code, Direction::Debit) == side_sum(
            postings,
            code,
            Direction::Credit,
        ));
    }
}

proof fn lemma_inverted_sides(postings: Seq<posting::Movement>, code: Seq<u8>)
    ensures
        side_sum(inverted(postings), code, Direction::Debit) == side_sum(
            postings,
            code,
            Direction::Credit,
        ),
        side_sum(inverted(postings), code, Direction::Credit) == side_sum(
            postings,
            code,
            Direction::Debit,
        ),
    decreases postings.len(),
{
    if postings.len() > 0 {
        lemma_inverted_sides(postings.drop_last(), code);
        assert(inverted(postings).drop_last() =~= inverted(postings.drop_last()));
        assert(inverted(postings).last() == posting::flipped(postings.last()));
    }
}

} // verus!
