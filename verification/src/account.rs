//! Accounts and the account tree.
//!
//! An account is a path in a user-defined hierarchy, such as
//! `Assets:Current:Bank:Main`. The engine imposes no chart of accounts: it does
//! not know what `Assets` means, does not require that name, and does not
//! validate against any national or corporate scheme.
//!
//! Two rules are enforced, because both are structural rather than
//! jurisdictional:
//!
//! - **Only leaves are postable.** An account with children is an aggregation
//!   path. Posting to both a node and its descendants makes rollups
//!   double-count, and no reporting layer can repair it afterwards.
//! - **Postings fall inside the account's open window.** An account has an
//!   opening date and an optional closing date.
//!
//! A third is offered rather than imposed. A [`BalanceLimit`] forbids an
//! account's net from crossing zero in one direction — a cash box that cannot be
//! overdrawn, a wallet that cannot be drawn beyond what was funded. It is off by
//! default, because most accounts legitimately sit on either side; where it is
//! set it is checked when an entry is recorded, against the balance that entry
//! would leave behind.

use crate::balance::Balance;
use crate::canonical::{self, Canonical, CanonicalWriter};
use crate::date::{self, Date};
use crate::hash::{self, tagged, Digest};
use crate::merkle::{self, Anchor, InclusionProof, MerkleLog, TreeHead};
use crate::ordered::{self, rank_bytes, Key, Rank, SortedMap};
use crate::posting::Direction;
use crate::sorting::{self, sort_triples};
use crate::tag;
use crate::text::{self, any_control, chars_of, push_decimal, push_text};
use vstd::prelude::*;
use vstd::string::*;
use vstd::utf8::*;

verus! {

/// Maximum number of characters in one path segment.
pub const MAX_SEGMENT_LEN: usize = 64;

/// Maximum depth of an account path.
pub const MAX_DEPTH: usize = 16;

/// The separator between path segments.
pub const SEPARATOR: char = ':';

/// Maximum number of accounts one registry may hold.
///
/// A handle is a `u32` position. The bound is stated rather than left implicit
/// because passing it must be an error: a registry that wrapped, saturated, or
/// reused a handle would silently repoint every posting and every sealed balance
/// that names it.
pub const MAX_ACCOUNTS: usize = 0xffff_ffff;

/// Failure constructing or registering an account.
#[derive(Debug, PartialEq, Eq)]
#[non_exhaustive]
pub enum AccountError {
    /// The path had no segments.
    Empty,
    /// A segment was empty, e.g. from a doubled or trailing separator.
    EmptySegment {
        /// Zero-based segment position.
        position: usize,
    },
    /// A segment exceeded [`MAX_SEGMENT_LEN`].
    SegmentTooLong {
        /// Zero-based segment position.
        position: usize,
    },
    /// The path exceeded [`MAX_DEPTH`].
    TooDeep,
    /// A segment contained a control character.
    ControlCharacter {
        /// Zero-based segment position.
        position: usize,
    },
    /// The account was already registered.
    AlreadyRegistered {
        /// The duplicate path.
        path: AccountPath,
    },
    /// The account handle does not belong to this registry.
    UnknownAccount {
        /// The offending handle.
        id: AccountId,
    },
    /// Stored bindings were not a dense range starting at zero.
    ///
    /// Handles are positions, so a gap or a duplicate means the stored set is
    /// not the set the handles were issued against.
    NotDense {
        /// The index the sequence required.
        expected: u32,
        /// The index actually present.
        found: u32,
    },
    /// The registry has issued every handle its index space allows.
    ///
    /// Handles are `u32` positions written into every posting row and into every
    /// trial-balance leaf a seal commits to, so reusing one would repoint
    /// history. Refusing the registration is the only safe answer.
    RegistryFull,
    /// The closing date preceded the opening date.
    ClosedBeforeOpened {
        /// The offending path.
        path: AccountPath,
        /// Opening date.
        opened: Date,
        /// Closing date.
        closed: Date,
    },
}

// ── paths ───────────────────────────────────────────────────────────────────

/// What is wrong with one segment, if anything.
pub open spec fn segment_fault(segment: Seq<char>, position: int) -> Option<AccountError> {
    if segment.len() == 0 {
        Some(AccountError::EmptySegment { position: position as usize })
    } else if segment.len() > MAX_SEGMENT_LEN {
        Some(AccountError::SegmentTooLong { position: position as usize })
    } else if text::has_control(segment) {
        Some(AccountError::ControlCharacter { position: position as usize })
    } else {
        None
    }
}

/// What is wrong with the first faulty segment from `position` on, if any is.
pub open spec fn first_fault(segments: Seq<Seq<char>>, position: int) -> Option<AccountError>
    decreases segments.len() - position,
{
    if position >= segments.len() {
        None
    } else {
        match segment_fault(segments[position], position) {
            Some(fault) => Some(fault),
            None => first_fault(segments, position + 1),
        }
    }
}

/// Why some segments do not make a path, if they do not.
pub open spec fn path_fault(segments: Seq<Seq<char>>) -> Option<AccountError> {
    if segments.len() == 0 {
        Some(AccountError::Empty)
    } else if segments.len() > MAX_DEPTH {
        Some(AccountError::TooDeep)
    } else {
        first_fault(segments, 0)
    }
}

/// True for the segments of a path.
pub open spec fn is_path(segments: Seq<Seq<char>>) -> bool {
    path_fault(segments) is None
}

/// The runs of `s` between separators, of which there is always at least one.
pub open spec fn split_segments(s: Seq<char>) -> Seq<Seq<char>>
    decreases s.len(),
{
    if s.len() == 0 {
        seq![Seq::empty()]
    } else {
        let before = split_segments(s.drop_last());
        if s.last() == SEPARATOR {
            before.push(Seq::empty())
        } else {
            before.drop_last().push(before.last().push(s.last()))
        }
    }
}

/// Why some text is not a path, if it is not.
pub open spec fn parse_fault(s: Seq<char>) -> Option<AccountError> {
    if s.len() == 0 {
        Some(AccountError::Empty)
    } else {
        path_fault(split_segments(s))
    }
}

/// Segments with a separator between any two.
pub open spec fn join_segments(segments: Seq<Seq<char>>) -> Seq<char>
    decreases segments.len(),
{
    if segments.len() == 0 {
        Seq::empty()
    } else if segments.len() == 1 {
        segments[0]
    } else {
        join_segments(segments.drop_last()).push(SEPARATOR) + segments.last()
    }
}

/// True when `path` is `prefix` or a descendant of it.
pub open spec fn is_under(path: Seq<Seq<char>>, prefix: Seq<Seq<char>>) -> bool {
    path.len() >= prefix.len() && path.take(prefix.len() as int) == prefix
}

/// The order of text, which is the order of its UTF-8 bytes.
pub open spec fn text_before(a: Seq<char>, b: Seq<char>) -> bool {
    ordered::bytes_before(encode_utf8(a), encode_utf8(b))
}

/// The order of paths: segment by segment, a path coming before its descendants.
pub open spec fn path_before(a: Seq<Seq<char>>, b: Seq<Seq<char>>) -> bool
    decreases b.len(),
{
    if b.len() == 0 {
        false
    } else if a.len() == 0 {
        true
    } else if a[0] == b[0] {
        path_before(a.skip(1), b.skip(1))
    } else {
        text_before(a[0], b[0])
    }
}

/// The text of some segments.
pub open spec fn texts(segments: Seq<String>) -> Seq<Seq<char>> {
    segments.map_values(|s: String| s@)
}

/// The encoding of a path: its segments, counted.
pub open spec fn path_encoding(path: Seq<Seq<char>>) -> Seq<u8> {
    canonical::counted(path.map_values(|s: Seq<char>| canonical::text_bytes(s)))
}

proof fn lemma_text_order(a: Seq<char>, b: Seq<char>)
    ensures
        !text_before(a, a),
        a == b || text_before(a, b) || text_before(b, a),
        !(text_before(a, b) && text_before(b, a)),
{
    let (x, y) = (encode_utf8(a), encode_utf8(b));
    ordered::lemma_bytes_irreflexive(x);
    ordered::lemma_bytes_total(x, y);
    encode_utf8_decode_utf8(a);
    encode_utf8_decode_utf8(b);
    if text_before(a, b) && text_before(b, a) {
        ordered::lemma_bytes_transitive(x, y, x);
    }
}

proof fn lemma_path_irreflexive(a: Seq<Seq<char>>)
    ensures
        !path_before(a, a),
    decreases a.len(),
{
    if a.len() > 0 {
        lemma_path_irreflexive(a.skip(1));
    }
}

proof fn lemma_path_transitive(a: Seq<Seq<char>>, b: Seq<Seq<char>>, c: Seq<Seq<char>>)
    requires
        path_before(a, b),
        path_before(b, c),
    ensures
        path_before(a, c),
    decreases c.len(),
{
    if a.len() > 0 {
        lemma_text_order(a[0], b[0]);
        lemma_text_order(b[0], c[0]);
        if a[0] == b[0] && b[0] == c[0] {
            lemma_path_transitive(a.skip(1), b.skip(1), c.skip(1));
        } else if a[0] != b[0] && b[0] != c[0] {
            ordered::lemma_bytes_transitive(
                encode_utf8(a[0]),
                encode_utf8(b[0]),
                encode_utf8(c[0]),
            );
        }
    }
}

proof fn lemma_path_total(a: Seq<Seq<char>>, b: Seq<Seq<char>>)
    ensures
        a == b || path_before(a, b) || path_before(b, a),
    decreases a.len(),
{
    if a.len() == 0 || b.len() == 0 {
        if a.len() == b.len() {
            assert(a =~= b);
        }
    } else if a[0] == b[0] {
        lemma_path_total(a.skip(1), b.skip(1));
        if a.skip(1) == b.skip(1) {
            assert(a =~= seq![a[0]] + a.skip(1));
            assert(b =~= seq![b[0]] + b.skip(1));
        }
    } else {
        lemma_text_order(a[0], b[0]);
    }
}

/// The paths under a prefix form one run: whatever lies between a prefix and a
/// path under it is under it too.
pub proof fn lemma_descendants_are_contiguous(
    prefix: Seq<Seq<char>>,
    between: Seq<Seq<char>>,
    path: Seq<Seq<char>>,
)
    requires
        is_under(path, prefix),
        !path_before(between, prefix),
        path_before(between, path),
    ensures
        is_under(between, prefix),
    decreases prefix.len(),
{
    if prefix.len() == 0 {
        assert(between.take(0) =~= prefix);
    } else {
        assert(path[0] == path.take(prefix.len() as int)[0]);
        if between.len() > 0 {
            lemma_text_order(between[0], path[0]);
            if between[0] == prefix[0] {
                let (p, b, x) = (prefix.skip(1), between.skip(1), path.skip(1));
                assert(x.take(p.len() as int) =~= path.take(prefix.len() as int).skip(1));
                lemma_descendants_are_contiguous(p, b, x);
                assert(between.take(prefix.len() as int) =~= seq![between[0]] + b.take(
                    p.len() as int,
                ));
                assert(prefix =~= seq![prefix[0]] + p);
            }
        }
    }
}

/// A path comes no later than any path under it.
pub proof fn lemma_prefix_comes_first(prefix: Seq<Seq<char>>, path: Seq<Seq<char>>)
    requires
        is_under(path, prefix),
    ensures
        !path_before(path, prefix),
        path == prefix || path_before(prefix, path),
    decreases prefix.len(),
{
    if prefix.len() == 0 {
        if path.len() == 0 {
            assert(path =~= prefix);
        }
    } else {
        assert(path[0] == path.take(prefix.len() as int)[0]);
        let (p, x) = (prefix.skip(1), path.skip(1));
        assert(x.take(p.len() as int) =~= path.take(prefix.len() as int).skip(1));
        lemma_prefix_comes_first(p, x);
        if x == p {
            assert(path =~= seq![path[0]] + x);
            assert(prefix =~= seq![prefix[0]] + p);
        }
    }
}

/// A validated account path.
///
/// Paths are compared and ordered segment-wise, so sorting a set of paths yields
/// a stable, tree-like order regardless of platform.
#[derive(Debug, PartialEq, Eq, PartialOrd, Ord, Hash)]
pub struct AccountPath {
    segments: Vec<String>,
}

impl View for AccountPath {
    type V = Seq<Seq<char>>;

    /// The segments, outermost first.
    closed spec fn view(&self) -> Seq<Seq<char>> {
        texts(self.segments@)
    }
}

fn clone_segments(segments: &Vec<String>, n: usize) -> (copy: Vec<String>)
    requires
        n <= segments@.len(),
    ensures
        texts(copy@) == texts(segments@).take(n as int),
{
    let mut copy: Vec<String> = Vec::with_capacity(n);
    let mut i: usize = 0;
    assert(texts(copy@) =~= texts(segments@).take(0));
    while i < n
        invariant
            i <= n <= segments@.len(),
            copy@.len() == i,
            texts(copy@) == texts(segments@).take(i as int),
        decreases n - i,
    {
        let ghost before = copy@;
        copy.push(segments[i].clone());
        assert(copy@ == before.push(copy@.last()));
        assert forall|j: int| 0 <= j <= i implies #[trigger] texts(copy@)[j] == texts(
            segments@,
        )[j] by {
            if j < i {
                assert(texts(before)[j] == texts(segments@).take(i as int)[j]);
            }
        }
        assert(texts(copy@) =~= texts(segments@).take(i + 1));
        i += 1;
    }
    copy
}

impl Clone for AccountPath {
    fn clone(&self) -> (copy: Self)
        ensures
            copy@ == self@,
    {
        proof {
            use_type_invariant(self);
        }
        let segments = clone_segments(&self.segments, self.segments.len());
        assert(texts(segments@) =~= self@);
        AccountPath { segments }
    }
}

fn same_text(a: &String, b: &String) -> (r: bool)
    ensures
        r == (a@ == b@),
{
    proof {
        encode_utf8_decode_utf8(a@);
        encode_utf8_decode_utf8(b@);
    }
    match rank_bytes(a.as_str().as_bytes(), b.as_str().as_bytes()) {
        Rank::Same => true,
        _ => false,
    }
}

proof fn lemma_faults_of_a_prefix(segments: Seq<Seq<char>>, n: int, position: int)
    requires
        0 <= position,
        0 <= n <= segments.len(),
        first_fault(segments, position) is None,
    ensures
        first_fault(segments.take(n), position) is None,
    decreases segments.len() - position,
{
    if position < n {
        lemma_faults_of_a_prefix(segments, n, position + 1);
    }
}

proof fn lemma_segment_is_sound(segments: Seq<Seq<char>>, position: int, i: int)
    requires
        0 <= position <= i < segments.len(),
        first_fault(segments, position) is None,
    ensures
        segment_fault(segments[i], i) is None,
    decreases i - position,
{
    if position < i {
        lemma_segment_is_sound(segments, position + 1, i);
    }
}

/// Every segment of a path is between one and [`MAX_SEGMENT_LEN`] characters
/// long and free of control characters.
pub proof fn lemma_path_segments(path: Seq<Seq<char>>, i: int)
    requires
        is_path(path),
        0 <= i < path.len(),
    ensures
        1 <= path[i].len() <= MAX_SEGMENT_LEN,
        !text::has_control(path[i]),
{
    lemma_segment_is_sound(path, 0, i);
}

impl AccountPath {
    /// The segments make a path.
    #[verifier::type_invariant]
    pub open spec fn is_valid(&self) -> bool {
        is_path(self@)
    }

    /// Parses a separator-delimited path such as `"Assets:Bank"`.
    pub fn parse(s: &str) -> (r: Result<Self, AccountError>)
        ensures
            match r {
                Ok(path) => parse_fault(s@) is None && path@ == split_segments(s@),
                Err(e) => parse_fault(s@) == Some(e),
            },
    {
        let chars = chars_of(s);
        if chars.len() == 0 {
            return Err(AccountError::Empty);
        }
        let mut segments: Vec<String> = Vec::new();
        let mut current: String = String::new();
        let mut i: usize = 0;
        assert(chars@.take(0) =~= Seq::empty());
        assert(texts(segments@).push(current@) =~= split_segments(chars@.take(0)));
        while i < chars.len()
            invariant
                i <= chars.len(),
                texts(segments@).push(current@) == split_segments(chars@.take(i as int)),
            decreases chars.len() - i,
        {
            let c = chars[i];
            let ghost before = texts(segments@).push(current@);
            assert(chars@.take(i + 1).drop_last() =~= chars@.take(i as int));
            assert(before.drop_last() =~= texts(segments@));
            if c == SEPARATOR {
                segments.push(current);
                current = String::new();
                assert(texts(segments@).push(current@) =~= before.push(Seq::empty()));
            } else {
                current.push(c);
            }
            i += 1;
        }
        assert(chars@.take(chars@.len() as int) =~= s@);
        let ghost all = texts(segments@).push(current@);
        segments.push(current);
        assert(texts(segments@) =~= all);
        Self::from_segments(segments)
    }

    /// Builds a path from already-split segments.
    pub fn from_segments(segments: Vec<String>) -> (r: Result<Self, AccountError>)
        ensures
            match r {
                Ok(path) => is_path(path@) && path@ == texts(segments@),
                Err(e) => Some(e) == path_fault(texts(segments@)),
            },
    {
        if segments.len() == 0 {
            return Err(AccountError::Empty);
        }
        if segments.len() > MAX_DEPTH {
            return Err(AccountError::TooDeep);
        }
        let mut position: usize = 0;
        while position < segments.len()
            invariant
                position <= segments.len() <= MAX_DEPTH,
                segments.len() >= 1,
                path_fault(texts(segments@)) == first_fault(
                    texts(segments@),
                    position as int,
                ),
            decreases segments.len() - position,
        {
            let chars = chars_of(segments[position].as_str());
            assert(chars@ == texts(segments@)[position as int]);
            if chars.len() == 0 {
                return Err(AccountError::EmptySegment { position });
            }
            if chars.len() > MAX_SEGMENT_LEN {
                return Err(AccountError::SegmentTooLong { position });
            }
            if any_control(&chars) {
                return Err(AccountError::ControlCharacter { position });
            }
            position += 1;
        }
        Ok(AccountPath { segments })
    }

    /// The path segments, outermost first.
    #[must_use]
    pub fn segments(&self) -> (segments: &[String])
        ensures
            texts(segments@) == self@,
    {
        self.segments.as_slice()
    }

    /// Number of segments.
    #[must_use]
    pub fn depth(&self) -> (n: usize)
        ensures
            n == self@.len(),
            1 <= n <= MAX_DEPTH,
            is_path(self@),
    {
        proof {
            use_type_invariant(self);
        }
        self.segments.len()
    }

    /// The parent path, or `None` for a top-level account.
    #[must_use]
    pub fn parent(&self) -> (r: Option<Self>)
        ensures
            match r {
                Some(path) => self@.len() > 1 && path@ == self@.drop_last(),
                None => self@.len() <= 1,
            },
    {
        proof {
            use_type_invariant(self);
        }
        if self.segments.len() <= 1 {
            return None;
        }
        let segments = clone_segments(&self.segments, self.segments.len() - 1);
        proof {
            lemma_faults_of_a_prefix(self@, self@.len() - 1, 0);
            assert(texts(segments@) =~= self@.drop_last());
            assert(self@.take(self@.len() - 1) =~= self@.drop_last());
        }
        Some(AccountPath { segments })
    }

    /// Every ancestor, from the top-level account down to the direct parent.
    #[must_use]
    pub fn ancestors(&self) -> (out: Vec<Self>)
        ensures
            out@.len() == self@.len() - 1,
            forall|i: int|
                0 <= i < out@.len() ==> (#[trigger] out@[i])@ == self@.take(i + 1),
    {
        proof {
            use_type_invariant(self);
        }
        let mut out: Vec<Self> = Vec::new();
        let mut depth: usize = 1;
        while depth < self.segments.len()
            invariant
                1 <= depth <= self.segments.len(),
                self.segments.len() == self@.len(),
                self.segments.len() <= MAX_DEPTH,
                first_fault(self@, 0) is None,
                out@.len() == depth - 1,
                forall|i: int|
                    0 <= i < out@.len() ==> (#[trigger] out@[i])@ == self@.take(i + 1),
            decreases self.segments.len() - depth,
        {
            let segments = clone_segments(&self.segments, depth);
            proof {
                lemma_faults_of_a_prefix(self@, depth as int, 0);
            }
            out.push(AccountPath { segments });
            depth += 1;
        }
        out
    }

    /// True when `self` is `other` or a descendant of it.
    #[must_use]
    pub fn is_under(&self, other: &Self) -> (r: bool)
        ensures
            r == is_under(self@, other@),
    {
        if self.segments.len() < other.segments.len() {
            return false;
        }
        let mut i: usize = 0;
        while i < other.segments.len()
            invariant
                i <= other.segments.len() <= self.segments.len(),
                forall|j: int| 0 <= j < i ==> #[trigger] self@[j] == other@[j],
            decreases other.segments.len() - i,
        {
            if !same_text(&self.segments[i], &other.segments[i]) {
                assert(self@.take(other@.len() as int)[i as int] != other@[i as int]);
                return false;
            }
            assert(self@[i as int] == other@[i as int]);
            i += 1;
        }
        assert(self@.take(other@.len() as int) =~= other@);
        true
    }

    /// True when both paths have the same segments.
    #[must_use]
    pub fn same(&self, other: &Self) -> (r: bool)
        ensures
            r == (self@ == other@),
    {
        if self.segments.len() != other.segments.len() {
            return false;
        }
        let under = self.is_under(other);
        assert(self@.take(other@.len() as int) =~= self@);
        under
    }

    /// A stable content hash of this path.
    #[must_use]
    pub fn content_hash(&self) -> (h: Digest)
        ensures
            h == path_hash(self@),
    {
        tagged(tag::ACCOUNT_V1.as_bytes(), self.to_canonical_bytes().as_slice())
    }

    /// The path as text, segments joined by [`SEPARATOR`].
    #[must_use]
    pub fn to_string(&self) -> (s: String)
        ensures
            s@ == join_segments(self@),
    {
        proof {
            use_type_invariant(self);
        }
        let mut s: String = self.segments[0].clone();
        let mut i: usize = 1;
        assert(self@.take(1).len() == 1 && self@.take(1)[0] == s@);
        while i < self.segments.len()
            invariant
                1 <= i <= self.segments.len(),
                s@ == join_segments(self@.take(i as int)),
            decreases self.segments.len() - i,
        {
            s.push(SEPARATOR);
            push_text(&mut s, self.segments[i].as_str());
            assert(self@.take(i + 1).drop_last() =~= self@.take(i as int));
            i += 1;
        }
        assert(self@.take(self@.len() as int) =~= self@);
        s
    }
}

/// The content hash of a path.
pub open spec fn path_hash(path: Seq<Seq<char>>) -> Digest {
    hash::tagged_hash(encode_utf8(tag::ACCOUNT_V1@), path_encoding(path))
}

impl core::str::FromStr for AccountPath {
    type Err = AccountError;

    fn from_str(s: &str) -> (r: Result<Self, AccountError>)
        ensures
            match r {
                Ok(path) => parse_fault(s@) is None && path@ == split_segments(s@),
                Err(e) => parse_fault(s@) == Some(e),
            },
    {
        AccountPath::parse(s)
    }
}

impl Canonical for AccountPath {
    open spec fn encoding(&self) -> Seq<u8> {
        path_encoding(self@)
    }

    fn encode(&self, w: &mut CanonicalWriter) {
        w.seq(self.segments.as_slice());
        assert(canonical::encodings(self.segments@) =~= self@.map_values(
            |s: Seq<char>| canonical::text_bytes(s),
        ));
    }
}

impl Key for AccountPath {
    open spec fn before(a: Seq<Seq<char>>, b: Seq<Seq<char>>) -> bool {
        path_before(a, b)
    }

    proof fn lemma_irreflexive(a: Seq<Seq<char>>) {
        lemma_path_irreflexive(a);
    }

    proof fn lemma_transitive(a: Seq<Seq<char>>, b: Seq<Seq<char>>, c: Seq<Seq<char>>) {
        lemma_path_transitive(a, b, c);
    }

    proof fn lemma_total(a: Seq<Seq<char>>, b: Seq<Seq<char>>) {
        lemma_path_total(a, b);
    }

    fn rank(&self, other: &Self) -> (r: Rank) {
        proof {
            lemma_path_irreflexive(self@);
            if path_before(self@, other@) && path_before(other@, self@) {
                lemma_path_transitive(self@, other@, self@);
            }
        }
        let mut i: usize = 0;
        assert(self@.skip(0) =~= self@);
        assert(other@.skip(0) =~= other@);
        while i < self.segments.len() && i < other.segments.len()
            invariant
                i <= self.segments.len(),
                i <= other.segments.len(),
                path_before(self@, other@) == path_before(
                    self@.skip(i as int),
                    other@.skip(i as int),
                ),
                path_before(other@, self@) == path_before(
                    other@.skip(i as int),
                    self@.skip(i as int),
                ),
                forall|j: int| 0 <= j < i ==> #[trigger] self@[j] == other@[j],
                !(path_before(self@, other@) && path_before(other@, self@)),
            decreases self.segments.len() - i,
        {
            proof {
                encode_utf8_decode_utf8(self@[i as int]);
                encode_utf8_decode_utf8(other@[i as int]);
                lemma_text_order(self@[i as int], other@[i as int]);
                assert(self@.skip(i as int).skip(1) =~= self@.skip(i + 1));
                assert(other@.skip(i as int).skip(1) =~= other@.skip(i + 1));
            }
            match rank_bytes(
                self.segments[i].as_str().as_bytes(),
                other.segments[i].as_str().as_bytes(),
            ) {
                Rank::Before => {
                    return Rank::Before;
                },
                Rank::After => {
                    return Rank::After;
                },
                Rank::Same => {},
            }
            i += 1;
        }
        if i < other.segments.len() {
            Rank::Before
        } else if i < self.segments.len() {
            Rank::After
        } else {
            assert(self@ =~= other@);
            Rank::Same
        }
    }
}

/// A handle to a registered account.
///
/// Handles are dense and assigned in registration order, which makes them cheap
/// to compare and to use as indices. They are meaningful only relative to the
/// [`AccountRegistry`] that issued them.
#[derive(Debug, Clone, Copy, PartialEq, Eq, Structural, PartialOrd, Ord, Hash)]
pub struct AccountId {
    /// The position in registration order.
    pub position: u32,
}

impl AccountId {
    /// The underlying index.
    #[must_use]
    pub fn index(self) -> (index: u32)
        ensures
            index == self.position,
    {
        self.position
    }

    /// Wraps a raw index.
    ///
    /// Only meaningful against the registry that issued it. Provided so a
    /// persistence layer can rehydrate handles; a handle built this way is
    /// validated when the entry referencing it is sealed.
    #[must_use]
    pub fn from_index(index: u32) -> (id: Self)
        ensures
            id.position == index,
    {
        AccountId { position: index }
    }

    /// The handle as text: `#` and the index.
    #[must_use]
    pub fn to_string(&self) -> (s: String)
        ensures
            s@ == seq!['#'] + text::decimal(self.position as nat),
    {
        let mut s: String = String::new();
        s.push('#');
        push_decimal(&mut s, self.position as u64);
        assert(s@ =~= seq!['#'] + text::decimal(self.position as nat));
        s
    }
}

// ── accounts ────────────────────────────────────────────────────────────────

/// The classification of an account for reporting purposes.
///
/// This is metadata only. The engine records it, exposes it, and never uses it
/// to constrain a posting — a chart of accounts is the caller's concern.
#[derive(Debug, Clone, Copy, PartialEq, Eq, Structural, PartialOrd, Ord, Hash)]
#[non_exhaustive]
pub enum AccountKind {
    /// Resources controlled by the entity.
    Asset,
    /// Obligations owed by the entity.
    Liability,
    /// Residual interest in the assets.
    Equity,
    /// Inflows increasing equity.
    Income,
    /// Outflows decreasing equity.
    Expense,
}

/// The byte a kind is encoded as.
pub open spec fn kind_byte(kind: AccountKind) -> u8 {
    match kind {
        AccountKind::Asset => 0,
        AccountKind::Liability => 1,
        AccountKind::Equity => 2,
        AccountKind::Income => 3,
        AccountKind::Expense => 4,
    }
}

impl AccountKind {
    /// The side on which this kind of account normally carries a balance.
    #[must_use]
    pub fn normal_side(self) -> (side: Direction)
        ensures
            side == (if self is Asset || self is Expense {
                Direction::Debit
            } else {
                Direction::Credit
            }),
    {
        match self {
            AccountKind::Asset | AccountKind::Expense => Direction::Debit,
            AccountKind::Liability | AccountKind::Equity | AccountKind::Income => Direction::Credit,
        }
    }

    fn discriminant(self) -> (b: u8)
        ensures
            b == kind_byte(self),
    {
        match self {
            AccountKind::Asset => 0,
            AccountKind::Liability => 1,
            AccountKind::Equity => 2,
            AccountKind::Income => 3,
            AccountKind::Expense => 4,
        }
    }
}

/// Which side an account's net balance is allowed to fall on.
///
/// Unconstrained by default. Set it where the books would be wrong rather than
/// merely surprising if the balance crossed zero — a cash account that cannot be
/// overdrawn, a customer prepayment that cannot go into debit, a control account
/// that must never carry the wrong sign.
///
/// The limit is checked when an entry is recorded, against the balance the entry
/// would leave behind, **per currency and per layer independently**. It is a
/// rule about what may be written next, exactly like an account's open window:
/// it never invalidates what is already recorded, and an entry that breaches it
/// is refused whole rather than partly applied.
///
/// Gross totals are irrelevant to it — only the net crosses zero — so an account
/// with heavy offsetting turnover is unaffected as long as the net stays on the
/// permitted side.
#[derive(Debug, Clone, Copy, PartialEq, Eq, Structural, PartialOrd, Ord, Hash)]
pub enum BalanceLimit {
    /// The balance may fall on either side. The default.
    Unlimited,
    /// Credits may never exceed debits: the net stays on the debit side or zero.
    ///
    /// The rule for an asset that cannot go negative — a cash box, a bank
    /// account without an overdraft facility, an inventory quantity.
    NoCreditBalance,
    /// Debits may never exceed credits: the net stays on the credit side or zero.
    ///
    /// The rule for a liability that cannot be drawn beyond what was funded — a
    /// customer wallet, a prepayment, a reserve.
    NoDebitBalance,
}

impl Default for BalanceLimit {
    fn default() -> (limit: Self)
        ensures
            limit is Unlimited,
    {
        BalanceLimit::Unlimited
    }
}

/// True when the net of `debits - credits` fits an amount and stays on the
/// permitted side.
pub open spec fn within_limit(limit: BalanceLimit, debits: int, credits: int) -> bool {
    let net = debits - credits;
    match limit {
        BalanceLimit::Unlimited => true,
        BalanceLimit::NoCreditBalance => i64::MIN <= net <= i64::MAX && net >= 0,
        BalanceLimit::NoDebitBalance => i64::MIN <= net <= i64::MAX && net <= 0,
    }
}

/// The byte a limit is encoded as.
pub open spec fn limit_byte(limit: BalanceLimit) -> u8 {
    match limit {
        BalanceLimit::Unlimited => 0,
        BalanceLimit::NoCreditBalance => 1,
        BalanceLimit::NoDebitBalance => 2,
    }
}

impl BalanceLimit {
    /// True when `balance` satisfies this limit.
    ///
    /// An overflow computing the net counts as a breach: an account whose totals
    /// cannot be netted is not one this limit can vouch for.
    #[must_use]
    pub fn permits<const P: u8>(self, balance: &Balance<P>) -> (r: bool)
        ensures
            r == within_limit(self, balance.debits.minor as int, balance.credits.minor as int),
    {
        match self {
            BalanceLimit::Unlimited => true,
            BalanceLimit::NoCreditBalance => match balance.debits.checked_sub(balance.credits) {
                Ok(net) => net.minor >= 0,
                Err(_) => false,
            },
            BalanceLimit::NoDebitBalance => match balance.debits.checked_sub(balance.credits) {
                Ok(net) => net.minor <= 0,
                Err(_) => false,
            },
        }
    }

    /// True for [`BalanceLimit::Unlimited`].
    #[must_use]
    pub fn is_unlimited(self) -> (r: bool)
        ensures
            r == (self is Unlimited),
    {
        matches!(self, BalanceLimit::Unlimited)
    }

    fn discriminant(self) -> (b: u8)
        ensures
            b == limit_byte(self),
    {
        match self {
            BalanceLimit::Unlimited => 0,
            BalanceLimit::NoCreditBalance => 1,
            BalanceLimit::NoDebitBalance => 2,
        }
    }

    /// The name of the limit.
    #[must_use]
    pub fn name(self) -> (s: &'static str)
        ensures
            s@ == (match self {
                BalanceLimit::Unlimited => "unlimited"@,
                BalanceLimit::NoCreditBalance => "no credit balance"@,
                BalanceLimit::NoDebitBalance => "no debit balance"@,
            }),
    {
        match self {
            BalanceLimit::Unlimited => "unlimited",
            BalanceLimit::NoCreditBalance => "no credit balance",
            BalanceLimit::NoDebitBalance => "no debit balance",
        }
    }
}

/// What an account is, as mathematics.
#[verifier::ext_equal]
pub struct AccountFacts {
    /// The segments of the account's path.
    pub path: Seq<Seq<char>>,
    /// Optional reporting classification.
    pub kind: Option<AccountKind>,
    /// First date on which the account may be posted to.
    pub opened_on: Date,
    /// Last date on which the account may be posted to, if it has closed.
    pub closed_on: Option<Date>,
    /// Which side the account's net balance may fall on.
    pub limit: BalanceLimit,
}

/// True when an account closes no earlier than it opens.
pub open spec fn window_in_order(account: AccountFacts) -> bool {
    account.closed_on matches Some(closed) ==> account.opened_on@ <= closed@
}

/// True when an account accepts postings on a day.
pub open spec fn open_on(account: AccountFacts, day: int) -> bool {
    &&& account.opened_on@ <= day
    &&& account.closed_on matches Some(closed) ==> day <= closed@
}

/// The encoding of an account.
pub open spec fn account_encoding(account: AccountFacts) -> Seq<u8> {
    path_encoding(account.path) + canonical::option_bytes(
        match account.kind {
            Some(kind) => Some(seq![kind_byte(kind)]),
            None => None,
        },
    ) + date::date_encoding(account.opened_on) + canonical::option_bytes(
        match account.closed_on {
            Some(closed) => Some(date::date_encoding(closed)),
            None => None,
        },
    ) + seq![limit_byte(account.limit)]
}

/// Registration details for one account.
#[derive(Debug, PartialEq, Eq)]
pub struct Account {
    /// The account's path.
    pub path: AccountPath,
    /// Optional reporting classification.
    pub kind: Option<AccountKind>,
    /// First date on which the account may be posted to.
    pub opened_on: Date,
    /// Last date on which the account may be posted to, if it has closed.
    pub closed_on: Option<Date>,
    /// Which side the account's net balance may fall on.
    pub limit: BalanceLimit,
}

impl View for Account {
    type V = AccountFacts;

    open spec fn view(&self) -> AccountFacts {
        AccountFacts {
            path: self.path@,
            kind: self.kind,
            opened_on: self.opened_on,
            closed_on: self.closed_on,
            limit: self.limit,
        }
    }
}

impl Clone for Account {
    fn clone(&self) -> (copy: Self)
        ensures
            copy@ == self@,
    {
        Account {
            path: self.path.clone(),
            kind: self.kind,
            opened_on: self.opened_on,
            closed_on: self.closed_on,
            limit: self.limit,
        }
    }
}

impl Account {
    /// Creates an account open from `opened_on`, with no closing date and no
    /// balance limit.
    #[must_use]
    pub fn new(path: AccountPath, opened_on: Date) -> (account: Self)
        ensures
            account@ == (AccountFacts {
                path: path@,
                kind: None,
                opened_on,
                closed_on: None,
                limit: BalanceLimit::Unlimited,
            }),
    {
        Account { path, kind: None, opened_on, closed_on: None, limit: BalanceLimit::Unlimited }
    }

    /// Sets the reporting classification.
    #[must_use]
    pub fn with_kind(self, kind: AccountKind) -> (account: Self)
        ensures
            account@ == (AccountFacts { kind: Some(kind), ..self@ }),
    {
        let mut account = self;
        account.kind = Some(kind);
        account
    }

    /// Sets the closing date.
    #[must_use]
    pub fn closing_on(self, date: Date) -> (account: Self)
        ensures
            account@ == (AccountFacts { closed_on: Some(date), ..self@ }),
    {
        let mut account = self;
        account.closed_on = Some(date);
        account
    }

    /// Constrains which side the account's net balance may fall on.
    #[must_use]
    pub fn limited_to(self, limit: BalanceLimit) -> (account: Self)
        ensures
            account@ == (AccountFacts { limit, ..self@ }),
    {
        let mut account = self;
        account.limit = limit;
        account
    }

    /// True when the account accepts postings on `date`.
    #[must_use]
    pub fn is_open_on(&self, date: Date) -> (r: bool)
        ensures
            r == open_on(self@, date@),
    {
        self.opened_on.at_most(&date) && match self.closed_on {
            Some(closed) => date.at_most(&closed),
            None => true,
        }
    }

    fn window_is_in_order(&self) -> (r: bool)
        ensures
            r == window_in_order(self@),
    {
        match self.closed_on {
            Some(closed) => self.opened_on.at_most(&closed),
            None => true,
        }
    }

    /// The refusal of a window that closes before it opens.
    fn inverted_window(&self) -> (e: AccountError)
        requires
            !window_in_order(self@),
        ensures
            is_inverted_window(self@, e),
    {
        match self.closed_on {
            Some(closed) => AccountError::ClosedBeforeOpened {
                path: self.path.clone(),
                opened: self.opened_on,
                closed,
            },
            None => AccountError::Empty,
        }
    }
}

impl Canonical for Account {
    open spec fn encoding(&self) -> Seq<u8> {
        account_encoding(self@)
    }

    fn encode(&self, w: &mut CanonicalWriter) {
        self.path.encode(w);
        let kind: Option<u8> = match self.kind {
            Some(kind) => Some(kind.discriminant()),
            None => None,
        };
        w.option(kind.as_ref());
        self.opened_on.encode(w);
        w.option(self.closed_on.as_ref());
        // Encoded unconditionally rather than as an option: the limit is part of
        // what the account *is*, so a registry that quietly relaxed one must
        // produce a different binding commitment.
        w.u8(self.limit.discriminant());
        assert(w@ =~= old(w)@ + self.encoding());
    }
}

/// An account together with its handle, as mathematics.
#[verifier::ext_equal]
pub struct Binding {
    /// The handle this account was issued.
    pub id: AccountId,
    /// The account itself.
    pub account: AccountFacts,
}

/// The encoding of a binding.
pub open spec fn binding_encoding(binding: Binding) -> Seq<u8> {
    canonical::le_bytes(binding.id.position as nat, 4) + account_encoding(binding.account)
}

/// The leaf a binding hashes to.
pub open spec fn binding_leaf(binding: Binding) -> Digest {
    hash::tagged_hash(encode_utf8(tag::ACCOUNT_BINDING_V1@), binding_encoding(binding))
}

/// The bytes hashed for the leaf of a binding.
pub open spec fn binding_input(binding: Binding) -> Seq<u8> {
    hash::tagged_preimage(encode_utf8(tag::ACCOUNT_BINDING_V1@), binding_encoding(binding))
}

/// One account together with the handle it was issued.
///
/// The handle is the account's position in registration order, and that
/// position is written into every posting row and into the trial balance leaves
/// a seal commits to. It is therefore part of the ledger's persistent state,
/// not a runtime detail: a registry rebuilt in a different order would repoint
/// history. Records carry the binding explicitly so it survives a restart.
#[derive(Debug, PartialEq, Eq)]
pub struct AccountRecord {
    /// The handle this account was issued.
    pub id: AccountId,
    /// The account itself.
    pub account: Account,
}

impl View for AccountRecord {
    type V = Binding;

    open spec fn view(&self) -> Binding {
        Binding { id: self.id, account: self.account@ }
    }
}

impl Clone for AccountRecord {
    fn clone(&self) -> (copy: Self)
        ensures
            copy@ == self@,
    {
        AccountRecord { id: self.id, account: self.account.clone() }
    }
}

impl Canonical for AccountRecord {
    open spec fn encoding(&self) -> Seq<u8> {
        binding_encoding(self@)
    }

    fn encode(&self, w: &mut CanonicalWriter) {
        w.u32(self.id.position);
        self.account.encode(w);
        assert(w@ =~= old(w)@ + self.encoding());
    }
}

/// The leaf one handle-to-account binding hashes to.
///
/// Covers the handle and the whole account — path, kind, and open window — so a
/// registry that reopened a closed account, or moved a path to a different
/// handle, produces a different commitment.
#[must_use]
pub fn account_binding_leaf(record: &AccountRecord) -> (leaf: Digest)
    ensures
        leaf == binding_leaf(record@),
{
    tagged(tag::ACCOUNT_BINDING_V1.as_bytes(), record.to_canonical_bytes().as_slice())
}

/// Proof that a handle was issued to a particular account.
///
/// Self-contained: it carries the binding as well as the path, so a verifier
/// needs nothing but this and an [`AccountRegistry::commitment`] — which a seal
/// publishes.
///
/// This is what makes a sealed balance legible. A balance proof shows that
/// handle `#7` held a balance; on its own that is a statement about an integer.
/// Pairing it with this proof, against the same seal, turns it into a statement
/// about `Assets:Cash` — without disclosing any other account, balance, or entry.
#[derive(Debug, PartialEq, Eq)]
pub struct AccountBindingProof {
    /// The handle and the account it names.
    pub record: AccountRecord,
    /// Path from the binding's leaf up to the registry commitment.
    pub proof: InclusionProof,
}

impl Clone for AccountBindingProof {
    fn clone(&self) -> (copy: Self)
        ensures
            copy.record@ == self.record@,
            copy.proof.leaf_index == self.proof.leaf_index,
            copy.proof.tree_size == self.proof.tree_size,
            copy.proof.path@ == self.proof.path@,
    {
        AccountBindingProof { record: self.record.clone(), proof: self.proof.clone() }
    }
}

impl AccountBindingProof {
    /// True when the binding is proven against a commitment.
    ///
    /// The handle *is* the leaf index, so a proof for one binding cannot be
    /// replayed at another position.
    pub open spec fn attests<A: Anchor>(&self, accounts: A) -> bool {
        &&& self.proof.leaf_index == self.record.id.position
        &&& self.proof.proves(binding_leaf(self.record@), accounts)
    }

    /// The handle being proven.
    #[must_use]
    pub fn id(&self) -> (id: AccountId)
        ensures
            id == self.record.id,
    {
        self.record.id
    }

    /// The account the handle names.
    #[must_use]
    pub fn account(&self) -> (account: &Account)
        ensures
            *account == self.record.account,
    {
        &self.record.account
    }

    /// Verifies the binding against an [`AccountRegistry::commitment`], or its
    /// bare root.
    ///
    /// Returns `false` on any inconsistency rather than distinguishing failure
    /// modes: a verifier cannot act differently on a malformed proof than on a
    /// forged one.
    #[must_use]
    pub fn verify<A: Anchor>(&self, accounts: &A) -> (valid: bool)
        ensures
            valid == self.attests(*accounts),
    {
        self.proof.leaf_index == self.record.id.position as u64 && self.proof.verify(
            &account_binding_leaf(&self.record),
            accounts,
        )
    }
}

// ── the registry ────────────────────────────────────────────────────────────

/// True when some account has this path.
pub open spec fn registered(accounts: Seq<AccountFacts>, path: Seq<Seq<char>>) -> bool {
    exists|i: int| 0 <= i < accounts.len() && (#[trigger] accounts[i]).path == path
}

/// True when no other account lies under the account at position `i`.
pub open spec fn is_leaf_at(accounts: Seq<AccountFacts>, i: int) -> bool {
    forall|j: int|
        0 <= j < accounts.len() && j != i ==> !is_under(
            (#[trigger] accounts[j]).path,
            accounts[i].path,
        )
}

/// True when an account may be registered beside the others.
pub open spec fn accepts_account(accounts: Seq<AccountFacts>, account: AccountFacts) -> bool {
    &&& window_in_order(account)
    &&& !registered(accounts, account.path)
    &&& accounts.len() < MAX_ACCOUNTS
}

/// True when `e` reports that the account closes before it opens.
pub open spec fn is_inverted_window(account: AccountFacts, e: AccountError) -> bool {
    &&& e matches AccountError::ClosedBeforeOpened { path, opened, closed }
    &&& path@ == account.path
    &&& opened == account.opened_on
    &&& Some(closed) == account.closed_on
}

/// True when `e` is why an account may not be registered beside the others.
pub open spec fn refuses_account(
    accounts: Seq<AccountFacts>,
    account: AccountFacts,
    e: AccountError,
) -> bool {
    if !window_in_order(account) {
        is_inverted_window(account, e)
    } else if registered(accounts, account.path) {
        e matches AccountError::AlreadyRegistered { path } && path@ == account.path
    } else {
        accounts.len() >= MAX_ACCOUNTS && e is RegistryFull
    }
}

/// The bindings of accounts to their positions.
pub open spec fn bindings(accounts: Seq<AccountFacts>) -> Seq<Binding> {
    Seq::new(
        accounts.len(),
        |i: int| Binding { id: AccountId { position: i as u32 }, account: accounts[i] },
    )
}

/// The leaves of the log of bindings.
pub open spec fn binding_leaves(accounts: Seq<AccountFacts>) -> Seq<Digest> {
    bindings(accounts).map_values(|b: Binding| binding_leaf(b))
}

/// The bytes hashed for the commitment to some accounts.
pub open spec fn commitment_inputs(accounts: Seq<AccountFacts>) -> Set<Seq<u8>> {
    bindings(accounts).map_values(|b: Binding| binding_input(b)).to_set().union(
        merkle::log_inputs(binding_leaves(accounts)),
    )
}

/// The commitment to some accounts in handle order.
pub open spec fn commitment_of(accounts: Seq<AccountFacts>) -> TreeHead {
    merkle::head_of(binding_leaves(accounts))
}

/// True when the commitment to the first `n` accounts had this root.
pub open spec fn committed_at(accounts: Seq<AccountFacts>, n: int, root: Digest) -> bool {
    0 <= n <= accounts.len() && commitment_of(accounts.take(n)).root == root
}

/// The accounts of some bindings.
pub open spec fn accounts_of(records: Seq<Binding>) -> Seq<AccountFacts> {
    records.map_values(|b: Binding| b.account)
}

/// The bindings of some records.
pub open spec fn bindings_of(records: Seq<AccountRecord>) -> Seq<Binding> {
    records.map_values(|r: AccountRecord| r@)
}

/// True when `order` lists the positions of `records` by handle, records with
/// one handle in the order in which they were given.
pub open spec fn by_handle(records: Seq<Binding>, order: Seq<int>) -> bool {
    &&& order.len() == records.len()
    &&& forall|k: int| 0 <= k < order.len() ==> 0 <= #[trigger] order[k] < records.len()
    &&& forall|j: int, k: int|
        0 <= j < k < order.len() ==> {
            let (a, b) = (records[#[trigger] order[j]].id, records[#[trigger] order[k]].id);
            a.position < b.position || (a.position == b.position && order[j] < order[k])
        }
}

/// The records at some positions.
pub open spec fn picked(records: Seq<Binding>, order: Seq<int>) -> Seq<Binding> {
    order.map_values(|i: int| records[i])
}

/// True when the first `n` records, taken in this order, restore one by one.
pub open spec fn restores(records: Seq<Binding>, n: int) -> bool {
    forall|k: int|
        0 <= k < n ==> (#[trigger] records[k]).id.position == k && accepts_account(
            accounts_of(records.take(k)),
            records[k].account,
        )
}

/// True when restoring record `k`, after those before it, fails with `e`.
pub open spec fn fails_at(records: Seq<Binding>, k: int, e: AccountError) -> bool {
    if records[k].id.position != k {
        e == AccountError::NotDense { expected: k as u32, found: records[k].id.position }
    } else {
        !accepts_account(accounts_of(records.take(k)), records[k].account) && refuses_account(
            accounts_of(records.take(k)),
            records[k].account,
            e,
        )
    }
}

/// The set of accounts a ledger may post to.
///
/// The registry owns the account tree and answers the two questions validation
/// needs: does this account exist, and may it be posted to on this date.
#[derive(Debug)]
pub struct AccountRegistry {
    accounts: Vec<Account>,
    /// Ordered so that iteration and any derived output is deterministic.
    index: SortedMap<AccountPath, AccountId>,
    child_count: Vec<u32>,
}

impl View for AccountRegistry {
    type V = Seq<AccountFacts>;

    /// The accounts, in handle order.
    closed spec fn view(&self) -> Seq<AccountFacts> {
        facts(self.accounts@)
    }
}

spec fn facts(accounts: Seq<Account>) -> Seq<AccountFacts> {
    accounts.map_values(|a: Account| a@)
}

/// The index lists every account under its path, and nothing else.
spec fn indexes(index: Map<Seq<Seq<char>>, AccountId>, accounts: Seq<AccountFacts>) -> bool {
    &&& forall|i: int|
        0 <= i < accounts.len() ==> index.contains_key((#[trigger] accounts[i]).path)
            && index[accounts[i].path].position == i
    &&& forall|path: Seq<Seq<char>>| #[trigger]
        index.contains_key(path) ==> index[path].position < accounts.len()
            && accounts[index[path].position as int].path == path
}

/// The counts are zero exactly for the accounts that nothing lies under.
spec fn counts_leaves(counts: Seq<u32>, accounts: Seq<AccountFacts>) -> bool {
    &&& counts.len() == accounts.len()
    &&& forall|i: int|
        0 <= i < accounts.len() ==> (#[trigger] counts[i] == 0 <==> is_leaf_at(accounts, i))
}

impl AccountRegistry {
    /// No two accounts share a path, every window is in order, and the index and
    /// the counts of children agree with the accounts.
    pub closed spec fn wf(&self) -> bool {
        &&& self@.len() <= MAX_ACCOUNTS
        &&& indexes(self.index@, self@)
        &&& counts_leaves(self.child_count@, self@)
        &&& forall|i: int|
            0 <= i < self@.len() ==> window_in_order(#[trigger] self@[i]) && is_path(self@[i].path)
    }

    /// What every registry satisfies: handles fit, paths are unique and valid,
    /// and windows are in order.
    pub proof fn lemma_wf(&self)
        requires
            self.wf(),
        ensures
            self@.len() <= MAX_ACCOUNTS,
            forall|i: int|
                0 <= i < self@.len() ==> window_in_order(#[trigger] self@[i]) && is_path(
                    self@[i].path,
                ),
            forall|i: int, j: int|
                0 <= i < j < self@.len() ==> (#[trigger] self@[i]).path != (
                #[trigger] self@[j]).path,
    {
    }

    /// Creates an empty registry.
    #[must_use]
    pub fn new() -> (registry: Self)
        ensures
            registry.wf(),
            registry@ == Seq::<AccountFacts>::empty(),
    {
        let registry = AccountRegistry {
            accounts: Vec::new(),
            index: SortedMap::new(),
            child_count: Vec::new(),
        };
        assert(registry@ =~= Seq::<AccountFacts>::empty());
        registry
    }

    /// Registers an account and returns its handle.
    ///
    /// Ancestors are not created implicitly: a path may be registered without
    /// its parents existing, and registering a parent later reclassifies it as a
    /// non-postable node.
    pub fn register(&mut self, account: Account) -> (r: Result<AccountId, AccountError>)
        requires
            old(self).wf(),
        ensures
            final(self).wf(),
            match r {
                Ok(id) => {
                    &&& accepts_account(old(self)@, account@)
                    &&& id.position == old(self)@.len()
                    &&& final(self)@ == old(self)@.push(account@)
                },
                Err(e) => {
                    &&& !accepts_account(old(self)@, account@)
                    &&& refuses_account(old(self)@, account@, e)
                    &&& final(self)@ == old(self)@
                },
            },
    {
        if !account.window_is_in_order() {
            return Err(account.inverted_window());
        }
        if self.index.contains_key(&account.path) {
            return Err(AccountError::AlreadyRegistered { path: account.path });
        }
        proof {
            if registered(self@, account@.path) {
                let i = choose|i: int|
                    0 <= i < self@.len() && (#[trigger] self@[i]).path == account@.path;
                assert(self.index@.contains_key(self@[i].path));
            }
        }
        // Refused rather than saturated: a reused handle repoints history.
        if self.accounts.len() >= MAX_ACCOUNTS {
            return Err(AccountError::RegistryFull);
        }
        let id = AccountId { position: self.accounts.len() as u32 };
        let path = account.path.clone();
        let depth: usize = path.depth();
        // A newly registered account may already have descendants. Paths sort
        // segment-wise, so every descendant is contiguous with `path` in the
        // index and the scan stops at the first non-descendant — rather than
        // walking the whole registry once per registration.
        let existing_children: u32 = self.count_descendants(&path);
        // Registering a child turns its registered ancestors into path nodes.
        self.mark_ancestors(&path);
        let ghost before = self@;
        self.accounts.push(account);
        self.child_count.push(existing_children);
        self.index.insert(path, id);
        proof {
            assert(self@ =~= before.push(account@));
            let after = self@;
            assert forall|i: int| 0 <= i < after.len() implies (#[trigger] self.child_count@[i] == 0
                <==> is_leaf_at(after, i)) by {
                if i < before.len() {
                    assert(after[i] == before[i]);
                    if is_leaf_at(after, i) {
                        assert(is_leaf_at(before, i)) by {
                            assert forall|j: int| 0 <= j < before.len() && j != i implies !is_under(
                                (#[trigger] before[j]).path,
                                before[i].path,
                            ) by {
                                assert(!is_under(after[j].path, after[i].path));
                            }
                        }
                        assert(!is_under(after[before.len() as int].path, after[i].path));
                    }
                    if is_leaf_at(before, i) && !is_under(account@.path, before[i].path) {
                        assert forall|j: int| 0 <= j < after.len() && j != i implies !is_under(
                            (#[trigger] after[j]).path,
                            after[i].path,
                        ) by {
                            if j < before.len() {
                                assert(!is_under(before[j].path, before[i].path));
                            }
                        }
                    }
                } else {
                    assert forall|j: int| 0 <= j < before.len() implies after[j] == #[trigger] before[j] by {}
                    if existing_children == 0 {
                        assert forall|j: int| 0 <= j < after.len() && j != i implies !is_under(
                            (#[trigger] after[j]).path,
                            after[i].path,
                        ) by {
                            assert(!is_under(before[j].path, account@.path));
                        }
                    } else {
                        let j = choose|j: int|
                            0 <= j < before.len() && is_under(
                                (#[trigger] before[j]).path,
                                account@.path,
                            );
                        assert(is_under(after[j].path, after[i].path));
                    }
                }
            }
        }
        Ok(id)
    }

    /// The number of registered accounts under an unregistered path.
    ///
    /// Relies on the segment-wise order of paths: a path under `prefix` sorts
    /// after `prefix` and before the first path that is not under it, so the
    /// descendants form one contiguous run.
    fn count_descendants(&self, prefix: &AccountPath) -> (n: u32)
        requires
            self.wf(),
            !registered(self@, prefix@),
        ensures
            n == 0 <==> (forall|j: int|
                0 <= j < self@.len() ==> !is_under((#[trigger] self@[j]).path, prefix@)),
    {
        let start: usize = self.index.lower_bound(prefix);
        let total: usize = self.index.len();
        proof {
            self.lemma_index_len();
            self.lemma_outside_run(prefix@, start as int);
        }
        let mut at: usize = start;
        while at < total && self.index.key_at(at).is_under(prefix)
            invariant
                self.wf(),
                start <= at <= total,
                total == self.index.keys().len(),
                forall|i: int|
                    start <= i < at ==> is_under(#[trigger] self.index.keys()[i], prefix@),
            decreases total - at,
        {
            at += 1;
        }
        proof {
            self.index.lemma_sequences();
            if at == start {
                assert forall|j: int| 0 <= j < self@.len() implies !is_under(
                    (#[trigger] self@[j]).path,
                    prefix@,
                ) by {
                    assert(self.index@.contains_key(self@[j].path));
                    let i = choose|i: int|
                        0 <= i < self.index.keys().len() && #[trigger] self.index.keys()[i]
                            == self@[j].path;
                    if is_under(self@[j].path, prefix@) {
                        lemma_prefix_comes_first(prefix@, self@[j].path);
                        assert(i >= start);
                        if i > start {
                            let first = self.index.keys()[start as int];
                            assert(path_before(first, self.index.keys()[i]));
                            lemma_descendants_are_contiguous(prefix@, first, self@[j].path);
                        }
                    }
                }
            } else {
                let key = self.index.keys()[start as int];
                assert(is_under(key, prefix@));
                assert(self.index@.contains_key(key));
                let j = self.index@[key].position as int;
                assert(is_under(self@[j].path, prefix@));
            }
        }
        (at - start) as u32
    }

    /// Counts one more child for every registered ancestor of `path`.
    fn mark_ancestors(&mut self, path: &AccountPath)
        requires
            old(self).wf(),
            !registered(old(self)@, path@),
        ensures
            final(self).accounts == old(self).accounts,
            final(self).index == old(self).index,
            final(self).child_count@.len() == old(self).child_count@.len(),
            forall|k: int|
                0 <= k < old(self)@.len() ==> (#[trigger] final(self).child_count@[k] == 0 <==> old(
                    self,
                ).child_count@[k] == 0 && !is_under(path@, old(self)@[k].path)),
    {
        let ancestors = path.ancestors();
        let mut i: usize = 0;
        while i < ancestors.len()
            invariant
                i <= ancestors@.len(),
                ancestors@.len() == path@.len() - 1,
                forall|j: int|
                    0 <= j < ancestors@.len() ==> (#[trigger] ancestors@[j])@ == path@.take(j + 1),
                old(self).wf(),
                self.accounts == old(self).accounts,
                self.index == old(self).index,
                self.child_count@.len() == old(self).child_count@.len(),
                forall|k: int|
                    0 <= k < old(self)@.len() ==> (#[trigger] self.child_count@[k] == 0 <==> old(
                        self,
                    ).child_count@[k] == 0 && !(old(self)@[k].path.len() <= i && is_under(
                        path@,
                        old(self)@[k].path,
                    ))),
            decreases ancestors.len() - i,
        {
            let ghost counts = self.child_count@;
            match self.index.get(&ancestors[i]) {
                Some(id) => {
                    let at: usize = id.position as usize;
                    assert(old(self)@[at as int].path == path@.take(i + 1));
                    let count: u32 = self.child_count[at];
                    self.child_count[at] = count.saturating_add(1);
                    assert forall|k: int| 0 <= k < old(self)@.len() implies (
                    #[trigger] self.child_count@[k] == 0 <==> old(self).child_count@[k] == 0 && !(
                    old(self)@[k].path.len() <= i + 1 && is_under(path@, old(self)@[k].path))) by {
                        assert(counts[k] == 0 <==> old(self).child_count@[k] == 0 && !(old(
                            self,
                        )@[k].path.len() <= i && is_under(path@, old(self)@[k].path)));
                        if k != at {
                            assert(old(self)@[k].path != old(self)@[at as int].path);
                        }
                    }
                },
                None => {
                    assert forall|k: int| 0 <= k < old(self)@.len() implies (
                    #[trigger] self.child_count@[k] == 0 <==> old(self).child_count@[k] == 0 && !(
                    old(self)@[k].path.len() <= i + 1 && is_under(path@, old(self)@[k].path))) by {
                        assert(self.index@.contains_key(old(self)@[k].path));
                    }
                },
            }
            i += 1;
        }
        assert forall|k: int| 0 <= k < old(self)@.len() implies (#[trigger] self.child_count@[k]
            == 0 <==> old(self).child_count@[k] == 0 && !is_under(path@, old(self)@[k].path)) by {
            if is_under(path@, old(self)@[k].path) && old(self)@[k].path.len() == path@.len() {
                assert(path@.take(path@.len() as int) =~= path@);
                assert(registered(old(self)@, path@));
            }
        }
    }

    /// Convenience registration from a path string.
    pub fn register_path(&mut self, path: &str, opened_on: Date) -> (r: Result<
        AccountId,
        AccountError,
    >)
        requires
            old(self).wf(),
        ensures
            final(self).wf(),
            ({
                let account = AccountFacts {
                    path: split_segments(path@),
                    kind: None,
                    opened_on,
                    closed_on: None,
                    limit: BalanceLimit::Unlimited,
                };
                match r {
                    Ok(id) => {
                        &&& parse_fault(path@) is None
                        &&& accepts_account(old(self)@, account)
                        &&& id.position == old(self)@.len()
                        &&& final(self)@ == old(self)@.push(account)
                    },
                    Err(e) => {
                        &&& match parse_fault(path@) {
                            Some(fault) => e == fault,
                            None => !accepts_account(old(self)@, account) && refuses_account(
                                old(self)@,
                                account,
                                e,
                            ),
                        }
                        &&& final(self)@ == old(self)@
                    },
                }
            }),
    {
        match AccountPath::parse(path) {
            Ok(parsed) => self.register(Account::new(parsed, opened_on)),
            Err(e) => Err(e),
        }
    }

    /// Looks up an account by path.
    #[must_use]
    pub fn id_of(&self, path: &AccountPath) -> (r: Option<AccountId>)
        requires
            self.wf(),
        ensures
            match r {
                Some(id) => id.position < self@.len() && self@[id.position as int].path == path@,
                None => !registered(self@, path@),
            },
    {
        match self.index.get(path) {
            Some(id) => Some(*id),
            None => {
                assert forall|i: int| 0 <= i < self@.len() implies (#[trigger] self@[i]).path
                    != path@ by {
                    assert(self.index@.contains_key(self@[i].path));
                }
                None
            },
        }
    }

    /// Returns the account behind a handle.
    #[must_use]
    pub fn get(&self, id: AccountId) -> (r: Option<&Account>)
        ensures
            match r {
                Some(account) => id.position < self@.len() && account@ == self@[id.position as int],
                None => id.position >= self@.len(),
            },
    {
        let at: usize = id.position as usize;
        if at < self.accounts.len() {
            Some(&self.accounts[at])
        } else {
            None
        }
    }

    /// True when the account has no registered descendants and may be posted to.
    #[must_use]
    pub fn is_leaf(&self, id: AccountId) -> (r: bool)
        requires
            self.wf(),
        ensures
            r == (id.position >= self@.len() || is_leaf_at(self@, id.position as int)),
    {
        let at: usize = id.position as usize;
        if at < self.child_count.len() {
            self.child_count[at] == 0
        } else {
            true
        }
    }

    /// Number of registered accounts.
    #[must_use]
    pub fn len(&self) -> (n: usize)
        ensures
            n == self@.len(),
    {
        self.accounts.len()
    }

    /// True when nothing is registered.
    #[must_use]
    pub fn is_empty(&self) -> (r: bool)
        ensures
            r == (self@.len() == 0),
    {
        self.accounts.len() == 0
    }

    /// Every registered account with its handle, in path order.
    #[must_use]
    pub fn iter(&self) -> (pairs: Vec<(AccountId, &Account)>)
        requires
            self.wf(),
        ensures
            pairs@.len() == self@.len(),
            forall|i: int|
                0 <= i < pairs@.len() ==> (#[trigger] pairs@[i]).0.position < self@.len()
                    && pairs@[i].1@ == self@[pairs@[i].0.position as int],
            forall|i: int, j: int|
                0 <= i < j < pairs@.len() ==> path_before(
                    (#[trigger] pairs@[i]).1@.path,
                    (#[trigger] pairs@[j]).1@.path,
                ),
    {
        let total: usize = self.index.len();
        proof {
            self.lemma_index_len();
            self.index.lemma_sequences();
        }
        let mut pairs: Vec<(AccountId, &Account)> = Vec::with_capacity(total);
        let mut i: usize = 0;
        while i < total
            invariant
                self.wf(),
                i <= total,
                total == self.index.keys().len(),
                total == self.index.values().len(),
                total == self@.len(),
                forall|k: int|
                    0 <= k < total ==> self.index@.contains_key(#[trigger] self.index.keys()[k])
                        && self.index@[self.index.keys()[k]] == self.index.values()[k],
                pairs@.len() == i,
                forall|k: int|
                    0 <= k < i ==> (#[trigger] pairs@[k]).0.position < self@.len() && pairs@[k].1@
                        == self@[pairs@[k].0.position as int] && pairs@[k].1@.path
                        == self.index.keys()[k],
            decreases total - i,
        {
            let id: AccountId = *self.index.value_at(i);
            assert(self.index@.contains_key(self.index.keys()[i as int]));
            pairs.push((id, &self.accounts[id.position as usize]));
            i += 1;
        }
        assert forall|i: int, j: int| 0 <= i < j < pairs@.len() implies path_before(
            (#[trigger] pairs@[i]).1@.path,
            (#[trigger] pairs@[j]).1@.path,
        ) by {
            assert(path_before(self.index.keys()[i], self.index.keys()[j]));
        }
        pairs
    }

    /// Handles of every account at or below `prefix`, in path order.
    ///
    /// Includes `prefix` itself when it is registered, so this is the set a
    /// rollup over that node covers.
    #[must_use]
    pub fn descendants_of(&self, prefix: &AccountPath) -> (ids: Vec<AccountId>)
        requires
            self.wf(),
        ensures
            forall|i: int|
                0 <= i < ids@.len() ==> (#[trigger] ids@[i]).position < self@.len() && is_under(
                    self@[ids@[i].position as int].path,
                    prefix@,
                ),
            forall|i: int, j: int|
                0 <= i < j < ids@.len() ==> path_before(
                    self@[(#[trigger] ids@[i]).position as int].path,
                    self@[(#[trigger] ids@[j]).position as int].path,
                ),
            forall|h: int|
                0 <= h < self@.len() && is_under((#[trigger] self@[h]).path, prefix@)
                    ==> ids@.contains(AccountId { position: h as u32 }),
    {
        let start: usize = self.index.lower_bound(prefix);
        let total: usize = self.index.len();
        proof {
            self.index.lemma_sequences();
            self.lemma_outside_run(prefix@, start as int);
        }
        let mut ids: Vec<AccountId> = Vec::new();
        let mut at: usize = start;
        while at < total && self.index.key_at(at).is_under(prefix)
            invariant
                self.wf(),
                start <= at <= total,
                total == self.index.keys().len(),
                total == self.index.values().len(),
                forall|k: int|
                    0 <= k < total ==> self.index@.contains_key(#[trigger] self.index.keys()[k])
                        && self.index@[self.index.keys()[k]] == self.index.values()[k],
                ids@.len() == at - start,
                forall|k: int|
                    start <= k < at ==> is_under(#[trigger] self.index.keys()[k], prefix@),
                forall|k: int|
                    0 <= k < ids@.len() ==> (#[trigger] ids@[k]).position < self@.len()
                        && self@[ids@[k].position as int].path == self.index.keys()[start + k],
            decreases total - at,
        {
            assert(self.index@.contains_key(self.index.keys()[at as int]));
            ids.push(*self.index.value_at(at));
            at += 1;
        }
        proof {
            let keys = self.index.keys();
            assert forall|i: int, j: int| 0 <= i < j < ids@.len() implies path_before(
                self@[(#[trigger] ids@[i]).position as int].path,
                self@[(#[trigger] ids@[j]).position as int].path,
            ) by {
                assert(path_before(keys[start + i], keys[start + j]));
            }
            assert forall|i: int| 0 <= i < ids@.len() implies (#[trigger] ids@[i]).position
                < self@.len() && is_under(self@[ids@[i].position as int].path, prefix@) by {
                assert(is_under(keys[start + i], prefix@));
            }
            assert forall|h: int|
                0 <= h < self@.len() && is_under(
                    (#[trigger] self@[h]).path,
                    prefix@,
                ) implies ids@.contains(AccountId { position: h as u32 }) by {
                let path = self@[h].path;
                assert(self.index@.contains_key(path));
                let k = choose|k: int| 0 <= k < keys.len() && #[trigger] keys[k] == path;
                lemma_prefix_comes_first(prefix@, path);
                assert(k >= start);
                if k >= at {
                    if k > at {
                        assert(path_before(keys[at as int], keys[k]));
                        lemma_descendants_are_contiguous(prefix@, keys[at as int], path);
                    }
                    assert(false);
                }
                assert(ids@[k - start].position == h) by {
                    assert(self@[ids@[k - start].position as int].path == keys[k]);
                    assert(self.index@[path].position == h);
                    assert(self.index@[self@[ids@[k - start].position as int].path].position
                        == ids@[k - start].position);
                }
                assert(ids@[k - start] == AccountId { position: h as u32 });
            }
        }
        ids
    }

    /// Closes an account from `on`, so postings after that date are refused.
    ///
    /// Closing is master data, not a journal event: it changes what may be
    /// booked next, and never what was booked already.
    pub fn close(&mut self, id: AccountId, on: Date) -> (r: Result<(), AccountError>)
        requires
            old(self).wf(),
        ensures
            final(self).wf(),
            ({
                let at = id.position as int;
                let closed = AccountFacts { closed_on: Some(on), ..old(self)@[at] };
                match r {
                    Ok(_) => {
                        &&& at < old(self)@.len()
                        &&& window_in_order(closed)
                        &&& final(self)@ == old(self)@.update(at, closed)
                    },
                    Err(e) => {
                        &&& final(self)@ == old(self)@
                        &&& if at >= old(self)@.len() {
                            e == AccountError::UnknownAccount { id }
                        } else {
                            !window_in_order(closed) && is_inverted_window(closed, e)
                        }
                    },
                }
            }),
    {
        let at: usize = id.position as usize;
        if at >= self.accounts.len() {
            return Err(AccountError::UnknownAccount { id });
        }
        if on.is_before(&self.accounts[at].opened_on) {
            return Err(
                AccountError::ClosedBeforeOpened {
                    path: self.accounts[at].path.clone(),
                    opened: self.accounts[at].opened_on,
                    closed: on,
                },
            );
        }
        self.accounts[at].closed_on = Some(on);
        proof {
            self.lemma_replaced(old(self), at as int);
        }
        Ok(())
    }

    /// Reopens a closed account.
    pub fn reopen(&mut self, id: AccountId) -> (r: Result<(), AccountError>)
        requires
            old(self).wf(),
        ensures
            final(self).wf(),
            ({
                let at = id.position as int;
                match r {
                    Ok(_) => at < old(self)@.len() && final(self)@ == old(self)@.update(
                        at,
                        AccountFacts { closed_on: None, ..old(self)@[at] },
                    ),
                    Err(e) => at >= old(self)@.len() && final(self)@ == old(self)@ && e
                        == AccountError::UnknownAccount { id },
                }
            }),
    {
        let at: usize = id.position as usize;
        if at >= self.accounts.len() {
            return Err(AccountError::UnknownAccount { id });
        }
        self.accounts[at].closed_on = None;
        proof {
            self.lemma_replaced(old(self), at as int);
        }
        Ok(())
    }

    /// Sets which side an account's net balance may fall on.
    ///
    /// Master data, like closing: it governs what may be booked next and never
    /// what was booked already. Tightening a limit on an account that already
    /// breaches it is therefore permitted, and nothing recorded is invalidated.
    ///
    /// What it does mean is that the account is then frozen against any further
    /// movement the wrong way, *including a partial repair*: the rule is that
    /// the balance an accepted entry leaves behind satisfies the limit, and a
    /// half-repaired balance does not. One entry that brings it back over the
    /// line is accepted; two that each get halfway are not. Lift the limit if
    /// that is what you need, so the exception is a deliberate act on the
    /// record rather than a rule that quietly bends.
    pub fn set_limit(&mut self, id: AccountId, limit: BalanceLimit) -> (r: Result<
        (),
        AccountError,
    >)
        requires
            old(self).wf(),
        ensures
            final(self).wf(),
            ({
                let at = id.position as int;
                match r {
                    Ok(_) => at < old(self)@.len() && final(self)@ == old(self)@.update(
                        at,
                        AccountFacts { limit, ..old(self)@[at] },
                    ),
                    Err(e) => at >= old(self)@.len() && final(self)@ == old(self)@ && e
                        == AccountError::UnknownAccount { id },
                }
            }),
    {
        let at: usize = id.position as usize;
        if at >= self.accounts.len() {
            return Err(AccountError::UnknownAccount { id });
        }
        self.accounts[at].limit = limit;
        proof {
            self.lemma_replaced(old(self), at as int);
        }
        Ok(())
    }

    /// The limit on an account, or [`BalanceLimit::Unlimited`] if it is not
    /// registered.
    #[must_use]
    pub fn limit_of(&self, id: AccountId) -> (limit: BalanceLimit)
        ensures
            limit == (if id.position < self@.len() {
                self@[id.position as int].limit
            } else {
                BalanceLimit::Unlimited
            }),
    {
        match self.get(id) {
            Some(account) => account.limit,
            None => BalanceLimit::Unlimited,
        }
    }

    /// Every account with its handle, in handle order.
    #[must_use]
    pub fn records(&self) -> (records: Vec<AccountRecord>)
        requires
            self.wf(),
        ensures
            bindings_of(records@) == bindings(self@),
    {
        let n: usize = self.accounts.len();
        let mut records: Vec<AccountRecord> = Vec::with_capacity(n);
        let mut i: usize = 0;
        while i < n
            invariant
                i <= n,
                n == self@.len(),
                n <= MAX_ACCOUNTS,
                records@.len() == i,
                forall|k: int| 0 <= k < i ==> (#[trigger] records@[k])@ == bindings(self@)[k],
            decreases n - i,
        {
            records.push(
                AccountRecord {
                    id: AccountId { position: i as u32 },
                    account: self.accounts[i].clone(),
                },
            );
            i += 1;
        }
        assert(bindings_of(records@) =~= bindings(self@));
        records
    }

    /// Restores one stored binding, at the handle it was issued.
    ///
    /// For a backend rehydrating a registry one record at a time, and for
    /// pushing a master-data change back to one. Unlike
    /// [`AccountRegistry::register`], which issues the next free handle, this
    /// insists the record land where it says it belongs — a binding restored at
    /// a different position would repoint every posting row that names it.
    ///
    /// At a handle already held, the **path is immutable** and everything else
    /// is master data: the classification, the open window and the balance limit
    /// are taken from the record. That is what makes closing an account or
    /// tightening a limit durable, and it is safe for the same reason those are
    /// mutable in the first place — they govern what may be booked next, never
    /// what was booked already. Restoring an unchanged record is therefore a
    /// no-op, so a backend may replay its whole account table on start-up.
    ///
    /// # Errors
    ///
    /// Returns [`AccountError::NotDense`] when the handle is neither held nor
    /// the next one, and [`AccountError::AlreadyRegistered`] when the handle is
    /// held by a *different path* — which would repoint history.
    pub fn restore(&mut self, record: AccountRecord) -> (r: Result<(), AccountError>)
        requires
            old(self).wf(),
        ensures
            final(self).wf(),
            ({
                let at = record.id.position as int;
                let account = record.account@;
                match r {
                    Ok(_) => if at < old(self)@.len() {
                        &&& account.path == old(self)@[at].path
                        &&& window_in_order(account)
                        &&& final(self)@ == old(self)@.update(at, account)
                    } else {
                        &&& at == old(self)@.len()
                        &&& accepts_account(old(self)@, account)
                        &&& final(self)@ == old(self)@.push(account)
                    },
                    Err(e) => {
                        &&& final(self)@ == old(self)@
                        &&& if at < old(self)@.len() {
                            if account.path != old(self)@[at].path {
                                e matches AccountError::AlreadyRegistered { path } && path@ == old(
                                    self,
                                )@[at].path
                            } else {
                                !window_in_order(account) && is_inverted_window(account, e)
                            }
                        } else if at > old(self)@.len() {
                            e == AccountError::NotDense {
                                expected: old(self)@.len() as u32,
                                found: record.id.position,
                            }
                        } else {
                            !accepts_account(old(self)@, account) && refuses_account(
                                old(self)@,
                                account,
                                e,
                            )
                        }
                    },
                }
            }),
    {
        let at: usize = record.id.position as usize;
        if at < self.accounts.len() {
            if !self.accounts[at].path.same(&record.account.path) {
                return Err(
                    AccountError::AlreadyRegistered { path: self.accounts[at].path.clone() },
                );
            }
            if !record.account.window_is_in_order() {
                return Err(record.account.inverted_window());
            }
            // The path is unchanged, so the index, the child counts and every
            // handle stay exactly as they were; only the mutable fields move.
            self.accounts[at] = record.account;
            proof {
                self.lemma_replaced(old(self), at as int);
            }
            return Ok(());
        }
        if at != self.accounts.len() {
            return Err(
                AccountError::NotDense {
                    expected: self.accounts.len() as u32,
                    found: record.id.position,
                },
            );
        }
        match self.register(record.account) {
            Ok(_) => Ok(()),
            Err(e) => Err(e),
        }
    }

    /// Rebuilds a registry from stored bindings.
    ///
    /// Restores each account at the handle it was issued rather than reissuing
    /// handles in iteration order, which is what makes a restart safe.
    ///
    /// # Errors
    ///
    /// Returns [`AccountError::NotDense`] if the handles are not `0..n` exactly
    /// once each, and [`AccountError::AlreadyRegistered`] if two records share a
    /// path. Either means the stored set is not the one the handles were issued
    /// against, and posting against it would corrupt history.
    pub fn from_records(records: Vec<AccountRecord>) -> (r: Result<Self, AccountError>)
        ensures
            exists|order: Seq<int>|
                {
                    let sorted = picked(bindings_of(records@), order);
                    &&& #[trigger] by_handle(bindings_of(records@), order)
                    &&& match r {
                        Ok(registry) => {
                            &&& registry.wf()
                            &&& restores(sorted, sorted.len() as int)
                            &&& registry@ == accounts_of(sorted)
                        },
                        Err(e) => exists|k: int|
                            0 <= k < sorted.len() && restores(sorted, k) && fails_at(sorted, k, e),
                    }
                },
    {
        let ghost given = bindings_of(records@);
        let mut triples: Vec<(u128, u16, usize)> = Vec::with_capacity(records.len());
        let mut i: usize = 0;
        while i < records.len()
            invariant
                i <= records.len(),
                given == bindings_of(records@),
                triples@.len() == i,
                forall|k: int|
                    0 <= k < i ==> #[trigger] triples@[k] == (
                        given[k].id.position as u128,
                        0u16,
                        k as usize,
                    ),
            decreases records.len() - i,
        {
            triples.push((records[i].id.position as u128, 0, i));
            i += 1;
        }
        let ghost unsorted = triples@;
        sort_triples(&mut triples);
        let ghost order = triples@.map_values(|t: (u128, u16, usize)| t.2 as int);
        let ghost sorted = picked(given, order);
        proof {
            assert(unsorted.no_duplicates());
            sorting::lemma_sorted_positions(unsorted, triples@);
            assert forall|k: int| 0 <= k < triples@.len() implies {
                &&& 0 <= #[trigger] order[k] < given.len()
                &&& triples@[k] == (given[order[k]].id.position as u128, 0u16, order[k] as usize)
            } by {
                assert(triples@.contains(triples@[k]));
                assert(unsorted.contains(triples@[k]));
            }
            assert forall|j: int, k: int| 0 <= j < k < order.len() implies {
                let (a, b) = (given[#[trigger] order[j]].id, given[#[trigger] order[k]].id);
                a.position < b.position || (a.position == b.position && order[j] < order[k])
            } by {
                assert(sorting::at_most(triples@[j], triples@[k]));
                assert(triples@[j] != triples@[k]);
            }
            assert(by_handle(given, order));
        }
        let mut registry = AccountRegistry::new();
        let mut k: usize = 0;
        assert(accounts_of(sorted.take(0)) =~= Seq::empty());
        while k < triples.len()
            invariant
                k <= triples.len(),
                triples@.len() == given.len(),
                given == bindings_of(records@),
                given.len() == records@.len(),
                by_handle(given, order),
                sorted == picked(given, order),
                order == triples@.map_values(|t: (u128, u16, usize)| t.2 as int),
                registry.wf(),
                registry@ == accounts_of(sorted.take(k as int)),
                restores(sorted, k as int),
            decreases triples.len() - k,
        {
            let at: usize = triples[k].2;
            assert(order[k as int] == at);
            let record = &records[at];
            assert(sorted[k as int] == record@);
            proof {
                registry.lemma_wf();
                assert(registry@.len() == k);
            }
            if record.id.position as usize != k {
                let e = AccountError::NotDense { expected: k as u32, found: record.id.position };
                assert(fails_at(sorted, k as int, e));
                return Err(e);
            }
            match registry.register(record.account.clone()) {
                Ok(_) => {},
                Err(e) => {
                    assert(fails_at(sorted, k as int, e));
                    return Err(e);
                },
            }
            assert(accounts_of(sorted.take(k + 1)) =~= accounts_of(sorted.take(k as int)).push(
                sorted[k as int].account,
            ));
            k += 1;
        }
        assert(sorted.take(sorted.len() as int) =~= sorted);
        Ok(registry)
    }

    /// A Merkle head over every handle-to-account binding, in handle order.
    ///
    /// Two registries agree on this only if they agree on every account *and*
    /// on the handle each was issued. Comparing a locally built registry
    /// against the stored one turns a silent repointing into a caught mismatch.
    ///
    /// A seal records this alongside its trial-balance root, so the handles that
    /// root is keyed on are pinned to the paths they meant at the moment of
    /// sealing. Without it, renumbering the registry afterwards would leave every
    /// seal and every balance proof verifying while every balance referred to a
    /// different account.
    ///
    /// A head and not a bare root, because the size is half of what an
    /// [`AccountBindingProof`] is checked against. It also states how many
    /// handles the registry had issued, which is the number a verifier needs to
    /// know that a handle it was shown is one the registry had actually reached.
    #[must_use]
    pub fn commitment(&self) -> (head: TreeHead)
        requires
            self.wf(),
        ensures
            head == commitment_of(self@),
    {
        self.binding_log().head()
    }

    /// The Merkle log the commitment is the root of.
    ///
    /// Leaves are in handle order, so a handle is its own leaf index — which is
    /// what makes [`AccountRegistry::prove_binding`] a direct lookup.
    fn binding_log(&self) -> (log: MerkleLog)
        requires
            self.wf(),
        ensures
            log.wf(),
            log@ == binding_leaves(self@),
    {
        let records = self.records();
        let mut leaves: Vec<Digest> = Vec::with_capacity(records.len());
        let mut i: usize = 0;
        while i < records.len()
            invariant
                i <= records.len(),
                bindings_of(records@) == bindings(self@),
                leaves@.len() == i,
                forall|k: int| 0 <= k < i ==> #[trigger] leaves@[k] == binding_leaves(self@)[k],
            decreases records.len() - i,
        {
            leaves.push(account_binding_leaf(&records[i]));
            assert(bindings_of(records@)[i as int] == records@[i as int]@);
            i += 1;
        }
        assert(bindings_of(records@).len() == records@.len());
        assert(leaves@ =~= binding_leaves(self@));
        MerkleLog::from_leaves(leaves)
    }

    /// The registry as it stood when its commitment had this root, which is what a
    /// seal taken back then recorded.
    ///
    /// Accounts are only ever added at the end, so an earlier registry is the
    /// first few accounts of this one. Where several have the root, the largest is
    /// returned; `None` where none has, as when an account it held was closed or
    /// limited since.
    #[must_use]
    pub fn as_of(&self, root: &Digest) -> (r: Option<Self>)
        requires
            self.wf(),
        ensures
            match r {
                Some(earlier) => {
                    &&& earlier.wf()
                    &&& committed_at(self@, earlier@.len() as int, *root)
                    &&& earlier@ == self@.take(earlier@.len() as int)
                    &&& forall|n: int| #[trigger]
                        committed_at(self@, n, *root) ==> n <= earlier@.len()
                },
                None => forall|n: int| !#[trigger] committed_at(self@, n, *root),
            },
            forall|n: int|
                0 <= n <= self@.len() && commitment_of(#[trigger] self@.take(n)).root == *root
                    ==> r is Some && n <= r->0@.len(),
    {
        let log = self.binding_log();
        let mut n: usize = self.accounts.len();
        loop
            invariant
                self.wf(),
                n <= self@.len(),
                log@ == binding_leaves(self@),
                forall|k: int| #[trigger] committed_at(self@, k, *root) ==> k <= n,
                forall|k: int|
                    0 <= k <= self@.len() && commitment_of(#[trigger] self@.take(k)).root == *root
                        ==> committed_at(self@, k, *root),
            decreases n,
        {
            assert(binding_leaves(self@).take(n as int) =~= binding_leaves(self@.take(n as int)));
            if let Ok(found) = log.root_at(n as u64) {
                if found == *root {
                    assert(committed_at(self@, n as int, *root));
                    return Some(self.first(n));
                }
            }
            assert(!committed_at(self@, n as int, *root));
            if n == 0 {
                return None;
            }
            n -= 1;
        }
    }

    /// The registry of the first `n` accounts.
    fn first(&self, n: usize) -> (registry: Self)
        requires
            self.wf(),
            n <= self@.len(),
        ensures
            registry.wf(),
            registry@ == self@.take(n as int),
    {
        let mut registry = AccountRegistry::new();
        let mut i: usize = 0;
        assert(self@.take(0) =~= registry@);
        while i < n
            invariant
                i <= n <= self@.len(),
                self.wf(),
                registry.wf(),
                registry@ == self@.take(i as int),
            decreases n - i,
        {
            proof {
                self.lemma_wf();
                assert(window_in_order(self@[i as int]));
                if registered(registry@, self@[i as int].path) {
                    let j = choose|j: int|
                        0 <= j < registry@.len() && (#[trigger] registry@[j]).path
                            == self@[i as int].path;
                    assert(registry@[j] == self@[j]);
                    assert(self@[j].path != self@[i as int].path);
                }
                assert(accepts_account(registry@, self@[i as int]));
                assert(self@.take(i + 1) =~= self@.take(i as int).push(self@[i as int]));
            }
            let registered = registry.register(self.accounts[i].clone());
            assert(registered is Ok);
            i += 1;
        }
        registry
    }

    /// Proves which account a handle was issued to.
    ///
    /// The companion to a balance proof. That proof establishes what handle `#7`
    /// held; this one establishes that `#7` is `Assets:Cash`. Together with a
    /// seal they make a closing balance a self-describing claim, checkable by
    /// someone who holds neither the trial balance nor the chart of accounts.
    ///
    /// Returns `None` when the handle is not registered. The proof given
    /// verifies against the registry's own commitment.
    #[must_use]
    pub fn prove_binding(&self, id: AccountId) -> (r: Option<AccountBindingProof>)
        requires
            self.wf(),
        ensures
            match r {
                Some(proof) => {
                    &&& id.position < self@.len()
                    &&& proof.record@ == bindings(self@)[id.position as int]
                    &&& proof.proof.is_audit_path(id.position as u64, binding_leaves(self@))
                    &&& proof.attests(commitment_of(self@))
                    &&& proof.attests(commitment_of(self@).root)
                },
                None => id.position >= self@.len(),
            },
    {
        let account = match self.get(id) {
            Some(account) => account.clone(),
            None => {
                return None;
            },
        };
        let record = AccountRecord { id, account };
        let log = self.binding_log();
        match log.inclusion_proof(id.position as u64) {
            Ok(proof) => {
                proof {
                    assert(record@ =~= bindings(self@)[id.position as int]);
                    merkle::law_inclusion_proofs_verify(
                        proof,
                        id.position as u64,
                        binding_leaves(self@),
                    );
                }
                Some(AccountBindingProof { record, proof })
            },
            Err(_) => None,
        }
    }

    /// Replacing an account by one with the same path keeps the registry sound.
    proof fn lemma_replaced(&self, before: &Self, at: int)
        requires
            before.wf(),
            0 <= at < before@.len(),
            self.index == before.index,
            self.child_count == before.child_count,
            self.accounts@ == before.accounts@.update(at, self.accounts@[at]),
            self.accounts@[at]@.path == before@[at].path,
            window_in_order(self.accounts@[at]@),
        ensures
            self.wf(),
            self@ == before@.update(at, self.accounts@[at]@),
    {
        assert(self@ =~= before@.update(at, self.accounts@[at]@));
        assert forall|i: int| 0 <= i < self@.len() implies (#[trigger] self@[i]).path
            == before@[i].path by {}
        assert forall|i: int| 0 <= i < self@.len() implies (#[trigger] self.child_count@[i] == 0
            <==> is_leaf_at(self@, i)) by {
            if is_leaf_at(self@, i) {
                assert forall|j: int| 0 <= j < before@.len() && j != i implies !is_under(
                    (#[trigger] before@[j]).path,
                    before@[i].path,
                ) by {
                    assert(!is_under(self@[j].path, self@[i].path));
                }
            }
            if is_leaf_at(before@, i) {
                assert forall|j: int| 0 <= j < self@.len() && j != i implies !is_under(
                    (#[trigger] self@[j]).path,
                    self@[i].path,
                ) by {
                    assert(!is_under(before@[j].path, before@[i].path));
                }
            }
        }
    }

    /// As many paths are indexed as accounts are registered.
    proof fn lemma_index_len(&self)
        requires
            self.wf(),
            self.index.wf(),
        ensures
            self.index.keys().len() == self@.len(),
    {
        self.index.lemma_sequences();
        self.index.lemma_len();
        let keys = self.index.keys();
        let f = |i: int| self.index@[keys[i]].position as int;
        vstd::set_lib::lemma_int_range(0, self@.len() as int);
        vstd::set_lib::lemma_int_range(0, keys.len() as int);
        let positions = vstd::set_lib::set_int_range(0, keys.len() as int);
        let handles = vstd::set_lib::set_int_range(0, self@.len() as int);
        assert forall|i: int, j: int|
            positions.contains(i) && positions.contains(j) && #[trigger] f(i) == #[trigger] f(
                j,
            ) implies i == j by {
            assert(self.index@.contains_key(keys[i]) && self.index@.contains_key(keys[j]));
            AccountPath::lemma_irreflexive(keys[i]);
            if i < j {
                assert(path_before(keys[i], keys[j]));
            } else if j < i {
                assert(path_before(keys[j], keys[i]));
            }
        }
        assert forall|h: int| handles.contains(h) implies positions.map(f).contains(h) by {
            let path = self@[h].path;
            assert(self.index@.contains_key(path));
            let i = choose|i: int| 0 <= i < keys.len() && #[trigger] keys[i] == path;
            assert(positions.contains(i) && f(i) == h);
        }
        assert forall|h: int| positions.map(f).contains(h) implies handles.contains(h) by {
            let i = choose|i: int| positions.contains(i) && f(i) == h;
            assert(self.index@.contains_key(keys[i]));
        }
        assert(positions.map(f) =~= handles);
        vstd::set_lib::lemma_map_size(positions, handles, f);
    }

    /// Nothing outside the run that starts at the lower bound lies under a
    /// prefix.
    proof fn lemma_outside_run(&self, prefix: Seq<Seq<char>>, start: int)
        requires
            0 <= start <= self.index.keys().len(),
            forall|i: int| 0 <= i < start ==> path_before(#[trigger] self.index.keys()[i], prefix),
        ensures
            forall|i: int|
                0 <= i < start ==> !is_under(#[trigger] self.index.keys()[i], prefix),
    {
        assert forall|i: int| 0 <= i < start implies !is_under(
            #[trigger] self.index.keys()[i],
            prefix,
        ) by {
            if is_under(self.index.keys()[i], prefix) {
                lemma_prefix_comes_first(prefix, self.index.keys()[i]);
            }
        }
    }
}

impl Default for AccountRegistry {
    fn default() -> (registry: Self)
        ensures
            registry.wf(),
            registry@ == Seq::<AccountFacts>::empty(),
    {
        AccountRegistry::new()
    }
}

impl Clone for AccountRegistry {
    fn clone(&self) -> (copy: Self)
        ensures
            copy@ == self@,
            self.wf() ==> copy.wf(),
    {
        let n: usize = self.accounts.len();
        let mut accounts: Vec<Account> = Vec::with_capacity(n);
        let mut child_count: Vec<u32> = Vec::with_capacity(n);
        let mut index: SortedMap<AccountPath, AccountId> = SortedMap::new();
        let mut i: usize = 0;
        while i < n
            invariant
                i <= n,
                n == self.accounts@.len(),
                accounts@.len() == i,
                forall|k: int| 0 <= k < i ==> (#[trigger] accounts@[k])@ == self@[k],
                self.wf() ==> {
                    &&& indexes(index@, self@.take(i as int))
                    &&& child_count@ == self.child_count@.take(i as int)
                },
            decreases n - i,
        {
            let account = self.accounts[i].clone();
            let path = account.path.clone();
            if i < self.child_count.len() {
                child_count.push(self.child_count[i]);
            }
            let ghost before = index@;
            index.insert(path, AccountId { position: i as u32 });
            accounts.push(account);
            proof {
                if self.wf() {
                    self.lemma_wf();
                    let known = self@.take(i as int);
                    let more = self@.take(i + 1);
                    assert(more =~= known.push(self@[i as int]));
                    assert forall|k: int| 0 <= k < more.len() implies index@.contains_key(
                        (#[trigger] more[k]).path,
                    ) && index@[more[k].path].position == k by {
                        if k < i {
                            assert(known[k] == more[k]);
                            assert(before.contains_key(known[k].path));
                            assert(self@[k].path != self@[i as int].path);
                        }
                    }
                    assert(child_count@ =~= self.child_count@.take(i + 1));
                }
            }
            i += 1;
        }
        let copy = AccountRegistry { accounts, index, child_count };
        proof {
            assert(copy@ =~= self@);
            assert(self@.take(n as int) =~= self@);
            if self.wf() {
                assert(self.child_count@.take(n as int) =~= self.child_count@);
            }
        }
        copy
    }
}

// ── what paths and commitments promise ──────────────────────────────────────

/// True when no segment holds a separator.
pub open spec fn separable(path: Seq<Seq<char>>) -> bool {
    forall|i: int| 0 <= i < path.len() ==> !(#[trigger] path[i]).contains(SEPARATOR)
}

proof fn lemma_split_is_never_empty(s: Seq<char>)
    ensures
        split_segments(s).len() >= 1,
    decreases s.len(),
{
    if s.len() > 0 {
        lemma_split_is_never_empty(s.drop_last());
    }
}

proof fn lemma_split_extends(s: Seq<char>, segment: Seq<char>)
    requires
        !segment.contains(SEPARATOR),
    ensures
        split_segments(s + segment) == split_segments(s).drop_last().push(
            split_segments(s).last() + segment,
        ),
    decreases segment.len(),
{
    lemma_split_is_never_empty(s);
    let before = split_segments(s);
    if segment.len() == 0 {
        assert(s + segment =~= s);
        assert(before.last() + segment =~= before.last());
        assert(before =~= before.drop_last().push(before.last()));
    } else {
        let shorter = segment.drop_last();
        assert forall|i: int| 0 <= i < shorter.len() implies shorter[i] != SEPARATOR by {
            assert(segment.contains(segment[i]));
        }
        lemma_split_extends(s, shorter);
        assert((s + segment).drop_last() =~= s + shorter);
        assert(segment.contains(segment.last()));
        let so_far = before.drop_last().push(before.last() + shorter);
        assert(so_far.drop_last() =~= before.drop_last());
        assert((before.last() + shorter).push(segment.last()) =~= before.last() + segment);
    }
}

/// Rendering a path and splitting the text gives its segments back, unless a
/// segment holds a separator itself.
pub proof fn law_splitting_undoes_joining(path: Seq<Seq<char>>)
    requires
        path.len() >= 1,
        separable(path),
    ensures
        split_segments(join_segments(path)) == path,
    decreases path.len(),
{
    if path.len() == 1 {
        let empty = Seq::<char>::empty();
        lemma_split_extends(empty, path[0]);
        assert(empty + path[0] =~= path[0]);
        assert(split_segments(path[0]) =~= path);
    } else {
        let outer = path.drop_last();
        assert forall|i: int| 0 <= i < outer.len() implies !(#[trigger] outer[i]).contains(
            SEPARATOR,
        ) by {
            assert(outer[i] == path[i]);
        }
        law_splitting_undoes_joining(outer);
        let head = join_segments(outer).push(SEPARATOR);
        assert(head.drop_last() =~= join_segments(outer));
        lemma_split_extends(head, path.last());
        assert(split_segments(head) =~= outer.push(Seq::empty()));
        assert(Seq::<char>::empty() + path.last() =~= path.last());
        assert(outer.push(Seq::empty()).drop_last() =~= outer);
        assert(path =~= outer.push(path.last()));
    }
}

/// Splitting text and joining the segments gives the text back: parsing a path
/// and rendering it changes nothing.
pub proof fn law_joining_undoes_splitting(s: Seq<char>)
    ensures
        join_segments(split_segments(s)) == s,
    decreases s.len(),
{
    if s.len() == 0 {
        assert(split_segments(s)[0] =~= s);
    } else {
        let before = split_segments(s.drop_last());
        law_joining_undoes_splitting(s.drop_last());
        lemma_split_is_never_empty(s.drop_last());
        if s.last() == SEPARATOR {
            assert(before.push(Seq::empty()).drop_last() =~= before);
            assert(join_segments(before.push(Seq::empty())) =~= s);
        } else {
            let after = before.drop_last().push(before.last().push(s.last()));
            assert(after.drop_last() =~= before.drop_last());
            if before.len() == 1 {
                assert(after.len() == 1 && after[0] =~= s);
            } else {
                assert(after.last() == before.last().push(s.last()));
                let head = join_segments(before.drop_last()).push(SEPARATOR);
                assert(join_segments(before) == head + before.last());
                assert(join_segments(after) == head + after.last());
                assert(join_segments(after) =~= join_segments(before).push(s.last()));
                assert(join_segments(after) =~= s);
            }
        }
    }
}

proof fn lemma_path_unambiguous(
    a: Seq<Seq<char>>,
    b: Seq<Seq<char>>,
    x: Seq<u8>,
    y: Seq<u8>,
)
    requires
        is_path(a),
        is_path(b),
        path_encoding(a) + x == path_encoding(b) + y,
    ensures
        a == b,
        x == y,
{
    let f = |s: Seq<char>| canonical::text_bytes(s);
    let ok = |s: Seq<char>| s.len() <= MAX_SEGMENT_LEN;
    assert forall|t: Seq<char>, u: Seq<char>, p: Seq<u8>, q: Seq<u8>|
        ok(t) && ok(u) && #[trigger] (f(t) + p) == #[trigger] (f(u) + q) implies t == u && p
        == q by {
        canonical::lemma_utf8_len(t);
        canonical::lemma_utf8_len(u);
        canonical::lemma_text_unambiguous(t, u, p, q);
    }
    assert forall|i: int| 0 <= i < a.len() implies ok(#[trigger] a[i]) by {
        lemma_path_segments(a, i);
    }
    assert forall|i: int| 0 <= i < b.len() implies ok(#[trigger] b[i]) by {
        lemma_path_segments(b, i);
    }
    canonical::lemma_counted_unambiguous(a, b, f, ok, x, y);
}

spec fn kind_payload(account: AccountFacts) -> Option<Seq<u8>> {
    match account.kind {
        Some(kind) => Some(seq![kind_byte(kind)]),
        None => None,
    }
}

spec fn closing_payload(account: AccountFacts) -> Option<Seq<u8>> {
    match account.closed_on {
        Some(closed) => Some(date::date_encoding(closed)),
        None => None,
    }
}

spec fn after_opening(account: AccountFacts) -> Seq<u8> {
    canonical::option_bytes(closing_payload(account)) + seq![limit_byte(account.limit)]
}

spec fn after_kind(account: AccountFacts) -> Seq<u8> {
    date::date_encoding(account.opened_on) + after_opening(account)
}

spec fn after_path(account: AccountFacts) -> Seq<u8> {
    canonical::option_bytes(kind_payload(account)) + after_kind(account)
}

proof fn lemma_kind_unambiguous(a: AccountFacts, b: AccountFacts)
    requires
        after_path(a) == after_path(b),
    ensures
        a.kind == b.kind,
        after_kind(a) == after_kind(b),
{
    canonical::lemma_option_split(kind_payload(a), kind_payload(b), after_kind(a), after_kind(b));
    if a.kind is Some {
        let (ka, kb) = (seq![kind_byte(a.kind->0)], seq![kind_byte(b.kind->0)]);
        canonical::lemma_split_at(ka, kb, after_kind(a), after_kind(b));
        assert(ka[0] == kb[0]);
    }
}

proof fn lemma_closing_unambiguous(a: AccountFacts, b: AccountFacts)
    requires
        after_opening(a) == after_opening(b),
    ensures
        a.closed_on == b.closed_on,
        a.limit == b.limit,
{
    let (la, lb) = (seq![limit_byte(a.limit)], seq![limit_byte(b.limit)]);
    canonical::lemma_option_split(closing_payload(a), closing_payload(b), la, lb);
    if a.closed_on is Some {
        date::lemma_date_unambiguous(a.closed_on->0, b.closed_on->0, la, lb);
    }
    assert(la[0] == lb[0]);
}

proof fn lemma_regroup(p: Seq<u8>, k: Seq<u8>, d: Seq<u8>, c: Seq<u8>, l: Seq<u8>)
    ensures
        p + k + d + c + l == p + (k + (d + (c + l))),
{
    assert(p + k + d + c + l =~= p + (k + (d + (c + l))));
}

proof fn lemma_account_parts(account: AccountFacts)
    ensures
        account_encoding(account) == path_encoding(account.path) + after_path(account),
{
    lemma_regroup(
        path_encoding(account.path),
        canonical::option_bytes(kind_payload(account)),
        date::date_encoding(account.opened_on),
        canonical::option_bytes(closing_payload(account)),
        seq![limit_byte(account.limit)],
    );
}

proof fn lemma_account_unambiguous(a: AccountFacts, b: AccountFacts)
    requires
        is_path(a.path),
        is_path(b.path),
        account_encoding(a) == account_encoding(b),
    ensures
        a == b,
{
    lemma_account_parts(a);
    lemma_account_parts(b);
    lemma_path_unambiguous(a.path, b.path, after_path(a), after_path(b));
    lemma_kind_unambiguous(a, b);
    date::lemma_date_unambiguous(a.opened_on, b.opened_on, after_opening(a), after_opening(b));
    lemma_closing_unambiguous(a, b);
}

/// The leaf of a binding pins the handle and the whole account: path, kind, open
/// window and limit.
pub proof fn law_binding_leaf_binds(a: Binding, b: Binding)
    requires
        is_path(a.account.path),
        is_path(b.account.path),
        binding_leaf(a) == binding_leaf(b),
        hash::collision_free(set![binding_input(a), binding_input(b)]),
    ensures
        a == b,
{
    let t = encode_utf8(tag::ACCOUNT_BINDING_V1@);
    lemma_binding_tag_is_short();
    hash::lemma_tagged_hash_binds(
        t,
        binding_encoding(a),
        t,
        binding_encoding(b),
        set![binding_input(a), binding_input(b)],
    );
    canonical::lemma_byte_range_values();
    canonical::lemma_le_bytes_unambiguous(
        a.id.position as nat,
        b.id.position as nat,
        4,
        account_encoding(a.account),
        account_encoding(b.account),
    );
    lemma_account_unambiguous(a.account, b.account);
}

proof fn lemma_binding_tag_is_short()
    ensures
        encode_utf8(tag::ACCOUNT_BINDING_V1@).len() <= u64::MAX,
{
    reveal_strlit("doubleentry/accountbinding/v1");
    assert(is_ascii_chars(tag::ACCOUNT_BINDING_V1@));
    is_ascii_chars_encode_utf8(tag::ACCOUNT_BINDING_V1@);
}

proof fn lemma_binding_is_hashed(accounts: Seq<AccountFacts>, i: int)
    requires
        0 <= i < accounts.len(),
    ensures
        commitment_inputs(accounts).contains(binding_input(bindings(accounts)[i])),
        binding_leaves(accounts)[i] == binding_leaf(bindings(accounts)[i]),
{
    let inputs = bindings(accounts).map_values(|b: Binding| binding_input(b));
    assert(inputs[i] == binding_input(bindings(accounts)[i]));
    assert(inputs.to_set().contains(inputs[i]));
}

/// Two registries agree on their commitment only if they agree on every account
/// and on the handle each was issued.
pub proof fn law_commitment_binds_accounts(a: Seq<AccountFacts>, b: Seq<AccountFacts>)
    requires
        a.len() <= MAX_ACCOUNTS,
        b.len() <= MAX_ACCOUNTS,
        forall|i: int| 0 <= i < a.len() ==> is_path((#[trigger] a[i]).path),
        forall|i: int| 0 <= i < b.len() ==> is_path((#[trigger] b[i]).path),
        commitment_of(a) == commitment_of(b),
        hash::collision_free(commitment_inputs(a).union(commitment_inputs(b))),
    ensures
        a == b,
{
    let hashed = commitment_inputs(a).union(commitment_inputs(b));
    let (la, lb) = (binding_leaves(a), binding_leaves(b));
    assert(hash::collision_free(merkle::log_inputs(la).union(merkle::log_inputs(lb)))) by {
        assert forall|x: Seq<u8>| merkle::log_inputs(la).union(merkle::log_inputs(lb)).contains(
            x,
        ) implies hashed.contains(x) by {}
    }
    merkle::law_root_binds_leaves(la, lb);
    assert forall|i: int| 0 <= i < a.len() implies a[i] == b[i] by {
        lemma_binding_is_hashed(a, i);
        lemma_binding_is_hashed(b, i);
        law_binding_leaf_binds(bindings(a)[i], bindings(b)[i]);
    }
    assert(a =~= b);
}

/// A binding proof that verifies against a registry's commitment names the
/// account that registry holds at that handle.
pub proof fn law_binding_proofs_bind(proof: AccountBindingProof, accounts: Seq<AccountFacts>)
    requires
        accounts.len() <= MAX_ACCOUNTS,
        forall|i: int| 0 <= i < accounts.len() ==> is_path((#[trigger] accounts[i]).path),
        is_path(proof.record@.account.path),
        proof.attests(commitment_of(accounts)),
        hash::collision_free(
            commitment_inputs(accounts).union(
                proof.proof.inputs(binding_leaf(proof.record@)),
            ).insert(binding_input(proof.record@)),
        ),
    ensures
        proof.record.id.position < accounts.len(),
        proof.record@.account == accounts[proof.record.id.position as int],
{
    let leaf = binding_leaf(proof.record@);
    let leaves = binding_leaves(accounts);
    let hashed = commitment_inputs(accounts).union(proof.proof.inputs(leaf)).insert(
        binding_input(proof.record@),
    );
    assert(hash::collision_free(proof.proof.inputs(leaf).union(merkle::log_inputs(leaves)))) by {
        assert forall|x: Seq<u8>| proof.proof.inputs(leaf).union(
            merkle::log_inputs(leaves),
        ).contains(x) implies hashed.contains(x) by {}
    }
    merkle::law_inclusion_proofs_bind(proof.proof, leaf, leaves);
    let i = proof.record.id.position as int;
    lemma_binding_is_hashed(accounts, i);
    law_binding_leaf_binds(proof.record@, bindings(accounts)[i]);
}

/// The root over the bindings alone, without their number, already binds every
/// account to its handle.
pub proof fn law_accounts_root_binds_accounts(a: Seq<AccountFacts>, b: Seq<AccountFacts>)
    requires
        a.len() <= MAX_ACCOUNTS,
        b.len() <= MAX_ACCOUNTS,
        forall|i: int| 0 <= i < a.len() ==> is_path((#[trigger] a[i]).path),
        forall|i: int| 0 <= i < b.len() ==> is_path((#[trigger] b[i]).path),
        commitment_of(a).root == commitment_of(b).root,
        hash::collision_free(
            commitment_inputs(a).union(commitment_inputs(b)).insert(merkle::empty_input()),
        ),
    ensures
        a == b,
{
    let hashed = commitment_inputs(a).union(commitment_inputs(b)).insert(merkle::empty_input());
    lemma_every_binding_is_in(a, b, hashed);
    lemma_every_binding_is_in(b, a, hashed);
    if a.len() > b.len() {
        assert(agree_at(a, b, a.len() - 1));
    }
    if b.len() > a.len() {
        assert(agree_at(b, a, b.len() - 1));
    }
    assert forall|i: int| 0 <= i < a.len() implies a[i] == b[i] by {
        assert(agree_at(a, b, i));
    }
    assert(a =~= b);
}

/// True when both registries hold the same account at a handle.
spec fn agree_at(a: Seq<AccountFacts>, b: Seq<AccountFacts>, i: int) -> bool {
    i < b.len() && a[i] == b[i]
}

proof fn lemma_every_binding_is_in(
    a: Seq<AccountFacts>,
    b: Seq<AccountFacts>,
    hashed: Set<Seq<u8>>,
)
    requires
        a.len() <= MAX_ACCOUNTS,
        b.len() <= MAX_ACCOUNTS,
        forall|i: int| 0 <= i < a.len() ==> is_path((#[trigger] a[i]).path),
        forall|i: int| 0 <= i < b.len() ==> is_path((#[trigger] b[i]).path),
        merkle::root_of(binding_leaves(a)) == merkle::root_of(binding_leaves(b)),
        hash::collision_free(hashed),
        commitment_inputs(a).subset_of(hashed),
        commitment_inputs(b).subset_of(hashed),
        hashed.contains(merkle::empty_input()),
    ensures
        forall|i: int| 0 <= i < a.len() ==> #[trigger] agree_at(a, b, i),
{
    let (la, lb) = (binding_leaves(a), binding_leaves(b));
    assert(hash::collision_free(
        merkle::log_inputs(la).union(merkle::log_inputs(lb)).insert(merkle::empty_input()),
    )) by {
        assert forall|x: Seq<u8>| merkle::log_inputs(la).union(merkle::log_inputs(lb)).insert(
            merkle::empty_input(),
        ).contains(x) implies hashed.contains(x) by {
            assert(merkle::log_inputs(la).contains(x) ==> commitment_inputs(a).contains(x));
            assert(merkle::log_inputs(lb).contains(x) ==> commitment_inputs(b).contains(x));
        }
    }
    merkle::law_root_binds_the_set_of_leaves(la, lb);
    assert forall|i: int| 0 <= i < a.len() implies #[trigger] agree_at(a, b, i) by {
        assert(lb.contains(la[i]));
        let j = choose|j: int| 0 <= j < lb.len() && lb[j] == la[i];
        lemma_binding_is_hashed(a, i);
        lemma_binding_is_hashed(b, j);
        assert(hashed.contains(binding_input(bindings(a)[i])));
        assert(hashed.contains(binding_input(bindings(b)[j])));
        law_binding_leaf_binds(bindings(a)[i], bindings(b)[j]);
        assert(i as u32 == j as u32);
    }
}

/// A binding proof that verifies against the root of a registry's bindings names
/// the account that registry holds at that handle.
pub proof fn law_binding_proofs_bind_under_a_root(
    proof: AccountBindingProof,
    accounts: Seq<AccountFacts>,
)
    requires
        accounts.len() <= MAX_ACCOUNTS,
        forall|i: int| 0 <= i < accounts.len() ==> is_path((#[trigger] accounts[i]).path),
        is_path(proof.record@.account.path),
        proof.attests(commitment_of(accounts).root),
        hash::collision_free(
            commitment_inputs(accounts).union(
                proof.proof.inputs(binding_leaf(proof.record@)),
            ).insert(binding_input(proof.record@)).insert(merkle::empty_input()),
        ),
    ensures
        proof.record.id.position < accounts.len(),
        proof.record@.account == accounts[proof.record.id.position as int],
{
    let leaf = binding_leaf(proof.record@);
    let leaves = binding_leaves(accounts);
    let hashed = commitment_inputs(accounts).union(proof.proof.inputs(leaf)).insert(
        binding_input(proof.record@),
    ).insert(merkle::empty_input());
    let fewer = proof.proof.inputs(leaf).union(merkle::log_inputs(leaves)).insert(
        merkle::empty_input(),
    );
    assert(hash::collision_free(fewer)) by {
        assert forall|x: Seq<u8>| fewer.contains(x) implies hashed.contains(x) by {}
    }
    merkle::law_inclusion_under_a_root_binds(proof.proof, leaf, leaves);
    let i = choose|i: int| 0 <= i < leaves.len() && leaves[i] == leaf;
    lemma_binding_is_hashed(accounts, i);
    law_binding_leaf_binds(proof.record@, bindings(accounts)[i]);
    assert(proof.record.id.position == i as u32);
}

} // verus!
