//! Posting dimensions.
//!
//! Dimensions are the axes reporting slices by, carried on every posting and
//! orthogonal to the account path. The account path carries the general-ledger
//! structure; dimensions carry everything else you need to group by.
//!
//! Encoding an axis into the path instead — `Grid:Electricity:HV:Revenue` —
//! multiplies the account count by the product of the axes and freezes the
//! reporting dimensions at design time. Keeping them separate lets a trial
//! balance group by any axis without restructuring the tree.
//!
//! # The axes are yours
//!
//! A [`Dimensions`] value is a small, ordered map from axis name to value, both
//! [`Label`]s. The engine ships no axis names, because there is no set that is
//! right for everyone. What the engine does is bound them ([`MAX_DIMENSIONS`]
//! axes, [`MAX_LABEL_LEN`] characters each), order them deterministically, fold
//! them into the entry hash so they are covered by tamper evidence, and let you
//! insist that a posting carry the ones your books cannot be kept without. It
//! never interprets a value.

use crate::canonical::{self, Canonical, CanonicalWriter};
use crate::ordered::{self, rank_bytes, Key, Rank, SortedMap};
use crate::text::{self, any_control, chars_of};
use vstd::prelude::*;
use vstd::std_specs::iter::IteratorSpec;
use vstd::string::*;
use vstd::utf8::*;

verus! {

/// Maximum length of an axis name or a dimension value, in characters.
pub const MAX_LABEL_LEN: usize = 64;

/// Maximum number of axes one posting may carry.
///
/// A bound rather than a limit anyone should reach. Dimensions are hashed into
/// every entry and written on every posting row, so an unbounded map would make
/// the size of a ledger a function of what a caller happened to attach; eight
/// independent reporting axes is already past what a chart of accounts can be
/// meaningfully sliced by.
pub const MAX_DIMENSIONS: usize = 8;

/// Failure constructing a label or a dimension set.
#[derive(Debug, Clone, Copy, PartialEq, Eq, Structural)]
#[non_exhaustive]
pub enum DimensionError {
    /// The value was empty.
    Empty,
    /// The value exceeded [`MAX_LABEL_LEN`].
    TooLong,
    /// The value contained a control character.
    ControlCharacter,
    /// More than [`MAX_DIMENSIONS`] axes were attached to one posting.
    TooManyDimensions,
}

/// What is wrong with `text` as a label: the first rule it breaks.
pub open spec fn label_error(text: Seq<char>) -> Option<DimensionError> {
    if text.len() == 0 {
        Some(DimensionError::Empty)
    } else if text.len() > MAX_LABEL_LEN {
        Some(DimensionError::TooLong)
    } else if text::has_control(text) {
        Some(DimensionError::ControlCharacter)
    } else {
        None
    }
}

/// A validated, bounded string: an axis name, a dimension value, an identifier.
///
/// The same type is used for every short opaque string in the engine — a
/// dimension axis, a dimension value, an entry kind, a period identifier, a
/// provenance actor — because they have the same rules and inventing a newtype
/// per position would give type safety over values that are, by design,
/// interchangeable opaque text.
#[derive(Debug, PartialEq, Eq, PartialOrd, Ord, Hash)]
pub struct Label {
    value: String,
}

impl View for Label {
    type V = Seq<char>;

    closed spec fn view(&self) -> Seq<char> {
        self.value@
    }
}

impl Clone for Label {
    fn clone(&self) -> (copy: Self)
        ensures
            copy@ == self@,
    {
        proof {
            use_type_invariant(self);
        }
        Label { value: self.value.clone() }
    }
}

impl Label {
    /// The text is a label.
    #[verifier::type_invariant]
    pub open spec fn is_label(&self) -> bool {
        label_error(self@) is None
    }

    /// Validates and wraps a value.
    ///
    /// # Errors
    ///
    /// Rejects the empty string, anything longer than [`MAX_LABEL_LEN`]
    /// characters, and any control character. Control characters are refused
    /// because a label ends up in log lines, CSV exports and error messages, and
    /// an embedded newline or terminal escape turns one field into two.
    pub fn new(s: &str) -> (r: Result<Self, DimensionError>)
        ensures
            match label_error(s@) {
                Some(e) => r == Err::<Self, DimensionError>(e),
                None => r matches Ok(label) && label@ == s@,
            },
    {
        let chars = chars_of(s);
        if chars.len() == 0 {
            return Err(DimensionError::Empty);
        }
        if chars.len() > MAX_LABEL_LEN {
            return Err(DimensionError::TooLong);
        }
        if any_control(&chars) {
            return Err(DimensionError::ControlCharacter);
        }
        Ok(Label { value: s.to_owned() })
    }

    /// The underlying value.
    #[must_use]
    pub fn as_str(&self) -> (s: &str)
        ensures
            s@ == self@,
            label_error(self@) is None,
    {
        proof {
            use_type_invariant(self);
        }
        self.value.as_str()
    }

    /// The underlying value, as an owned string.
    #[must_use]
    pub fn to_string(&self) -> (s: String)
        ensures
            s@ == self@,
    {
        self.value.clone()
    }

    /// True when both are the same text.
    #[must_use]
    pub fn same(&self, other: &Self) -> (r: bool)
        ensures
            r == (self@ == other@),
    {
        self.value == other.value
    }
}

impl core::str::FromStr for Label {
    type Err = DimensionError;

    fn from_str(s: &str) -> (r: Result<Self, DimensionError>)
        ensures
            match r {
                Ok(label) => label_error(s@) is None && label@ == s@,
                Err(e) => label_error(s@) == Some(e),
            },
    {
        Label::new(s)
    }
}

impl Canonical for Label {
    open spec fn encoding(&self) -> Seq<u8> {
        canonical::text_bytes(self@)
    }

    fn encode(&self, w: &mut CanonicalWriter) {
        w.str(self.value.as_str());
    }
}

impl Key for Label {
    open spec fn before(a: Seq<char>, b: Seq<char>) -> bool {
        ordered::bytes_before(encode_utf8(a), encode_utf8(b))
    }

    proof fn lemma_irreflexive(a: Seq<char>) {
        ordered::lemma_bytes_irreflexive(encode_utf8(a));
    }

    proof fn lemma_transitive(a: Seq<char>, b: Seq<char>, c: Seq<char>) {
        ordered::lemma_bytes_transitive(encode_utf8(a), encode_utf8(b), encode_utf8(c));
    }

    proof fn lemma_total(a: Seq<char>, b: Seq<char>) {
        ordered::lemma_bytes_total(encode_utf8(a), encode_utf8(b));
        encode_utf8_decode_utf8(a);
        encode_utf8_decode_utf8(b);
    }

    fn rank(&self, other: &Self) -> (r: Rank) {
        proof {
            encode_utf8_decode_utf8(self@);
            encode_utf8_decode_utf8(other@);
        }
        rank_bytes(self.value.as_str().as_bytes(), other.value.as_str().as_bytes())
    }
}

// ── dimension sets ──────────────────────────────────────────────────────────

/// What axis/value pairs map to, later pairs winning over earlier ones.
pub open spec fn mapping_of_pairs(pairs: Seq<(Seq<char>, Seq<char>)>) -> Map<Seq<char>, Seq<char>>
    decreases pairs.len(),
{
    if pairs.len() == 0 {
        Map::empty()
    } else {
        mapping_of_pairs(pairs.drop_last()).insert(pairs.last().0, pairs.last().1)
    }
}

/// The text of some pairs of labels.
pub open spec fn pair_texts(pairs: Seq<(Label, Label)>) -> Seq<(Seq<char>, Seq<char>)> {
    pairs.map_values(|p: (Label, Label)| (p.0@, p.1@))
}

/// True when every axis and every value is a label.
pub open spec fn labels_only(mapping: Map<Seq<char>, Seq<char>>) -> bool {
    forall|k: Seq<char>| #[trigger]
        mapping.contains_key(k) ==> label_error(k) is None && label_error(mapping[k]) is None
}

/// True for axes and values that one posting may carry.
pub open spec fn valid_axes(axes: Seq<(Seq<char>, Seq<char>)>) -> bool {
    &&& axes.len() <= MAX_DIMENSIONS
    &&& forall|i: int|
        0 <= i < axes.len() ==> label_error((#[trigger] axes[i]).0) is None && label_error(
            axes[i].1,
        ) is None
}

/// True when a value is set for `axis`.
pub open spec fn has_axis(axes: Seq<(Seq<char>, Seq<char>)>, axis: Seq<char>) -> bool {
    exists|i: int| 0 <= i < axes.len() && (#[trigger] axes[i]).0 == axis
}

/// The axes attached to one posting.
///
/// Ordered by axis name, so the canonical encoding — and therefore the entry
/// hash — does not depend on the order the axes were set.
#[derive(Debug, PartialEq, Eq)]
pub struct Dimensions {
    axes: SortedMap<Label, Label>,
}

impl View for Dimensions {
    type V = Seq<(Seq<char>, Seq<char>)>;

    /// Every axis and value, in axis order.
    closed spec fn view(&self) -> Seq<(Seq<char>, Seq<char>)> {
        Seq::new(
            self.axes.keys().len(),
            |i: int| (self.axes.keys()[i], self.axes.values()[i]@),
        )
    }
}

impl Default for Dimensions {
    fn default() -> (d: Self)
        ensures
            d@ == Seq::<(Seq<char>, Seq<char>)>::empty(),
    {
        Dimensions::none()
    }
}

impl Clone for Dimensions {
    fn clone(&self) -> (copy: Self)
        ensures
            copy@ == self@,
            copy.mapping() == self.mapping(),
            self.wf() ==> copy.wf(),
    {
        let mut copy = Dimensions::none();
        let mut i: usize = 0;
        proof {
            use_type_invariant(&self.axes);
            use_type_invariant(self);
            self.lemma_walk();
            assert(self@.take(0) =~= Seq::empty());
        }
        while i < self.axes.len()
            invariant
                i <= self.axes.keys().len(),
                self.wf(),
                self@.len() == self.axes.keys().len(),
                copy.mapping() == mapping_of_pairs(self@.take(i as int)),
                copy@.len() <= i,
                copy.wf(),
            decreases self.axes.keys().len() - i,
        {
            let axis = self.axes.key_at(i).clone();
            let value = self.axes.value_at(i).clone();
            proof {
                assert(self@.take(i + 1).drop_last() =~= self@.take(i as int));
                copy.lemma_walk();
            }
            match copy.set(axis, value) {
                Ok(_) => {},
                Err(_) => {
                    assert(false);
                },
            }
            proof {
                copy.lemma_walk();
                let before = mapping_of_pairs(self@.take(i as int));
                assert(copy.mapping().dom() =~= before.dom().insert(self@[i as int].0));
            }
            i += 1;
        }
        proof {
            assert(self@.take(self@.len() as int) =~= self@);
            self.lemma_mapping_of_view();
            law_dimension_order_is_irrelevant(&copy, self);
        }
        copy
    }
}

impl Dimensions {
    /// The value set for each axis.
    pub closed spec fn mapping(&self) -> Map<Seq<char>, Seq<char>> {
        self.axes@.map_values(|v: Label| v@)
    }

    /// At most [`MAX_DIMENSIONS`] axes, in order, all of them labels with labels
    /// for values.
    #[verifier::type_invariant]
    pub closed spec fn wf(&self) -> bool {
        &&& self.axes.wf()
        &&& self.axes.keys().len() <= MAX_DIMENSIONS
        &&& labels_only(self.mapping())
    }

    /// The walk of a dimension set lists its mapping in axis order.
    pub proof fn lemma_walk(&self)
        requires
            self.wf(),
        ensures
            self@.len() <= MAX_DIMENSIONS,
            self.mapping().dom().finite(),
            self.mapping().dom().len() == self@.len(),
            forall|i: int, j: int|
                0 <= i < j < self@.len() ==> Label::before(
                    (#[trigger] self@[i]).0,
                    (#[trigger] self@[j]).0,
                ),
            forall|i: int|
                0 <= i < self@.len() ==> self.mapping().contains_key((#[trigger] self@[i]).0)
                    && self.mapping()[self@[i].0] == self@[i].1,
            forall|k: Seq<char>| #[trigger]
                self.mapping().contains_key(k) ==> exists|i: int|
                    0 <= i < self@.len() && (#[trigger] self@[i]).0 == k,
            valid_axes(self@),
    {
        self.axes.lemma_sequences();
        self.axes.lemma_len();
        assert(self.mapping().dom() =~= self.axes@.dom());
        assert forall|i: int, j: int| 0 <= i < j < self@.len() implies Label::before(
            (#[trigger] self@[i]).0,
            (#[trigger] self@[j]).0,
        ) by {
            assert(Label::before(self.axes.keys()[i], self.axes.keys()[j]));
        }
        assert forall|i: int| 0 <= i < self@.len() implies self.mapping().contains_key(
            (#[trigger] self@[i]).0,
        ) && self.mapping()[self@[i].0] == self@[i].1 by {
            assert(self.axes@.contains_key(self.axes.keys()[i]));
        }
        assert forall|k: Seq<char>| #[trigger] self.mapping().contains_key(k) implies exists|i: int|
            0 <= i < self@.len() && (#[trigger] self@[i]).0 == k by {
            assert(self.axes@.contains_key(k));
            let i = choose|i: int|
                0 <= i < self.axes.keys().len() && #[trigger] self.axes.keys()[i] == k;
            assert(self@[i].0 == k);
        }
    }

    proof fn lemma_mapping_of_view(&self)
        requires
            self.wf(),
        ensures
            mapping_of_pairs(self@) == self.mapping(),
    {
        self.lemma_walk();
        let n = self@.len() as int;
        self.lemma_mapping_of_prefix(n);
        assert(self@.take(n) =~= self@);
        let m = mapping_of_pairs(self@);
        assert forall|k: Seq<char>| #[trigger] m.contains_key(k) <==> self.mapping().contains_key(
            k,
        ) by {
            if self.mapping().contains_key(k) {
                let i = choose|i: int| 0 <= i < self@.len() && (#[trigger] self@[i]).0 == k;
                assert(m.contains_key(self@[i].0));
            }
        }
        assert forall|k: Seq<char>| #[trigger] m.contains_key(k) implies m[k] == self.mapping()[k] by {
            let i = choose|i: int| 0 <= i < n && (#[trigger] self@[i]).0 == k;
            assert(m[self@[i].0] == self@[i].1);
        }
        assert(m =~= self.mapping());
    }

    proof fn lemma_mapping_of_prefix(&self, k: int)
        requires
            self.wf(),
            0 <= k <= self@.len(),
        ensures
            ({
                let m = mapping_of_pairs(self@.take(k));
                &&& forall|i: int|
                    0 <= i < k ==> m.contains_key((#[trigger] self@[i]).0) && m[self@[i].0]
                        == self@[i].1
                &&& forall|a: Seq<char>| #[trigger]
                    m.contains_key(a) ==> exists|i: int| 0 <= i < k && (#[trigger] self@[i]).0 == a
            }),
        decreases k,
    {
        self.lemma_walk();
        if k > 0 {
            self.lemma_mapping_of_prefix(k - 1);
            assert(self@.take(k).drop_last() =~= self@.take(k - 1));
            assert forall|i: int| 0 <= i < k - 1 implies (#[trigger] self@[i]).0 != self@[k - 1].0 by {
                assert(Label::before(self@[i].0, self@[k - 1].0));
                Label::lemma_irreflexive(self@[i].0);
            }
            let shorter = mapping_of_pairs(self@.take(k - 1));
            let m = mapping_of_pairs(self@.take(k));
            assert(m == shorter.insert(self@[k - 1].0, self@[k - 1].1));
            assert forall|a: Seq<char>| #[trigger] m.contains_key(a) implies exists|i: int|
                0 <= i < k && (#[trigger] self@[i]).0 == a by {
                if a == self@[k - 1].0 {
                    assert(self@[k - 1].0 == a);
                } else {
                    assert(shorter.contains_key(a));
                }
            }
        }
    }

    /// No dimensions.
    #[must_use]
    pub fn none() -> (d: Self)
        ensures
            d@ == Seq::<(Seq<char>, Seq<char>)>::empty(),
            d.mapping() == Map::<Seq<char>, Seq<char>>::empty(),
            d.wf(),
    {
        let d = Dimensions { axes: SortedMap::new() };
        assert(d@ =~= Seq::<(Seq<char>, Seq<char>)>::empty());
        assert(d.mapping() =~= Map::<Seq<char>, Seq<char>>::empty());
        d
    }

    /// Attaches one axis, replacing any value already set for it.
    ///
    /// # Errors
    ///
    /// Returns [`DimensionError::TooManyDimensions`] when this would push the
    /// set past [`MAX_DIMENSIONS`]. Overwriting an axis already present never
    /// does.
    pub fn with(self, axis: Label, value: Label) -> (r: Result<Self, DimensionError>)
        ensures
            match r {
                Ok(d) => {
                    &&& d.wf()
                    &&& (self.mapping().contains_key(axis@) || self@.len() < MAX_DIMENSIONS)
                    &&& d.mapping() == self.mapping().insert(axis@, value@)
                },
                Err(e) => {
                    &&& e == DimensionError::TooManyDimensions
                    &&& !self.mapping().contains_key(axis@)
                    &&& self@.len() >= MAX_DIMENSIONS
                },
            },
    {
        let mut d = self;
        match d.set(axis, value) {
            Ok(_) => Ok(d),
            Err(e) => Err(e),
        }
    }

    /// Attaches one axis in place, returning the value it replaced.
    ///
    /// # Errors
    ///
    /// Returns [`DimensionError::TooManyDimensions`] when this would push the
    /// set past [`MAX_DIMENSIONS`].
    pub fn set(&mut self, axis: Label, value: Label) -> (r: Result<Option<Label>, DimensionError>)
        ensures
            final(self).wf(),
            match r {
                Ok(replaced) => {
                    &&& (old(self).mapping().contains_key(axis@) || old(self)@.len()
                        < MAX_DIMENSIONS)
                    &&& final(self).mapping() == old(self).mapping().insert(axis@, value@)
                    &&& match replaced {
                        Some(was) => old(self).mapping().contains_key(axis@) && was@ == old(
                            self,
                        ).mapping()[axis@],
                        None => !old(self).mapping().contains_key(axis@),
                    }
                },
                Err(e) => {
                    &&& e == DimensionError::TooManyDimensions
                    &&& !old(self).mapping().contains_key(axis@)
                    &&& old(self)@.len() >= MAX_DIMENSIONS
                    &&& *final(self) == *old(self)
                },
            },
    {
        proof {
            use_type_invariant(&*self);
            self.lemma_walk();
        }
        if !self.axes.contains_key(&axis) && self.axes.len() >= MAX_DIMENSIONS {
            return Err(DimensionError::TooManyDimensions);
        }
        let ghost a = axis@;
        let mut axes = SortedMap::new();
        std::mem::swap(&mut axes, &mut self.axes);
        proof {
            use_type_invariant(&axis);
            use_type_invariant(&value);
        }
        let replaced = axes.insert(axis, value);
        proof {
            let after = axes@.map_values(|v: Label| v@);
            assert forall|k: Seq<char>| #[trigger] after.contains_key(k) implies label_error(k) is None
                && label_error(after[k]) is None by {
                if k != a {
                    assert(old(self).mapping().contains_key(k));
                }
            }
        }
        self.axes = axes;
        assert(self.mapping() =~= old(self).mapping().insert(a, value@));
        Ok(replaced)
    }

    /// Builds a dimension set from axis/value pairs.
    ///
    /// Later pairs win over earlier ones for the same axis.
    ///
    /// # Errors
    ///
    /// Returns [`DimensionError::TooManyDimensions`] when the pairs name more
    /// than [`MAX_DIMENSIONS`] distinct axes.
    pub fn from_pairs(pairs: &[(Label, Label)]) -> (r: Result<Self, DimensionError>)
        ensures
            match r {
                Ok(d) => {
                    &&& d.wf()
                    &&& d.mapping() == mapping_of_pairs(pair_texts(pairs@))
                    &&& d.mapping().dom().len() <= MAX_DIMENSIONS
                },
                Err(e) => {
                    &&& e == DimensionError::TooManyDimensions
                    &&& mapping_of_pairs(pair_texts(pairs@)).dom().len() > MAX_DIMENSIONS
                },
            },
    {
        let mut out = Self::none();
        let mut i: usize = 0;
        let ghost texts = pair_texts(pairs@);
        assert(texts.take(0) =~= Seq::empty());
        while i < pairs.len()
            invariant
                i <= pairs.len(),
                texts == pair_texts(pairs@),
                out.wf(),
                out.mapping() == mapping_of_pairs(texts.take(i as int)),
            decreases pairs.len() - i,
        {
            proof {
                assert(texts.take(i + 1).drop_last() =~= texts.take(i as int));
                assert(texts[i as int] == (pairs@[i as int].0@, pairs@[i as int].1@));
                out.lemma_walk();
            }
            match out.set(pairs[i].0.clone(), pairs[i].1.clone()) {
                Ok(_) => {},
                Err(e) => {
                    proof {
                        lemma_prefix_axes(texts, i + 1);
                        vstd::set_lib::lemma_len_subset(
                            mapping_of_pairs(texts.take(i + 1)).dom(),
                            mapping_of_pairs(texts).dom(),
                        );
                    }
                    return Err(e);
                },
            }
            i += 1;
        }
        proof {
            assert(texts.take(texts.len() as int) =~= texts);
            out.lemma_walk();
        }
        Ok(out)
    }

    /// The value on `axis`, if it is set.
    #[must_use]
    pub fn get(&self, axis: &str) -> (r: Option<&Label>)
        ensures
            match r {
                Some(value) => self.mapping().contains_key(axis@) && value@
                    == self.mapping()[axis@],
                None => !self.mapping().contains_key(axis@),
            },
    {
        proof {
            use_type_invariant(self);
            self.lemma_walk();
            encode_utf8_decode_utf8(axis@);
        }
        let mut i: usize = 0;
        while i < self.axes.len()
            invariant
                i <= self.axes.keys().len(),
                self.wf(),
                self@.len() == self.axes.keys().len(),
                decode_utf8(encode_utf8(axis@)) == axis@,
                forall|j: int| 0 <= j < i ==> (#[trigger] self@[j]).0 != axis@,
            decreases self.axes.keys().len() - i,
        {
            let key = self.axes.key_at(i);
            proof {
                encode_utf8_decode_utf8(key@);
                self.lemma_walk();
            }
            match rank_bytes(key.as_str().as_bytes(), axis.as_bytes()) {
                Rank::Same => {
                    assert(self@[i as int].0 == axis@);
                    return Some(self.axes.value_at(i));
                },
                _ => {},
            }
            i += 1;
        }
        None
    }

    /// True when `axis` is set.
    #[must_use]
    pub fn contains(&self, axis: &str) -> (r: bool)
        ensures
            r == self.mapping().contains_key(axis@),
            r == has_axis(self@, axis@),
    {
        proof {
            use_type_invariant(self);
            self.lemma_walk();
        }
        self.get(axis).is_some()
    }

    /// Every axis and value, in axis order.
    #[must_use]
    pub fn iter(&self) -> (pairs: Vec<(&Label, &Label)>)
        ensures
            pairs@.len() == self@.len(),
            forall|i: int|
                0 <= i < pairs@.len() ==> ((#[trigger] pairs@[i]).0@, pairs@[i].1@) == self@[i],
    {
        let mut pairs: Vec<(&Label, &Label)> = Vec::new();
        let mut i: usize = 0;
        while i < self.axes.len()
            invariant
                i <= self.axes.keys().len(),
                pairs@.len() == i,
                forall|j: int|
                    0 <= j < i ==> ((#[trigger] pairs@[j]).0@, pairs@[j].1@) == self@[j],
            decreases self.axes.keys().len() - i,
        {
            pairs.push((self.axes.key_at(i), self.axes.value_at(i)));
            i += 1;
        }
        pairs
    }

    /// Number of axes set.
    #[must_use]
    pub fn len(&self) -> (n: usize)
        ensures
            n == self@.len(),
            n <= MAX_DIMENSIONS,
    {
        proof {
            use_type_invariant(self);
        }
        self.axes.len()
    }

    /// True when no axis is set.
    #[must_use]
    pub fn is_empty(&self) -> (r: bool)
        ensures
            r == (self@.len() == 0),
    {
        self.axes.len() == 0
    }

    /// True when both sets hold the same axes with the same values.
    #[must_use]
    pub fn same(&self, other: &Self) -> (r: bool)
        ensures
            r == (self@ == other@),
    {
        if self.axes.len() != other.axes.len() {
            assert(self@.len() != other@.len());
            return false;
        }
        let mut i: usize = 0;
        while i < self.axes.len()
            invariant
                i <= self.axes.keys().len(),
                self.axes.keys().len() == other.axes.keys().len(),
                forall|j: int| 0 <= j < i ==> self@[j] == other@[j],
            decreases self.axes.keys().len() - i,
        {
            if !self.axes.key_at(i).same(other.axes.key_at(i)) || !self.axes.value_at(i).same(
                other.axes.value_at(i),
            ) {
                assert(self@[i as int] != other@[i as int]);
                return false;
            }
            i += 1;
        }
        assert(self@ =~= other@);
        true
    }
}

proof fn lemma_prefix_axes(pairs: Seq<(Seq<char>, Seq<char>)>, k: int)
    requires
        0 <= k <= pairs.len(),
    ensures
        mapping_of_pairs(pairs.take(k)).dom().subset_of(mapping_of_pairs(pairs).dom()),
        mapping_of_pairs(pairs).dom().finite(),
    decreases pairs.len(),
{
    if k == pairs.len() {
        assert(pairs.take(k) =~= pairs);
        if pairs.len() > 0 {
            lemma_prefix_axes(pairs.drop_last(), pairs.len() - 1);
        }
    } else {
        lemma_prefix_axes(pairs.drop_last(), k);
        assert(pairs.drop_last().take(k) =~= pairs.take(k));
    }
}

/// The order in which axes were set leaves no trace: dimension sets that map the
/// same axes to the same values walk, and therefore encode, alike.
pub proof fn law_dimension_order_is_irrelevant(a: &Dimensions, b: &Dimensions)
    requires
        a.wf(),
        b.wf(),
        a.mapping() == b.mapping(),
    ensures
        a@ == b@,
        a.encoding() == b.encoding(),
{
    a.lemma_walk();
    b.lemma_walk();
    a.axes.lemma_sequences();
    b.axes.lemma_sequences();
    assert forall|k: Seq<char>| #[trigger] a.axes.keys().contains(k) <==> b.axes.keys().contains(
        k,
    ) by {
        assert(a.axes.keys().contains(k) <==> a.mapping().contains_key(k));
        assert(b.axes.keys().contains(k) <==> b.mapping().contains_key(k));
    }
    ordered::lemma_ascending_unique::<Label>(a.axes.keys(), b.axes.keys());
    assert forall|i: int| 0 <= i < a@.len() implies a@[i] == b@[i] by {
        assert(a.mapping()[a@[i].0] == a@[i].1);
        assert(b.mapping()[b@[i].0] == b@[i].1);
    }
    assert(a@ =~= b@);
}

/// The encoding of axes and values: counted, in axis order.
pub open spec fn axes_encoding(axes: Seq<(Seq<char>, Seq<char>)>) -> Seq<u8> {
    canonical::counted(
        axes.map_values(
            |p: (Seq<char>, Seq<char>)| canonical::text_bytes(p.0) + canonical::text_bytes(p.1),
        ),
    )
}

/// The encoding of axes and values is read back in one way only, whatever
/// follows it.
pub proof fn lemma_axes_unambiguous(
    a: Seq<(Seq<char>, Seq<char>)>,
    b: Seq<(Seq<char>, Seq<char>)>,
    x: Seq<u8>,
    y: Seq<u8>,
)
    requires
        valid_axes(a),
        valid_axes(b),
        axes_encoding(a) + x == axes_encoding(b) + y,
    ensures
        a == b,
        x == y,
{
    let f = |p: (Seq<char>, Seq<char>)| canonical::text_bytes(p.0) + canonical::text_bytes(p.1);
    let ok = |p: (Seq<char>, Seq<char>)| label_error(p.0) is None && label_error(p.1) is None;
    assert forall|t: (Seq<char>, Seq<char>), u: (Seq<char>, Seq<char>), p: Seq<u8>, q: Seq<u8>|
        ok(t) && ok(u) && #[trigger] (f(t) + p) == #[trigger] (f(u) + q) implies t == u && p
        == q by {
        let (vt, vu) = (canonical::text_bytes(t.1), canonical::text_bytes(u.1));
        assert(f(t) + p =~= canonical::text_bytes(t.0) + (vt + p));
        assert(f(u) + q =~= canonical::text_bytes(u.0) + (vu + q));
        lemma_label_unambiguous(t.0, u.0, vt + p, vu + q);
        lemma_label_unambiguous(t.1, u.1, p, q);
    }
    canonical::lemma_counted_unambiguous(a, b, f, ok, x, y);
}

/// The encoding of a label is read back in one way only, whatever follows it.
pub proof fn lemma_label_unambiguous(a: Seq<char>, b: Seq<char>, x: Seq<u8>, y: Seq<u8>)
    requires
        label_error(a) is None,
        label_error(b) is None,
        canonical::text_bytes(a) + x == canonical::text_bytes(b) + y,
    ensures
        a == b,
        x == y,
{
    canonical::lemma_utf8_len(a);
    canonical::lemma_utf8_len(b);
    canonical::lemma_text_unambiguous(a, b, x, y);
}

impl<'a> IntoIterator for &'a Dimensions {
    type Item = (&'a Label, &'a Label);

    type IntoIter = std::vec::IntoIter<(&'a Label, &'a Label)>;

    fn into_iter(self) -> (pairs: std::vec::IntoIter<(&'a Label, &'a Label)>)
        ensures
            pairs.remaining().len() == self@.len(),
            forall|i: int|
                0 <= i < self@.len() ==> (
                (#[trigger] pairs.remaining()[i]).0@,
                pairs.remaining()[i].1@,
            ) == self@[i],
    {
        let pairs = self.iter();
        proof {
            vstd::std_specs::vec::axiom_spec_into_iter(pairs);
        }
        pairs.into_iter()
    }
}

impl Canonical for Dimensions {
    open spec fn encoding(&self) -> Seq<u8> {
        axes_encoding(self@)
    }

    fn encode(&self, w: &mut CanonicalWriter) {
        // Counted, and in axis order: the encoding must be a function of the set,
        // not of the order the caller happened to build it in.
        let n: usize = self.len();
        let ghost parts = self@.map_values(
            |p: (Seq<char>, Seq<char>)| canonical::text_bytes(p.0) + canonical::text_bytes(p.1),
        );
        w.u32(n as u32);
        let ghost head = w@;
        let mut i: usize = 0;
        proof {
            assert(parts.take(0) =~= Seq::empty());
            assert(head =~= head + canonical::concat_all(parts.take(0)));
        }
        while i < n
            invariant
                i <= n,
                n == self@.len(),
                n == self.axes.keys().len(),
                parts == self@.map_values(
                    |p: (Seq<char>, Seq<char>)|
                        canonical::text_bytes(p.0) + canonical::text_bytes(p.1),
                ),
                w@ == head + canonical::concat_all(parts.take(i as int)),
            decreases n - i,
        {
            let axis = self.axes.key_at(i);
            let value = self.axes.value_at(i);
            axis.encode(w);
            value.encode(w);
            proof {
                assert(parts[i as int] == canonical::text_bytes(axis@) + canonical::text_bytes(
                    value@,
                ));
                canonical::lemma_concat_all_push(parts.take(i as int), parts[i as int]);
                assert(parts.take(i as int).push(parts[i as int]) =~= parts.take(i + 1));
                assert(w@ =~= head + canonical::concat_all(parts.take(i + 1)));
            }
            i += 1;
        }
        assert(parts.take(n as int) =~= parts);
        assert(w@ =~= old(w)@ + self.encoding());
    }
}

} // verus!
