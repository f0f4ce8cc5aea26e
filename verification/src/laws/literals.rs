//! What decimal literals mean, and how amounts are written.

use crate::money::{self, Amount, MoneyError};
use crate::text;
use vstd::arithmetic::power;
use vstd::prelude::*;

verus! {

/// The number that digits spell, each counted at the place where it stands.
pub open spec fn place_value(digits: Seq<char>) -> int
    decreases digits.len(),
{
    if digits.len() == 0 {
        0
    } else {
        (digits[0] as int - '0' as int) * power::pow(10, (digits.len() - 1) as nat) + place_value(
            digits.skip(1),
        )
    }
}

/// True of text made of the ten decimal digits.
pub open spec fn is_digits(t: Seq<char>) -> bool {
    forall|i: int| 0 <= i < t.len() ==> '0' <= #[trigger] t[i] <= '9'
}

/// True of text made of whitespace.
pub open spec fn is_blank(t: Seq<char>) -> bool {
    forall|i: int| 0 <= i < t.len() ==> text::white_space(#[trigger] t[i])
}

/// The parts of a decimal literal.
pub struct Literal {
    /// The whitespace before it.
    pub before: Seq<char>,
    /// Nothing, `+` or `-`.
    pub sign: Seq<char>,
    /// The digits ahead of the point.
    pub whole: Seq<char>,
    /// Whether a point is written.
    pub pointed: bool,
    /// The digits behind it.
    pub part: Seq<char>,
    /// The whitespace after it.
    pub after: Seq<char>,
}

impl Literal {
    /// True of a literal that says something.
    pub open spec fn wf(self) -> bool {
        &&& is_blank(self.before)
        &&& is_blank(self.after)
        &&& self.sign == Seq::<char>::empty() || self.sign == seq!['+'] || self.sign == seq!['-']
        &&& is_digits(self.whole)
        &&& is_digits(self.part)
        &&& self.pointed || self.part.len() == 0
        &&& self.whole.len() + self.part.len() > 0
    }

    /// The digits and the point.
    pub open spec fn body(self) -> Seq<char> {
        self.whole + if self.pointed {
            seq!['.'] + self.part
        } else {
            Seq::empty()
        }
    }

    /// The literal as written.
    pub open spec fn written(self) -> Seq<char> {
        self.before + self.sign + self.body() + self.after
    }
}

// ── numerals ────────────────────────────────────────────────────────────────

proof fn lemma_digit(c: char)
    ensures
        text::digit(c) <==> '0' <= c <= '9',
{
}

proof fn lemma_digits(t: Seq<char>)
    ensures
        is_digits(t) <==> text::all_digits(t),
{
    if is_digits(t) {
        assert forall|i: int| 0 <= i < t.len() implies text::digit(#[trigger] t[i]) by {
            assert('0' <= t[i] <= '9');
        }
    }
    if text::all_digits(t) {
        assert forall|i: int| 0 <= i < t.len() implies '0' <= #[trigger] t[i] <= '9' by {
            assert(text::digit(t[i]));
            lemma_digit(t[i]);
        }
    }
}

proof fn lemma_power_step(n: nat)
    ensures
        power::pow(10, n + 1) == 10 * power::pow(10, n),
        power::pow(10, n) > 0,
        power::pow(10, 0) == 1,
{
    reveal(power::pow);
    power::lemma_pow_positive(10, n);
}

proof fn lemma_ten_to(n: nat)
    ensures
        money::ten_to(n) == power::pow(10, n),
    decreases n,
{
    if n == 0 {
        power::lemma_pow0(10);
    } else {
        lemma_ten_to((n - 1) as nat);
        lemma_power_step((n - 1) as nat);
    }
}

proof fn lemma_joined(a: Seq<char>, b: Seq<char>)
    requires
        is_digits(b),
    ensures
        text::numeral(a + b) == text::numeral(a) * power::pow(10, b.len()) + text::numeral(b),
        text::numeral(b) < power::pow(10, b.len()),
    decreases b.len(),
{
    lemma_power_step(0);
    if b.len() == 0 {
        assert(a + b =~= a);
    } else {
        let fewer = b.drop_last();
        assert forall|i: int| 0 <= i < fewer.len() implies '0' <= #[trigger] fewer[i] <= '9' by {
            assert(fewer[i] == b[i]);
        }
        assert('0' <= b[b.len() - 1] <= '9');
        lemma_joined(a, fewer);
        lemma_power_step(fewer.len());
        assert((a + b).drop_last() =~= a + fewer);
        assert((a + b).last() == b.last());
        let (x, p) = (text::numeral(a) as int, power::pow(10, fewer.len()));
        assert(10 * (x * p) == x * (10 * p)) by (nonlinear_arith);
    }
}

proof fn lemma_place_value(t: Seq<char>)
    requires
        is_digits(t),
    ensures
        place_value(t) == text::numeral(t),
    decreases t.len(),
{
    if t.len() > 0 {
        let rest = t.skip(1);
        assert forall|i: int| 0 <= i < rest.len() implies '0' <= #[trigger] rest[i] <= '9' by {
            assert(rest[i] == t[i + 1]);
        }
        lemma_place_value(rest);
        let first = seq![t[0]];
        assert(first.drop_last() =~= Seq::<char>::empty());
        assert(text::numeral(Seq::<char>::empty()) == 0);
        assert('0' <= t[0] <= '9');
        assert(text::numeral(first) == t[0] as int - 48);
        lemma_joined(first, rest);
        assert(first + rest =~= t);
    }
}

proof fn lemma_zeros(t: Seq<char>)
    requires
        forall|i: int| 0 <= i < t.len() ==> #[trigger] t[i] == '0',
    ensures
        is_digits(t),
        text::numeral(t) == 0,
    decreases t.len(),
{
    assert forall|i: int| 0 <= i < t.len() implies '0' <= #[trigger] t[i] <= '9' by {
        assert(t[i] == '0');
    }
    if t.len() > 0 {
        assert forall|i: int| 0 <= i < t.drop_last().len() implies #[trigger] t.drop_last()[i]
            == '0' by {
            assert(t[i] == '0');
        }
        lemma_zeros(t.drop_last());
        assert(t[t.len() - 1] == '0');
    }
}

proof fn lemma_nonzero(t: Seq<char>, i: int)
    requires
        is_digits(t),
        0 <= i < t.len(),
        t[i] != '0',
    ensures
        text::numeral(t) > 0,
    decreases t.len(),
{
    let fewer = t.drop_last();
    assert forall|k: int| 0 <= k < fewer.len() implies '0' <= #[trigger] fewer[k] <= '9' by {
        assert(fewer[k] == t[k]);
    }
    assert('0' <= t[t.len() - 1] <= '9');
    assert('0' <= t[i] <= '9');
    if i < t.len() - 1 {
        assert(fewer[i] == t[i]);
        lemma_nonzero(fewer, i);
    }
}

proof fn lemma_significant(t: Seq<char>, width: nat)
    ensures
        money::significant(t).len() > width <==> exists|i: int|
            width <= i < t.len() && #[trigger] t[i] != '0',
        money::significant(t).len() <= t.len(),
    decreases t.len(),
{
    if t.len() > 0 {
        let fewer = t.drop_last();
        let last = t.len() - 1;
        if t.last() == '0' {
            lemma_significant(fewer, width);
            if exists|i: int| width <= i < fewer.len() && #[trigger] fewer[i] != '0' {
                let i = choose|i: int| width <= i < fewer.len() && #[trigger] fewer[i] != '0';
                assert(t[i] == fewer[i]);
            }
            if exists|i: int| width <= i < t.len() && #[trigger] t[i] != '0' {
                let i = choose|i: int| width <= i < t.len() && #[trigger] t[i] != '0';
                assert(t[last] == '0');
                assert(fewer[i] == t[i]);
            }
        } else {
            assert(t[last] != '0');
        }
    }
}

/// The digits behind the point at a scale of `width`: what they come to in units
/// of that scale, or that they do not come to a whole number of them.
proof fn lemma_fraction(part: Seq<char>, width: nat)
    requires
        is_digits(part),
    ensures
        money::significant(part).len() <= width ==> text::numeral(money::filled(part, width))
            * power::pow(10, part.len()) == text::numeral(part) * power::pow(10, width),
        money::significant(part).len() > width ==> (text::numeral(part) * power::pow(10, width)) % power::pow(
            10,
            part.len(),
        ) != 0,
{
    lemma_significant(part, width);
    let filled = money::filled(part, width);
    let p = part.len();
    if p <= width {
        let rest = Seq::new((width - p) as nat, |i: int| '0');
        assert(filled =~= part + rest);
        lemma_zeros(rest);
        lemma_joined(part, rest);
        power::lemma_pow_adds(10, (width - p) as nat, p);
        let (n, a, b) = (text::numeral(part) as int, power::pow(10, (width - p) as nat), power::pow(10, p));
        assert((n * a) * b == n * (a * b)) by (nonlinear_arith);
    } else {
        let (head, tail) = (part.take(width as int), part.skip(width as int));
        assert(part =~= head + tail);
        assert(filled =~= head);
        assert forall|i: int| 0 <= i < tail.len() implies '0' <= #[trigger] tail[i] <= '9' by {
            assert(tail[i] == part[i + width]);
        }
        lemma_joined(head, tail);
        let k = (p - width) as nat;
        power::lemma_pow_adds(10, k, width);
        let (h, t, a, b) = (
            text::numeral(head) as int,
            text::numeral(tail) as int,
            power::pow(10, k),
            power::pow(10, width),
        );
        lemma_power_step(width);
        assert((h * a + t) * b == h * (a * b) + t * b) by (nonlinear_arith);
        if money::significant(part).len() <= width {
            assert forall|i: int| 0 <= i < tail.len() implies #[trigger] tail[i] == '0' by {
                assert(part[i + width] == '0');
            }
            lemma_zeros(tail);
            assert(t * b == 0) by (nonlinear_arith)
                requires
                    t == 0,
            ;
        } else {
            let i = choose|i: int| width <= i < part.len() && #[trigger] part[i] != '0';
            assert(tail[i - width] == part[i]);
            lemma_nonzero(tail, i - width);
            assert(0 < t * b < a * b) by (nonlinear_arith)
                requires
                    0 < t < a,
                    b > 0,
            ;
            vstd::arithmetic::div_mod::lemma_fundamental_div_mod_converse(
                h * (a * b) + t * b,
                a * b,
                h,
                t * b,
            );
        }
    }
}

// ── the shape of a literal ──────────────────────────────────────────────────

proof fn lemma_trim_start(before: Seq<char>, rest: Seq<char>)
    requires
        is_blank(before),
        rest.len() == 0 || !text::white_space(rest[0]),
    ensures
        text::trim_start(before + rest) == rest,
    decreases before.len(),
{
    if before.len() == 0 {
        assert(before + rest =~= rest);
    } else {
        let fewer = before.skip(1);
        assert forall|i: int| 0 <= i < fewer.len() implies text::white_space(
            #[trigger] fewer[i],
        ) by {
            assert(fewer[i] == before[i + 1]);
        }
        assert(text::white_space(before[0]));
        assert((before + rest)[0] == before[0]);
        assert((before + rest).skip(1) =~= fewer + rest);
        lemma_trim_start(fewer, rest);
    }
}

proof fn lemma_trim_end(rest: Seq<char>, after: Seq<char>)
    requires
        is_blank(after),
        rest.len() == 0 || !text::white_space(rest.last()),
    ensures
        text::trim_end(rest + after) == rest,
    decreases after.len(),
{
    if after.len() == 0 {
        assert(rest + after =~= rest);
    } else {
        let fewer = after.drop_last();
        assert forall|i: int| 0 <= i < fewer.len() implies text::white_space(
            #[trigger] fewer[i],
        ) by {
            assert(fewer[i] == after[i]);
        }
        assert(text::white_space(after[after.len() - 1]));
        assert((rest + after).last() == after.last());
        assert((rest + after).drop_last() =~= rest + fewer);
        lemma_trim_end(rest, fewer);
    }
}

proof fn lemma_body(l: Literal)
    requires
        l.wf(),
    ensures
        money::integer_part(l.body()) == l.whole,
        money::fraction_part(l.body()) == l.part,
        l.body().len() > 0,
        l.body()[0] == '.' || '0' <= l.body()[0] <= '9',
        l.body().last() == '.' || '0' <= l.body().last() <= '9',
{
    let body = l.body();
    lemma_digits(l.whole);
    let rest = if l.pointed {
        seq!['.'] + l.part
    } else {
        Seq::<char>::empty()
    };
    assert(body == l.whole + rest);
    money::lemma_point_of(l.whole, rest);
    assert(money::integer_part(body) =~= l.whole);
    assert(money::fraction_part(body) =~= l.part);
    if l.whole.len() > 0 {
        assert('0' <= l.whole[0] <= '9');
        assert(body[0] == l.whole[0]);
    } else {
        assert(body[0] == '.');
    }
    if l.part.len() > 0 {
        assert('0' <= l.part[l.part.len() - 1] <= '9');
        assert(body.last() == l.part.last());
    } else if l.pointed {
        assert(body.last() == '.');
    } else {
        assert('0' <= l.whole[l.whole.len() - 1] <= '9');
        assert(body.last() == l.whole.last());
    }
}

proof fn lemma_signed(sign: Seq<char>, body: Seq<char>)
    requires
        sign == Seq::<char>::empty() || sign == seq!['+'] || sign == seq!['-'],
        body.len() > 0,
        body[0] == '.' || '0' <= body[0] <= '9',
    ensures
        money::unsigned_literal(sign + body) == body,
        (sign + body)[0] == '-' <==> sign == seq!['-'],
        !text::white_space((sign + body)[0]),
{
    let core = sign + body;
    if sign.len() == 0 {
        assert(core =~= body);
        assert(sign != seq!['-']);
    } else {
        assert(core[0] == sign[0]);
        assert(core.skip(1) =~= body);
        if sign == seq!['+'] {
            assert(sign[0] == '+');
            assert(sign != seq!['-']) by {
                assert(seq!['-'][0] == '-');
            }
        } else {
            assert(sign[0] == '-');
        }
    }
}

proof fn lemma_read(l: Literal)
    requires
        l.wf(),
    ensures
        text::trim(l.written()) == l.sign + l.body(),
        money::unsigned_literal(l.sign + l.body()) == l.body(),
        money::integer_part(l.body()) == l.whole,
        money::fraction_part(l.body()) == l.part,
        (l.sign + l.body())[0] == '-' <==> l.sign == seq!['-'],
{
    let body = l.body();
    let core = l.sign + body;
    lemma_body(l);
    lemma_signed(l.sign, body);
    assert(core.last() == body.last());
    assert(l.written() =~= l.before + (core + l.after));
    assert((core + l.after)[0] == core[0]);
    lemma_trim_start(l.before, core + l.after);
    lemma_trim_end(core, l.after);
}

/// A decimal literal means what its digits say. Shifted past the digits behind the
/// point, the amount in minor units is the number that all the digits spell; `-`
/// negates it, and `+`, a point with nothing behind it, trailing zeros and
/// whitespace around it change nothing. A literal is refused only when it does not
/// come to a whole number of minor units, or to more of them than an amount holds.
pub proof fn law_literals_mean_what_their_digits_say<const P: u8>(l: Literal)
    requires
        l.wf(),
        P <= 18,
    ensures
        ({
            let digits = place_value(l.whole + l.part);
            let below = power::pow(10, l.part.len());
            let units = power::pow(10, P as nat);
            match money::parse_literal::<P>(l.written()) {
                Ok(a) => {
                    &&& l.sign == seq!['-'] ==> -a.minor * below == digits * units
                    &&& l.sign != seq!['-'] ==> a.minor * below == digits * units
                },
                Err(MoneyError::PrecisionLoss { scale }) => scale == P && (digits * units)
                    % below != 0,
                Err(MoneyError::Overflow) => (digits * units) % below == 0 && digits * units
                    > i64::MAX * below,
                Err(_) => false,
            }
        }),
{
    law_literals_count_major_units::<P>(l);
    lemma_ten_to(P as nat);
    let (w, f, p, u) = (
        place_value(l.whole),
        place_value(l.part),
        power::pow(10, l.part.len()),
        power::pow(10, P as nat),
    );
    lemma_digits(l.whole);
    lemma_digits(l.part);
    lemma_joined(l.whole, l.part);
    lemma_place_value(l.whole);
    lemma_place_value(l.part);
    let all = l.whole + l.part;
    assert forall|i: int| 0 <= i < all.len() implies '0' <= #[trigger] all[i] <= '9' by {
        if i < l.whole.len() {
            assert(all[i] == l.whole[i]);
        } else {
            assert(all[i] == l.part[i - l.whole.len()]);
        }
    }
    lemma_place_value(all);
    lemma_power_step(l.part.len());
    assert((w * p + f) * u == (w * u) * p + f * u) by (nonlinear_arith);
    vstd::arithmetic::div_mod::lemma_mod_multiples_vanish(w * u, f * u, p);
    assert(p * (w * u) == (w * u) * p) by (nonlinear_arith);
}

/// The same at any scale: a whole part counts that many major units, and the
/// digits behind the point what they come to of one.
pub proof fn law_literals_count_major_units<const P: u8>(l: Literal)
    requires
        l.wf(),
    ensures
        ({
            let below = power::pow(10, l.part.len());
            let major = if P <= 18 {
                power::pow(10, P as nat)
            } else {
                i64::MAX as int
            };
            let scaled = (place_value(l.whole) * major) * below + place_value(l.part) * power::pow(
                10,
                P as nat,
            );
            match money::parse_literal::<P>(l.written()) {
                Ok(a) => {
                    &&& l.sign == seq!['-'] ==> -a.minor * below == scaled
                    &&& l.sign != seq!['-'] ==> a.minor * below == scaled
                    &&& (place_value(l.part) * power::pow(10, P as nat)) % below == 0
                },
                Err(MoneyError::PrecisionLoss { scale }) => scale == P && (place_value(l.part)
                    * power::pow(10, P as nat)) % below != 0,
                Err(MoneyError::Overflow) => (place_value(l.part) * power::pow(10, P as nat)) % below
                    == 0 && scaled > i64::MAX * below,
                Err(_) => false,
            }
        }),
{
    lemma_read(l);
    lemma_digits(l.whole);
    lemma_digits(l.part);
    lemma_place_value(l.whole);
    lemma_place_value(l.part);
    lemma_fraction(l.part, P as nat);
    lemma_ten_to(P as nat);
    lemma_power_step(l.part.len());
    let units = money::units_per_major(P as nat) as int;
    let (w, f, below) = (
        text::numeral(l.whole) as int,
        text::numeral(money::filled(l.part, P as nat)) as int,
        power::pow(10, l.part.len()),
    );
    let value = w * units + f;
    assert(value * below == (w * units) * below + f * below) by (nonlinear_arith)
        requires
            value == w * units + f,
    ;
    assert(-(-value) == value);
    if money::significant(l.part).len() <= P {
        vstd::arithmetic::div_mod::lemma_mod_multiples_basic(f, below);
        if value > i64::MAX {
            assert(value * below > i64::MAX * below) by (nonlinear_arith)
                requires
                    value > i64::MAX,
                    below > 0,
            ;
        } else {
            assert(0 <= w * units) by (nonlinear_arith)
                requires
                    w >= 0,
                    units >= 0,
            ;
        }
    }
}

/// Text is refused as no literal exactly when it is not one: whitespace, at most
/// one sign, digits with at most one point among them, whitespace.
pub proof fn law_only_literals_are_read<const P: u8>(s: Seq<char>)
    ensures
        money::parse_literal::<P>(s) == Err::<Amount<P>, MoneyError>(MoneyError::InvalidLiteral)
            <==> !(exists|l: Literal| #[trigger] l.wf() && l.written() == s),
{
    if exists|l: Literal| #[trigger] l.wf() && l.written() == s {
        let l = choose|l: Literal| #[trigger] l.wf() && l.written() == s;
        law_literals_count_major_units::<P>(l);
    } else if money::parse_literal::<P>(s) != Err::<Amount<P>, MoneyError>(
        MoneyError::InvalidLiteral,
    ) {
        let t = text::trim(s);
        let body = money::unsigned_literal(t);
        let (before, after) = lemma_around(s);
        let at = money::point(body) as int;
        lemma_point_bound(body);
        let l = Literal {
            before,
            sign: if body.len() < t.len() {
                seq![t[0]]
            } else {
                Seq::empty()
            },
            whole: money::integer_part(body),
            pointed: at < body.len(),
            part: money::fraction_part(body),
            after,
        };
        lemma_digits(l.whole);
        lemma_digits(l.part);
        assert(body =~= l.body());
        assert(t =~= l.sign + body);
        assert(l.written() =~= s);
        assert(l.wf());
    }
}

proof fn lemma_point_bound(t: Seq<char>)
    ensures
        money::point(t) <= t.len(),
        money::point(t) < t.len() ==> t[money::point(t) as int] == '.',
    decreases t.len(),
{
    if t.len() > 0 && t[0] != '.' {
        lemma_point_bound(t.skip(1));
    }
}

proof fn lemma_around(s: Seq<char>) -> (r: (Seq<char>, Seq<char>))
    ensures
        is_blank(r.0),
        is_blank(r.1),
        s == r.0 + text::trim(s) + r.1,
{
    let before = lemma_ahead(s);
    let after = lemma_behind(text::trim_start(s));
    assert(s =~= before + text::trim(s) + after);
    (before, after)
}

proof fn lemma_ahead(s: Seq<char>) -> (before: Seq<char>)
    ensures
        is_blank(before),
        s == before + text::trim_start(s),
    decreases s.len(),
{
    if s.len() > 0 && text::white_space(s[0]) {
        let rest = lemma_ahead(s.skip(1));
        let before = seq![s[0]] + rest;
        assert(s =~= seq![s[0]] + s.skip(1));
        assert(before + text::trim_start(s) =~= seq![s[0]] + (rest + text::trim_start(s)));
        assert forall|i: int| 0 <= i < before.len() implies text::white_space(
            #[trigger] before[i],
        ) by {
            if i > 0 {
                assert(before[i] == rest[i - 1]);
            }
        }
        before
    } else {
        assert(s =~= Seq::<char>::empty() + text::trim_start(s));
        Seq::empty()
    }
}

proof fn lemma_behind(s: Seq<char>) -> (after: Seq<char>)
    ensures
        is_blank(after),
        s == text::trim_end(s) + after,
    decreases s.len(),
{
    if s.len() > 0 && text::white_space(s.last()) {
        let rest = lemma_behind(s.drop_last());
        let after = rest.push(s.last());
        assert(s =~= s.drop_last().push(s.last()));
        assert(text::trim_end(s) + after =~= (text::trim_end(s) + rest).push(s.last()));
        assert forall|i: int| 0 <= i < after.len() implies text::white_space(
            #[trigger] after[i],
        ) by {
            if i < rest.len() {
                assert(after[i] == rest[i]);
            }
        }
        after
    } else {
        assert(s =~= text::trim_end(s) + Seq::<char>::empty());
        Seq::empty()
    }
}

/// Digits alone, with or without a point, count major units, and the digits behind
/// a point count the same however many zeros follow them.
pub proof fn law_absent_fractions_and_trailing_zeros_change_nothing<const P: u8>(
    l: Literal,
    zeros: Seq<char>,
)
    requires
        l.wf(),
        forall|i: int| 0 <= i < zeros.len() ==> #[trigger] zeros[i] == '0',
        zeros.len() > 0,
    ensures
        money::parse_literal::<P>(
            (Literal { pointed: true, part: l.part + zeros, ..l }).written(),
        ) == money::parse_literal::<P>(l.written()),
        l.part.len() == 0 ==> money::parse_literal::<P>(
            (Literal { pointed: true, ..l }).written(),
        ) == money::parse_literal::<P>((Literal { pointed: false, ..l }).written()),
{
    let longer = Literal { pointed: true, part: l.part + zeros, ..l };
    lemma_zeros(zeros);
    assert forall|i: int| 0 <= i < longer.part.len() implies '0' <= #[trigger] longer.part[i]
        <= '9' by {
        if i < l.part.len() {
            assert(longer.part[i] == l.part[i]);
        } else {
            assert(longer.part[i] == zeros[i - l.part.len()]);
        }
    }
    assert(longer.wf());
    lemma_read(l);
    lemma_read(longer);
    lemma_digits(l.whole);
    lemma_digits(l.part);
    lemma_digits(longer.part);
    lemma_drop_zeros(l.part, zeros);
    assert(money::filled(longer.part, P as nat) =~= money::filled(l.part, P as nat));
    if l.part.len() == 0 {
        lemma_read(Literal { pointed: true, ..l });
        lemma_read(Literal { pointed: false, ..l });
    }
}

proof fn lemma_drop_zeros(t: Seq<char>, zeros: Seq<char>)
    requires
        forall|i: int| 0 <= i < zeros.len() ==> #[trigger] zeros[i] == '0',
    ensures
        money::significant(t + zeros) == money::significant(t),
    decreases zeros.len(),
{
    if zeros.len() == 0 {
        assert(t + zeros =~= t);
    } else {
        assert forall|i: int| 0 <= i < zeros.drop_last().len() implies #[trigger] zeros.drop_last()[i]
            == '0' by {
            assert(zeros[i] == '0');
        }
        assert(zeros[zeros.len() - 1] == '0');
        assert((t + zeros).last() == '0');
        assert((t + zeros).drop_last() =~= t + zeros.drop_last());
        lemma_drop_zeros(t, zeros.drop_last());
    }
}

// ── writing ─────────────────────────────────────────────────────────────────

proof fn lemma_decimal_digits(n: nat)
    ensures
        is_digits(text::decimal(n)),
        text::decimal(n).len() >= 1,
        place_value(text::decimal(n)) == n,
        text::decimal(n).len() > 1 ==> text::decimal(n)[0] != '0',
    decreases n,
{
    text::lemma_decimal(n);
    lemma_digits(text::decimal(n));
    lemma_place_value(text::decimal(n));
    lemma_leading(n);
}

proof fn lemma_leading(n: nat)
    ensures
        text::decimal(n).len() >= 1,
        n > 0 ==> text::decimal(n)[0] != '0',
        n < 10 ==> text::decimal(n).len() == 1,
    decreases n,
{
    if n >= 10 {
        lemma_leading(n / 10);
        assert(text::decimal(n)[0] == text::decimal(n / 10)[0]);
    }
}

/// A number is written in decimal digits that spell it, without leading zeros.
pub proof fn law_numbers_are_written_in_decimal(n: nat)
    ensures
        is_digits(text::decimal(n)),
        text::decimal(n).len() >= 1,
        place_value(text::decimal(n)) == n,
        text::decimal(n).len() > 1 ==> text::decimal(n)[0] != '0',
{
    lemma_decimal_digits(n);
}

/// An amount is written as its digits, with exactly as many of them behind the
/// point as its scale has, no needless leading zero, a point only where there are
/// digits behind it, and `-` only when it is below zero.
pub proof fn law_amounts_are_written_with_every_digit<const P: u8>(a: Amount<P>) -> (l: Literal)
    requires
        P <= 18,
    ensures
        l.wf(),
        l.written() == money::literal(a),
        l.before.len() == 0 && l.after.len() == 0,
        l.sign == (if a.minor < 0 {
            seq!['-']
        } else {
            Seq::empty()
        }),
        l.pointed == (P > 0),
        l.part.len() == P,
        l.whole.len() >= 1,
        l.whole.len() > 1 ==> l.whole[0] != '0',
        place_value(l.whole) * power::pow(10, P as nat) + place_value(l.part) == (if a.minor < 0 {
            -a.minor
        } else {
            a.minor as int
        }),
{
    let m = money::magnitude_of(a.minor as int);
    let units = money::units_per_major(P as nat);
    money::lemma_units_per_major(P as nat);
    lemma_ten_to(P as nat);
    let low = text::decimal(m % units);
    let l = Literal {
        before: Seq::empty(),
        sign: if a.minor < 0 {
            seq!['-']
        } else {
            Seq::empty()
        },
        whole: if P == 0 {
            text::decimal(m)
        } else {
            text::decimal(m / units)
        },
        pointed: P > 0,
        part: if P == 0 {
            Seq::empty()
        } else {
            money::zero_padded(low, P as nat)
        },
        after: Seq::empty(),
    };
    if P == 0 {
        lemma_decimal_digits(m);
        assert(units == 1);
    } else {
        lemma_decimal_digits(m / units);
        lemma_decimal_digits(m % units);
        lemma_digits(low);
        lemma_digits(l.part);
        money::lemma_numeral_of_zero_padded(low, P as nat);
        money::lemma_decimal_len(m % units, P as nat);
        lemma_place_value(low);
        lemma_place_value(l.part);
        vstd::arithmetic::div_mod::lemma_fundamental_div_mod(m as int, units as int);
        assert((m / units) * units == units * (m / units)) by (nonlinear_arith);
    }
    assert(l.written() =~= money::literal(a));
    l
}

} // verus!
