//! Turning a take on a keyboard into rows.
//!
//! What is recorded is a time, what a row holds is a length: a note's position
//! is nothing but the sum of the lengths before it. The conversion happens once,
//! when the take ends.
//!
//! Nobody plays on the sample, so every start and every length is rounded to the
//! nearest multiple of a chosen note value, both against the take's own zero. A
//! note's sounding length has to settle for what one frame can say. Silence does
//! not: it runs on over placeholder frames that play nothing, so no note's
//! position is ever off.

use vstd::multiset::Multiset;
use vstd::prelude::*;

use super::length::{
    first_fitting, fraction_at, fraction_units, lemma_first_fitting, lemma_nothing_fits,
    lemma_total_span_add, lemma_total_span_one, plain, rest_part, total_span, whole_part,
    zero_length, Duration, Fraction, FRACTIONS, MAX_WHOLES, TICKS_PER_UNIT, UNITS_PER_WHOLE,
};
use super::row::{
    items_span, lemma_items_span_add, lemma_items_span_push, planned, Item, PlannedNote,
};
use crate::midi::message::{is_note_off, is_note_on, presses, releases};
use crate::number::ZERO;
use crate::order::{
    how_many, law_ordering_keeps_everything, lemma_how_many_bounds, lemma_how_many_grows,
    lemma_how_many_holds, lemma_how_many_ordered, lemma_how_many_wider, ordered, put_in_order,
    rank_le, Ranked,
};

verus! {

/// What a take is rounded onto unless the user says otherwise: a sixteenth.
pub const DEFAULT_ROUND_UNITS: i64 = 16;

/// How many note values a take can be rounded onto.
pub const ROUNDINGS: usize = 9;

/// The note values a take can be rounded onto, coarsest first, in units. The
/// last is the grid itself.
pub open spec fn rounding_units(k: int) -> int {
    if k == 0 {
        UNITS_PER_WHOLE as int
    } else {
        fraction_units(fraction_at(k))
    }
}

/// How a rounding reads.
pub open spec fn rounding_label(k: int) -> Seq<char> {
    if k == 0 {
        "1"@
    } else {
        super::length::fraction_label(fraction_at(k))
    }
}

/// The label and the units of the rounding at a place of the box.
pub fn round_choice(k: usize) -> (r: (&'static str, i64))
    requires
        k < ROUNDINGS,
    ensures
        r.0@ == rounding_label(k as int),
        r.1 == rounding_units(k as int),
{
    if k == 0 {
        ("1", UNITS_PER_WHOLE)
    } else {
        let f = Fraction::at(k);
        (f.label(), f.units())
    }
}

/// How a rounding note value reads, for the status line and the select box.
pub fn round_label(units: i64) -> (r: &'static str)
    ensures
        forall|k: int| 0 <= k < ROUNDINGS && rounding_units(k) == units ==> r@ == rounding_label(k),
        (forall|k: int| 0 <= k < ROUNDINGS ==> rounding_units(k) != units) ==> r@ == "1/16"@,
{
    let mut k: usize = 0;
    while k < ROUNDINGS
        invariant
            k <= ROUNDINGS,
            forall|j: int| 0 <= j < k ==> rounding_units(j) != units,
        decreases ROUNDINGS - k,
    {
        let (label, u) = round_choice(k);
        if u == units {
            assert(forall|j: int|
                0 <= j < ROUNDINGS && rounding_units(j) == rounding_units(k as int) ==> j == k);
            return label;
        }
        k += 1;
    }
    "1/16"
}

// ── lengths with one fraction ───────────────────────────────────────────────

/// A length of whole notes and at most one fraction, counted once.
pub open spec fn is_plain(d: Duration) -> bool {
    d.num == 1 && d.wholes <= MAX_WHOLES
}

/// How far apart two counts are.
pub open spec fn apart(a: int, b: int) -> int {
    if a < b {
        b - a
    } else {
        a - b
    }
}

proof fn lemma_plain_span(d: Duration)
    requires
        d.num == 1,
    ensures
        d.span() == d.wholes * UNITS_PER_WHOLE + fraction_units(d.frac),
{
    assert(1 * fraction_units(d.frac) == fraction_units(d.frac));
}

/// Plain lengths that are equally long are the same.
pub proof fn law_a_plain_length_is_said_one_way(a: Duration, b: Duration)
    requires
        is_plain(a),
        is_plain(b),
        a.span() == b.span(),
    ensures
        a == b,
{
    lemma_plain_span(a);
    lemma_plain_span(b);
    assert(a.wholes == b.wholes);
    assert(fraction_units(a.frac) == fraction_units(b.frac));
}

/// The length the whole-note and fraction boxes express exactly, if they can:
/// whole notes plus one fraction, and nothing else.
pub fn duration_from_units(units: i64) -> (r: Option<Duration>)
    ensures
        match r {
            Some(d) => is_plain(d) && d.span() == units,
            None => forall|d: Duration| #[trigger] is_plain(d) ==> d.span() != units,
        },
{
    if units < 0 {
        assert forall|d: Duration| #[trigger] is_plain(d) implies d.span() != units by {
            lemma_plain_span(d);
        }
        return None;
    }
    let wholes: i64 = units / UNITS_PER_WHOLE;
    if wholes > MAX_WHOLES as i64 {
        assert forall|d: Duration| #[trigger] is_plain(d) implies d.span() != units by {
            lemma_plain_span(d);
        }
        return None;
    }
    let rest: i64 = units - wholes * UNITS_PER_WHOLE;
    let mut k: usize = 0;
    while k < FRACTIONS
        invariant
            k <= FRACTIONS,
            0 <= wholes <= MAX_WHOLES,
            0 <= rest < UNITS_PER_WHOLE,
            units == wholes * UNITS_PER_WHOLE + rest,
            forall|j: int| 0 <= j < k ==> fraction_units(#[trigger] fraction_at(j)) != rest,
        decreases FRACTIONS - k,
    {
        let frac = Fraction::at(k);
        if frac.units() == rest {
            let d = Duration::new(wholes as u8, frac);
            proof {
                lemma_plain_span(d);
            }
            return Some(d);
        }
        k += 1;
    }
    proof {
        assert forall|d: Duration| #[trigger] is_plain(d) implies d.span() != units by {
            lemma_plain_span(d);
            let j = place_in_box(d.frac);
            assert(fraction_at(j) == d.frac);
        }
    }
    None
}

/// Where a fraction stands in its box.
spec fn place_in_box(f: Fraction) -> int {
    match f {
        Fraction::Zero => 0,
        Fraction::Half => 1,
        Fraction::Quarter => 2,
        Fraction::Eighth => 3,
        Fraction::Sixteenth => 4,
        Fraction::ThirtySecond => 5,
        Fraction::SixtyFourth => 6,
        Fraction::HundredTwentyEighth => 7,
        Fraction::TwoHundredFiftySixth => 8,
    }
}

/// Whether no plain length is closer to `units`, or as close and shorter.
pub open spec fn is_nearest(d: Duration, units: int) -> bool {
    &&& is_plain(d)
    &&& forall|e: Duration| #[trigger]
        is_plain(e) ==> apart(d.span(), units) < apart(e.span(), units) || (apart(d.span(), units)
            == apart(e.span(), units) && d.span() <= e.span())
}

/// The plain length closest to `units`: what a note that sounds has to settle
/// for. Ties go to the shorter, which cannot overrun the note after it.
pub fn nearest_duration(units: i64) -> (r: Duration)
    ensures
        is_nearest(r, units as int),
{
    let mut best = Duration::new(0, Fraction::Zero);
    let mut best_diff: i128 = if units < 0 {
        -(units as i128)
    } else {
        units as i128
    };
    proof {
        lemma_plain_span(best);
    }
    let mut wholes: u8 = 0;
    while wholes <= MAX_WHOLES
        invariant
            wholes <= MAX_WHOLES + 1,
            is_plain(best),
            best_diff == apart(best.span(), units as int),
            0 <= best_diff <= i64::MAX + 10_000,
            forall|e: Duration| #[trigger]
                is_plain(e) && e.wholes < wholes ==> best_diff < apart(e.span(), units as int) || (
                best_diff == apart(e.span(), units as int) && best.span() <= e.span()),
        decreases MAX_WHOLES + 1 - wholes,
    {
        let mut k: usize = 0;
        while k < FRACTIONS
            invariant
                k <= FRACTIONS,
                wholes <= MAX_WHOLES,
                is_plain(best),
                best_diff == apart(best.span(), units as int),
                0 <= best_diff <= i64::MAX + 10_000,
                forall|e: Duration| #[trigger]
                    is_plain(e) && (e.wholes < wholes || (e.wholes == wholes && place_in_box(e.frac)
                        < k)) ==> best_diff < apart(e.span(), units as int) || (best_diff == apart(
                        e.span(),
                        units as int,
                    ) && best.span() <= e.span()),
            decreases FRACTIONS - k,
        {
            let candidate = Duration::new(wholes, Fraction::at(k));
            let over: i128 = candidate.units() as i128 - units as i128;
            let diff: i128 = if over < 0 {
                -over
            } else {
                over
            };
            let ghost was = best;
            if diff < best_diff || (diff == best_diff && candidate.units() < best.units()) {
                best = candidate;
                best_diff = diff;
            }
            proof {
                assert forall|e: Duration| #[trigger]
                    is_plain(e) && (e.wholes < wholes || (e.wholes == wholes && place_in_box(e.frac)
                        < k + 1)) implies best_diff < apart(e.span(), units as int) || (best_diff
                    == apart(e.span(), units as int) && best.span() <= e.span()) by {
                    if e.wholes == wholes && place_in_box(e.frac) == k {
                        assert(e == candidate);
                    }
                }
            }
            k += 1;
        }
        wholes += 1;
    }
    best
}

/// The plain length that is taken out of `units` first: as many whole notes as
/// there can be, then the coarsest fraction that fits.
pub open spec fn plain_chip(units: int) -> Duration {
    let k = first_fitting(rest_part(units), 1);
    plain(whole_part(units), if k < FRACTIONS {
        fraction_at(k)
    } else {
        Fraction::Zero
    })
}

/// A silence as plain lengths, longest first.
pub open spec fn plain_terms(units: int) -> Seq<Duration>
    decreases units,
    via plain_terms_decreases
{
    if units <= 0 {
        Seq::empty()
    } else {
        seq![plain_chip(units)] + plain_terms(units - plain_chip(units).span())
    }
}

#[via_fn]
proof fn plain_terms_decreases(units: int) {
    if units > 0 {
        lemma_plain_chip(units);
    }
}

/// A chip fits, is not nothing, and nothing longer fits.
pub proof fn lemma_plain_chip(units: int)
    requires
        units > 0,
    ensures
        is_plain(plain_chip(units)),
        0 < plain_chip(units).span() <= units,
        forall|e: Duration| #[trigger]
            is_plain(e) && e.span() <= units ==> e.span() <= plain_chip(units).span(),
{
    let rem = rest_part(units);
    let d = plain_chip(units);
    lemma_plain_span(d);
    if rem >= 1 {
        lemma_first_fitting(rem, 1);
    } else {
        lemma_nothing_fits(rem, 1);
    }
    assert forall|e: Duration| #[trigger] is_plain(e) && e.span() <= units implies e.span()
        <= d.span() by {
        lemma_plain_span(e);
        let j = place_in_box(e.frac);
        assert(fraction_at(j) == e.frac);
        if e.wholes >= d.wholes && e.frac != Fraction::Zero {
            assert(e.wholes == d.wholes);
            assert(fraction_units(e.frac) <= rem);
            if j < first_fitting(rem, 1) {
                assert(fraction_units(fraction_at(j)) > rem);
            }
        }
    }
}

/// A silence laid out over plain lengths adds up to it exactly, every part of it
/// longer than nothing.
pub proof fn law_plain_terms_add_up_exactly(units: int)
    requires
        units >= 0,
    ensures
        total_span(plain_terms(units)) == units,
        forall|i: int|
            0 <= i < plain_terms(units).len() ==> is_plain(#[trigger] plain_terms(units)[i])
                && plain_terms(units)[i].span() > 0,
        plain_terms(units).len() <= units,
        units > 0 ==> plain_terms(units).len() > 0,
    decreases units,
{
    if units > 0 {
        let d = plain_chip(units);
        lemma_plain_chip(units);
        let rest = plain_terms(units - d.span());
        law_plain_terms_add_up_exactly(units - d.span());
        lemma_total_span_add(seq![d], rest);
        lemma_total_span_one(d);
        let all = plain_terms(units);
        assert(all == seq![d] + rest);
        assert forall|i: int| 0 <= i < all.len() implies is_plain(#[trigger] all[i])
            && all[i].span() > 0 by {
            if i > 0 {
                assert(all[i] == rest[i - 1]);
            }
        }
    }
}

/// The most lengths a silence is split into.
pub const MAX_SPLIT_TERMS: usize = 64;

/// The parts a silence is split into: all of them, or as many as are allowed.
pub open spec fn split_terms(units: int) -> Seq<Duration> {
    if plain_terms(units).len() <= MAX_SPLIT_TERMS {
        plain_terms(units)
    } else {
        plain_terms(units).take(MAX_SPLIT_TERMS as int)
    }
}

/// The longest a plain length can be, in units.
pub const LONGEST_PLAIN: i64 = 4_224;

/// Every silence up to this long is split exactly.
pub const EXACT_SILENCE: i64 = 240_767;

/// Below a whole note, a silence takes no more parts than it has binary digits.
proof fn lemma_few_terms_below(units: int, bits: int, top: int)
    requires
        0 <= bits <= 8,
        0 <= units < top,
        top == (if bits == 0 {
            1int
        } else if bits == 1 {
            2
        } else if bits == 2 {
            4
        } else if bits == 3 {
            8
        } else if bits == 4 {
            16
        } else if bits == 5 {
            32
        } else if bits == 6 {
            64
        } else if bits == 7 {
            128
        } else {
            256
        }),
    ensures
        plain_terms(units).len() <= bits,
    decreases bits,
{
    if units > 0 {
        let d = plain_chip(units);
        lemma_plain_chip(units);
        lemma_plain_span(d);
        assert(whole_part(units) == 0);
        lemma_first_fitting(units, 1);
        let k = first_fitting(units, 1);
        let half = top / 2;
        assert(units - d.span() < half) by {
            let f = fraction_units(fraction_at(k));
            if k > 1 {
                assert(fraction_units(fraction_at(k - 1)) > units);
            }
            assert(units < 2 * f);
        }
        lemma_few_terms_below(units - d.span(), bits - 1, half);
    }
}

proof fn lemma_few_terms(units: int)
    requires
        0 <= units < LONGEST_PLAIN,
    ensures
        plain_terms(units).len() <= 8,
{
    if units > 0 {
        let d = plain_chip(units);
        lemma_plain_chip(units);
        lemma_plain_span(d);
        let rem = rest_part(units);
        assert(0 <= rem < 256);
        if rem >= 1 {
            lemma_first_fitting(rem, 1);
            let k = first_fitting(rem, 1);
            let f = fraction_units(fraction_at(k));
            if k > 1 {
                assert(fraction_units(fraction_at(k - 1)) > rem);
            }
            assert(rem - f < 128);
            lemma_few_terms_below(rem - f, 7, 128);
            assert(units - d.span() == rem - f);
        } else {
            lemma_nothing_fits(rem, 1);
            assert(units - d.span() == 0);
            assert(plain_terms(0).len() == 0);
        }
        assert(plain_terms(units) == seq![d] + plain_terms(units - d.span()));
    }
}

proof fn lemma_terms_by_length(units: int, n: int)
    requires
        n >= 0,
        0 <= units < (n + 1) * LONGEST_PLAIN,
    ensures
        plain_terms(units).len() <= n + 8,
    decreases n,
{
    if units < LONGEST_PLAIN {
        lemma_few_terms(units);
    } else {
        let d = plain_chip(units);
        lemma_plain_chip(units);
        lemma_plain_span(d);
        assert(whole_part(units) == MAX_WHOLES);
        assert(first_fitting(rest_part(units), 1) == 1);
        assert(d.span() == LONGEST_PLAIN);
        lemma_terms_by_length(units - LONGEST_PLAIN, n - 1);
    }
}

/// A silence is split exactly, longest part first, up to one that is minutes
/// long.
pub proof fn law_a_silence_is_split_exactly(units: int)
    requires
        0 <= units <= EXACT_SILENCE,
    ensures
        split_terms(units) == plain_terms(units),
        total_span(split_terms(units)) == units,
{
    lemma_terms_by_length(units, 56);
    law_plain_terms_add_up_exactly(units);
}

/// How many ones there are among the last `k` binary digits of a number.
spec fn ones(n: int, k: int) -> int
    decreases k,
{
    if k <= 0 {
        0
    } else {
        n % 2 + ones(n / 2, k - 1)
    }
}

/// Whether a number is a power of two.
spec fn is_power(f: int) -> bool
    decreases f,
{
    f == 1 || (f > 1 && f % 2 == 0 && is_power(f / 2))
}

/// Two to the power of `k`.
spec fn power(k: int) -> int
    decreases k,
{
    if k <= 0 {
        1
    } else {
        2 * power(k - 1)
    }
}

/// One more power of two makes at most one more one.
proof fn lemma_ones_add(n: int, f: int, k: int)
    requires
        n >= 0,
        is_power(f),
    ensures
        ones(n + f, k) <= ones(n, k) + 1,
    decreases k,
{
    if k > 0 {
        if f == 1 {
            if n % 2 == 1 {
                assert((n + 1) / 2 == n / 2 + 1);
                lemma_ones_add(n / 2, 1, k - 1);
            } else {
                assert((n + 1) / 2 == n / 2);
            }
        } else {
            assert((n + f) / 2 == n / 2 + f / 2);
            lemma_ones_add(n / 2, f / 2, k - 1);
        }
    }
}

/// A power of two above a number makes exactly one more.
proof fn lemma_ones_above(n: int, f: int, k: int)
    requires
        0 <= n < f,
        is_power(f),
        f < power(k),
    ensures
        ones(n + f, k) == ones(n, k) + 1,
    decreases k,
{
    if k > 0 {
        if f == 1 {
            assert(n == 0);
            lemma_no_ones(k - 1);
        } else {
            assert((n + f) / 2 == n / 2 + f / 2);
            lemma_ones_above(n / 2, f / 2, k - 1);
        }
    }
}

proof fn lemma_no_ones(k: int)
    ensures
        ones(0, k) == 0,
    decreases k,
{
    if k > 0 {
        lemma_no_ones(k - 1);
    }
}

proof fn lemma_power_counts(k: int)
    ensures
        power(k) >= 1,
    decreases k,
{
    if k > 0 {
        lemma_power_counts(k - 1);
    }
}

/// What is counted in whole powers changes none of the digits below.
proof fn lemma_ones_below(n: int, w: int, k: int)
    requires
        n >= 0,
        w >= 0,
    ensures
        ones(n + power(k) * w, k) == ones(n, k),
    decreases k,
{
    if k > 0 {
        lemma_power_counts(k - 1);
        let z = power(k - 1) * w;
        assert(power(k) * w == 2 * z && z >= 0) by (nonlinear_arith)
            requires
                power(k) == 2 * power(k - 1),
                z == power(k - 1) * w,
                power(k - 1) >= 1,
                w >= 0,
        ;
        assert((n + 2 * z) / 2 == n / 2 + z);
        assert((n + 2 * z) % 2 == n % 2);
        lemma_ones_below(n / 2, w, k - 1);
    }
}

proof fn lemma_powers(f: Fraction)
    ensures
        f == Fraction::Zero || is_power(fraction_units(f)),
        fraction_units(f) < power(8),
        power(8) == 256,
{
    reveal_with_fuel(is_power, 9);
    reveal_with_fuel(power, 9);
}

/// One more plain length makes at most one more one.
proof fn lemma_ones_of_a_length(n: int, d: Duration)
    requires
        n >= 0,
        is_plain(d),
    ensures
        ones(n + d.span(), 8) <= ones(n, 8) + 1,
{
    lemma_plain_span(d);
    lemma_powers(d.frac);
    let f = fraction_units(d.frac);
    lemma_ones_below(n + f, d.wholes as int, 8);
    assert(n + d.span() == n + f + 256 * d.wholes);
    if f > 0 {
        lemma_ones_add(n, f, 8);
    }
}

/// No fewer plain lengths make a total than it has ones among its last eight
/// binary digits.
proof fn lemma_ones_of_lengths(s: Seq<Duration>)
    requires
        forall|i: int| 0 <= i < s.len() ==> is_plain(#[trigger] s[i]),
    ensures
        ones(total_span(s), 8) <= s.len(),
        total_span(s) >= 0,
    decreases s.len(),
{
    if s.len() == 0 {
        lemma_no_ones(8);
    } else {
        let front = s.drop_last();
        assert(forall|i: int| 0 <= i < front.len() ==> #[trigger] front[i] == s[i]);
        lemma_ones_of_lengths(front);
        assert(is_plain(s[s.len() - 1]));
        lemma_plain_span(s.last());
        lemma_ones_of_a_length(total_span(front), s.last());
    }
}

/// What is left of a rest behind its coarsest fraction is less than it.
proof fn lemma_coarsest_fits(rem: int)
    requires
        1 <= rem < 256,
    ensures
        ({
            let f = fraction_units(fraction_at(first_fitting(rem, 1)));
            f <= rem < 2 * f && is_power(f) && f < power(8)
        }),
{
    lemma_first_fitting(rem, 1);
    let k = first_fitting(rem, 1);
    if k > 1 {
        assert(fraction_units(fraction_at(k - 1)) > rem);
    }
    lemma_powers(fraction_at(k));
}

/// A silence shorter than a whole note takes a length for each of its ones.
proof fn lemma_terms_below_a_whole(units: int)
    requires
        0 <= units < 256,
    ensures
        plain_terms(units).len() == ones(units, 8),
    decreases units,
{
    if units == 0 {
        lemma_no_ones(8);
    } else {
        lemma_coarsest_fits(units);
        let d = plain_chip(units);
        lemma_plain_chip(units);
        lemma_plain_span(d);
        lemma_first_fitting(units, 1);
        let f = fraction_units(fraction_at(first_fitting(units, 1)));
        assert(d.span() == f);
        lemma_terms_below_a_whole(units - f);
        lemma_ones_above(units - f, f, 8);
    }
}

/// One no longer than the longest plain length takes one for each of its ones,
/// and at least one.
proof fn lemma_terms_are_ones(units: int)
    requires
        0 < units < LONGEST_PLAIN,
    ensures
        plain_terms(units).len() == (if ones(units, 8) == 0 {
            1
        } else {
            ones(units, 8)
        }),
{
    let w = whole_part(units);
    let rem = rest_part(units);
    assert(0 <= w <= 16 && 0 <= rem < 256 && units == rem + 256 * w);
    assert(ones(units, 8) == ones(rem, 8)) by {
        lemma_powers(Fraction::Zero);
        lemma_ones_below(rem, w, 8);
    }
    let d = plain_chip(units);
    lemma_plain_chip(units);
    lemma_plain_span(d);
    if rem == 0 {
        lemma_nothing_fits(rem, 1);
        lemma_no_ones(8);
        assert(units - d.span() == 0);
        assert(plain_terms(0).len() == 0);
    } else {
        lemma_coarsest_fits(rem);
        lemma_first_fitting(rem, 1);
        let f = fraction_units(fraction_at(first_fitting(rem, 1)));
        assert(units - d.span() == rem - f);
        lemma_terms_below_a_whole(rem - f);
        lemma_ones_above(rem - f, f, 8);
        lemma_some_ones(rem - f, 8);
    }
    assert(plain_terms(units) == seq![d] + plain_terms(units - d.span()));
}

proof fn lemma_some_ones(n: int, k: int)
    requires
        n >= 0,
    ensures
        ones(n, k) >= 0,
    decreases k,
{
    if k > 0 {
        lemma_some_ones(n / 2, k - 1);
    }
}

/// A silence shorter than the longest plain length is split into no more parts
/// than it needs: no list of plain lengths that adds up to it is shorter.
pub proof fn law_a_silence_takes_no_more_parts_than_it_needs(units: int, other: Seq<Duration>)
    requires
        0 <= units < LONGEST_PLAIN,
        total_span(other) == units,
        forall|i: int| 0 <= i < other.len() ==> is_plain(#[trigger] other[i]),
    ensures
        split_terms(units).len() <= other.len(),
{
    if units > 0 {
        law_a_silence_is_split_exactly(units);
        lemma_ones_of_lengths(other);
        lemma_terms_are_ones(units);
        assert(other.len() > 0);
    }
}

/// A silence as a chain of plain lengths adding up to it exactly, longest first.
/// Empty for zero.
pub fn split_units(units: i64) -> (r: Vec<Duration>)
    ensures
        r@ == split_terms(units as int),
        r@.len() <= MAX_SPLIT_TERMS,
{
    let mut left: i64 = units;
    let mut out: Vec<Duration> = Vec::new();
    assert(Seq::<Duration>::empty() + plain_terms(units as int) =~= plain_terms(units as int));
    while left > 0 && out.len() < MAX_SPLIT_TERMS
        invariant
            out@.len() <= MAX_SPLIT_TERMS,
            plain_terms(units as int) == out@ + plain_terms(left as int),
        decreases MAX_SPLIT_TERMS - out@.len(),
    {
        let term = chip(left);
        proof {
            lemma_plain_chip(left as int);
            let rest = plain_terms(left - term.span());
            assert(out@ + (seq![term] + rest) =~= out@.push(term) + rest);
        }
        out.push(term);
        left -= term.units();
    }
    proof {
        let all = plain_terms(units as int);
        if left > 0 {
            law_plain_terms_add_up_exactly(left as int);
        }
        assert(all.take(out@.len() as int) =~= out@);
        if left <= 0 {
            assert(all =~= out@);
        }
    }
    out
}

/// The longest plain length that fits in `units`.
fn chip(units: i64) -> (r: Duration)
    requires
        units > 0,
    ensures
        r == plain_chip(units as int),
{
    let count: i64 = units / UNITS_PER_WHOLE;
    let wholes: i64 = if count <= MAX_WHOLES as i64 {
        count
    } else {
        MAX_WHOLES as i64
    };
    let rest: i64 = units - wholes * UNITS_PER_WHOLE;
    let mut k: usize = 1;
    while k < FRACTIONS
        invariant
            1 <= k <= FRACTIONS,
            first_fitting(rest as int, 1) == first_fitting(rest as int, k as int),
            0 <= wholes <= MAX_WHOLES,
            rest == rest_part(units as int),
            wholes == whole_part(units as int),
        decreases FRACTIONS - k,
    {
        let frac = Fraction::at(k);
        if frac.units() <= rest {
            return Duration::new(wholes as u8, frac);
        }
        k += 1;
    }
    Duration::new(wholes as u8, Fraction::Zero)
}

/// The plain length that fills `units` best without overrunning them.
pub open spec fn longest_fit(units: int) -> Duration {
    if units <= 0 {
        zero_length()
    } else {
        plain_chip(units)
    }
}

/// The longest plain length that still fits in `units`.
pub fn longest_within(units: i64) -> (r: Duration)
    ensures
        r == longest_fit(units as int),
        units >= 0 ==> is_plain(r) && r.span() <= units && forall|e: Duration| #[trigger]
            is_plain(e) && e.span() <= units ==> e.span() <= r.span(),
{
    proof {
        if units > 0 {
            lemma_plain_chip(units as int);
            law_plain_terms_add_up_exactly(units as int);
            assert(split_terms(units as int)[0] == plain_terms(units as int)[0]);
        } else {
            lemma_plain_span(zero_length());
        }
    }
    let terms = split_units(units);
    if terms.len() > 0 {
        terms[0]
    } else {
        Duration::new(0, Fraction::Zero)
    }
}

// ── what was played ─────────────────────────────────────────────────────────

/// A note as it was played, in ticks from the start of the take, before any
/// rounding.
#[derive(Clone, Copy, PartialEq, Eq, Debug, Structural)]
pub struct RecordedNote {
    pub at: i64,
    pub dur: i64,
    pub pitch: u8,
}

/// A note rounded onto the grid, in units from the start of the take.
#[derive(Clone, Copy, PartialEq, Eq, Debug, Structural)]
pub struct GridNote {
    pub at: i64,
    pub dur: i64,
    pub pitch: u8,
}

impl Ranked for RecordedNote {
    open spec fn rank(self) -> (int, int) {
        (self.at as int, self.pitch as int)
    }

    fn leads(&self, other: &Self) -> (r: bool) {
        self.at < other.at || (self.at == other.at && self.pitch <= other.pitch)
    }
}

impl Ranked for GridNote {
    open spec fn rank(self) -> (int, int) {
        (self.at as int, self.pitch as int)
    }

    fn leads(&self, other: &Self) -> (r: bool) {
        self.at < other.at || (self.at == other.at && self.pitch <= other.pitch)
    }
}

impl GridNote {
    /// Where the note ends.
    pub open spec fn until(self) -> int {
        self.at + self.dur
    }

    /// Whether that can be counted.
    pub open spec fn counts(self) -> bool {
        i64::MIN <= self.until() <= i64::MAX
    }

    /// Where the note ends.
    pub fn end(self) -> (r: i64)
        requires
            self.counts(),
        ensures
            r == self.until(),
    {
        self.at + self.dur
    }
}

/// The notes of a take while it is read: the keys held, by pitch, with when each
/// was struck, and the notes that have ended.
pub struct TakeView {
    pub held: Seq<Option<i64>>,
    pub ended: Seq<RecordedNote>,
}

/// A note from one time to another.
pub open spec fn sounded(from: i64, to: int, pitch: int) -> RecordedNote {
    RecordedNote {
        at: from,
        dur: if to > from {
            (to - from) as i64
        } else {
            0
        },
        pitch: pitch as u8,
    }
}

/// The take with the note of a key ended, if it is held.
pub open spec fn with_ended(t: TakeView, at: int, pitch: int) -> Seq<RecordedNote> {
    match t.held[pitch] {
        Some(from) => t.ended.push(sounded(from, at, pitch)),
        None => t.ended,
    }
}

/// What a message at a time makes of a take. A key struck while it is held ends
/// the note before it: some keyboards strike again without releasing.
pub open spec fn played(t: TakeView, at: int, m: Seq<u8>) -> TakeView {
    let pitch = m[1] as int;
    if presses(m) {
        TakeView {
            held: t.held.update(pitch, Some(at as i64)),
            ended: with_ended(t, at, pitch),
        }
    } else if releases(m) {
        TakeView { held: t.held.update(pitch, None), ended: with_ended(t, at, pitch) }
    } else {
        t
    }
}

/// A take before anything is played.
pub open spec fn silence() -> TakeView {
    TakeView { held: Seq::new(256, |i: int| None), ended: Seq::empty() }
}

/// A time pulled up to the start of the take.
pub open spec fn from_zero(at: i64) -> int {
    if at < 0 {
        0
    } else {
        at as int
    }
}

/// What messages make of a take. One that the clock could not place is dropped,
/// and one it placed before zero is pulled up to it.
pub open spec fn heard(messages: Seq<(Option<i64>, [u8; 3])>) -> TakeView
    decreases messages.len(),
{
    if messages.len() == 0 {
        silence()
    } else {
        let before = heard(messages.drop_last());
        let (at, m) = messages.last();
        match at {
            None => before,
            Some(at) => played(before, from_zero(at), m@),
        }
    }
}

/// The notes of a take with the keys below pitch `k` that are still held ended
/// at `end`.
pub open spec fn let_go(t: TakeView, end: i64, k: int) -> Seq<RecordedNote>
    decreases k,
{
    if k <= 0 {
        t.ended
    } else {
        let before = let_go(t, end, k - 1);
        match t.held[k - 1] {
            Some(from) => before.push(sounded(from, end as int, k - 1)),
            None => before,
        }
    }
}

/// The notes of a take, in order.
pub open spec fn take_of(messages: Seq<(Option<i64>, [u8; 3])>, end: i64) -> Seq<RecordedNote> {
    ordered(let_go(heard(messages), end, 256))
}

/// How many notes were started by messages that could be placed.
pub open spec fn struck(messages: Seq<(Option<i64>, [u8; 3])>) -> int
    decreases messages.len(),
{
    if messages.len() == 0 {
        0
    } else {
        let (at, m) = messages.last();
        struck(messages.drop_last()) + if at is Some && presses(m@) {
            1int
        } else {
            0
        }
    }
}

/// How many of the keys below pitch `k` are held.
spec fn holding(held: Seq<Option<i64>>, k: int) -> int
    decreases k,
{
    if k <= 0 {
        0
    } else {
        holding(held, k - 1) + if held[k - 1] is Some {
            1int
        } else {
            0
        }
    }
}

proof fn lemma_holding_update(held: Seq<Option<i64>>, p: int, x: Option<i64>, k: int)
    requires
        0 <= p < held.len(),
        0 <= k <= held.len(),
    ensures
        holding(held.update(p, x), k) == holding(held, k) + if p < k {
            (if x is Some {
                1int
            } else {
                0
            }) - (if held[p] is Some {
                1int
            } else {
                0
            })
        } else {
            0
        },
    decreases k,
{
    if k > 0 {
        lemma_holding_update(held, p, x, k - 1);
    }
}

proof fn lemma_heard(messages: Seq<(Option<i64>, [u8; 3])>)
    ensures
        heard(messages).held.len() == 256,
        forall|i: int|
            0 <= i < 256 ==> (#[trigger] heard(messages).held[i] matches Some(at) ==> at >= 0),
        heard(messages).ended.len() + holding(heard(messages).held, 256) == struck(messages),
        forall|i: int|
            0 <= i < heard(messages).ended.len() ==> (#[trigger] heard(messages).ended[i]).at >= 0
                && heard(messages).ended[i].dur >= 0,
    decreases messages.len(),
{
    if messages.len() == 0 {
        lemma_nothing_held(256);
    } else {
        let before = heard(messages.drop_last());
        lemma_heard(messages.drop_last());
        let (at, m) = messages.last();
        if let Some(at) = at {
            let p = m@[1] as int;
            let t = from_zero(at);
            lemma_holding_update(before.held, p, Some(t as i64), 256);
            lemma_holding_update(before.held, p, None, 256);
            let all = heard(messages).ended;
            assert forall|i: int| 0 <= i < all.len() implies (#[trigger] all[i]).at >= 0
                && all[i].dur >= 0 by {
                if i < before.ended.len() {
                    assert(all[i] == before.ended[i]);
                }
            }
        }
    }
}

proof fn lemma_nothing_held(k: int)
    requires
        0 <= k <= 256,
    ensures
        holding(silence().held, k) == 0,
    decreases k,
{
    if k > 0 {
        lemma_nothing_held(k - 1);
    }
}

proof fn lemma_let_go(t: TakeView, end: i64, k: int)
    requires
        0 <= k <= 256,
        t.held.len() == 256,
    ensures
        let_go(t, end, k).len() == t.ended.len() + holding(t.held, k),
    decreases k,
{
    if k > 0 {
        lemma_let_go(t, end, k - 1);
    }
}

/// Whether a message strikes a key at a time of the take.
pub open spec fn strikes(m: (Option<i64>, [u8; 3]), at: int, pitch: int) -> bool {
    m.0 matches Some(t) && presses(m.1@) && from_zero(t) == at && m.1@[1] == pitch
}

/// How often a key was struck at a time, by messages that could be placed.
pub open spec fn struck_at(messages: Seq<(Option<i64>, [u8; 3])>, at: int, pitch: int) -> int {
    how_many(messages, |m: (Option<i64>, [u8; 3])| strikes(m, at, pitch))
}

/// How many notes of a pitch start at a time.
pub open spec fn started_at(notes: Seq<RecordedNote>, at: int, pitch: int) -> int {
    how_many(notes, |n: RecordedNote| n.at == at && n.pitch == pitch)
}

proof fn lemma_starts_heard(messages: Seq<(Option<i64>, [u8; 3])>, at: int, pitch: int)
    requires
        0 <= pitch < 256,
    ensures
        started_at(heard(messages).ended, at, pitch) + (if heard(messages).held[pitch] matches Some(
            t,
        ) && t == at {
            1int
        } else {
            0
        }) == struck_at(messages, at, pitch),
    decreases messages.len(),
{
    if messages.len() > 0 {
        let front = messages.drop_last();
        let before = heard(front);
        lemma_starts_heard(front, at, pitch);
        lemma_heard(front);
        let (t, m) = messages.last();
        if let Some(t) = t {
            let p = m@[1] as int;
            let after = heard(messages);
            if let Some(from) = before.held[p] {
                let x = sounded(from, from_zero(t), p);
                assert(before.ended.push(x).drop_last() =~= before.ended);
            }
            assert(p != pitch ==> after.held[pitch] == before.held[pitch]);
        }
    }
}

proof fn lemma_starts_let_go(t: TakeView, end: i64, k: int, at: int, pitch: int)
    requires
        0 <= k <= 256,
        0 <= pitch < 256,
        t.held.len() == 256,
    ensures
        started_at(let_go(t, end, k), at, pitch) == started_at(t.ended, at, pitch) + (if pitch < k
            && (t.held[pitch] matches Some(from) && from == at) {
            1int
        } else {
            0
        }),
    decreases k,
{
    if k > 0 {
        lemma_starts_let_go(t, end, k - 1, at, pitch);
        let before = let_go(t, end, k - 1);
        if let Some(from) = t.held[k - 1] {
            let x = sounded(from, end as int, k - 1);
            assert(before.push(x).drop_last() =~= before);
        }
    }
}

/// As many notes of a pitch start at a time as the key was struck then.
proof fn lemma_starts(messages: Seq<(Option<i64>, [u8; 3])>, end: i64, at: int, pitch: int)
    requires
        0 <= pitch < 256,
    ensures
        started_at(take_of(messages, end), at, pitch) == struck_at(messages, at, pitch),
{
    let t = heard(messages);
    lemma_heard(messages);
    lemma_starts_heard(messages, at, pitch);
    lemma_starts_let_go(t, end, 256, at, pitch);
    lemma_how_many_ordered(
        let_go(t, end, 256),
        |n: RecordedNote| n.at == at && n.pitch == pitch,
    );
}

/// A take holds as many notes as were struck: a key struck again closes the note
/// before it, and one still held when the take ends is closed there. Each starts
/// where its key was struck, at the pitch of that key, as often as it was struck
/// there.
pub proof fn law_every_key_struck_is_a_note(messages: Seq<(Option<i64>, [u8; 3])>, end: i64)
    ensures
        take_of(messages, end).len() == struck(messages),
        forall|at: int, pitch: int|
            0 <= pitch < 256 ==> #[trigger] started_at(take_of(messages, end), at, pitch)
                == struck_at(messages, at, pitch),
        forall|i: int|
            0 <= i < messages.len() && (#[trigger] messages[i]).0 is Some && presses(
                messages[i].1@,
            ) ==> exists|j: int|
                0 <= j < take_of(messages, end).len() && (#[trigger] take_of(messages, end)[j]).at
                    == from_zero(messages[i].0->0) && take_of(messages, end)[j].pitch
                    == messages[i].1@[1],
{
    lemma_heard(messages);
    lemma_let_go(heard(messages), end, 256);
    law_ordering_keeps_everything(let_go(heard(messages), end, 256));
    let take = take_of(messages, end);
    assert forall|at: int, pitch: int| 0 <= pitch < 256 implies #[trigger] started_at(
        take,
        at,
        pitch,
    ) == struck_at(messages, at, pitch) by {
        lemma_starts(messages, end, at, pitch);
    }
    assert forall|i: int|
        0 <= i < messages.len() && (#[trigger] messages[i]).0 is Some && presses(
            messages[i].1@,
        ) implies exists|j: int|
        0 <= j < take.len() && (#[trigger] take[j]).at == from_zero(messages[i].0->0)
            && take[j].pitch == messages[i].1@[1] by {
        let at = from_zero(messages[i].0->0);
        let pitch = messages[i].1@[1] as int;
        let struck_here = |m: (Option<i64>, [u8; 3])| strikes(m, at, pitch);
        let starts_here = |n: RecordedNote| n.at == at && n.pitch == pitch;
        assert(struck_here(messages[i]));
        lemma_how_many_holds(messages, struck_here, i);
        assert(started_at(take, at, pitch) == struck_at(messages, at, pitch));
        lemma_how_many_bounds(take, starts_here);
        let j = choose|j: int| 0 <= j < take.len() && starts_here(#[trigger] take[j]);
        assert(take[j].at == at && take[j].pitch == pitch);
    }
}

/// The notes in a captured stream of messages. Each comes with where the clock
/// of the transport placed it, in ticks, or none if it arrived before there was
/// a sound.
///
/// Notes still held when the take ended are closed at `end`.
pub fn notes_from(messages: &[(Option<i64>, [u8; 3])], end: i64) -> (r: Vec<RecordedNote>)
    ensures
        r@ == take_of(messages@, end),
{
    let mut held: [Option<i64>; 256] = [None;256];
    let mut out: Vec<RecordedNote> = Vec::new();
    let mut i: usize = 0;
    assert(held@ =~= silence().held);
    assert(messages@.take(0).len() == 0);
    while i < messages.len()
        invariant
            i <= messages.len(),
            held@.len() == 256,
            held@ == heard(messages@.take(i as int)).held,
            out@ == heard(messages@.take(i as int)).ended,
        decreases messages.len() - i,
    {
        let (stamp, m) = messages[i];
        let ghost before = heard(messages@.take(i as int));
        proof {
            assert(messages@.take(i + 1).drop_last() =~= messages@.take(i as int));
            assert(messages@.take(i + 1).last() == messages@[i as int]);
            lemma_heard(messages@.take(i as int));
        }
        if let Some(t) = stamp {
            let at: i64 = if t < 0 {
                0
            } else {
                t
            };
            let pitch: usize = m[1] as usize;
            let on = is_note_on(m);
            if on || is_note_off(m) {
                if let Some(from) = held[pitch] {
                    assert(before.held[pitch as int] is Some);
                    out.push(note_between(from, at, m[1]));
                }
                held[pitch] = if on {
                    Some(at)
                } else {
                    None
                };
                assert(held@ =~= played(before, at as int, m@).held);
            }
        }
        i += 1;
    }
    assert(messages@.take(i as int) =~= messages@);
    let ghost whole = heard(messages@);
    proof {
        lemma_heard(messages@);
    }
    let mut k: usize = 0;
    while k < 256
        invariant
            k <= 256,
            held@ == whole.held,
            held@.len() == 256,
            forall|i: int|
                0 <= i < 256 ==> (#[trigger] whole.held[i] matches Some(at) ==> at >= 0),
            out@ == let_go(whole, end, k as int),
        decreases 256 - k,
    {
        if let Some(from) = held[k] {
            assert(whole.held[k as int] is Some);
            out.push(note_between(from, end, k as u8));
        }
        k += 1;
    }
    put_in_order(&out)
}

fn note_between(from: i64, to: i64, pitch: u8) -> (r: RecordedNote)
    requires
        from >= 0,
    ensures
        r == sounded(from, to as int, pitch as int),
{
    let dur: i64 = if to > from {
        to - from
    } else {
        0
    };
    RecordedNote { at: from, dur, pitch }
}

// ── rounding ────────────────────────────────────────────────────────────────

/// How many steps of a length a time is nearest to; half a step is rounded away
/// from zero.
pub open spec fn nearest_step(t: int, step: int) -> int {
    if t >= 0 {
        (2 * t + step) / (2 * step)
    } else {
        -((-2 * t + step) / (2 * step))
    }
}

/// The multiple of `grid` units nearest to a time in ticks.
pub open spec fn snapped(t: int, grid: int) -> int {
    nearest_step(t, grid * TICKS_PER_UNIT) * grid
}

/// No multiple of the grid is closer to a time than the one it is rounded to: a
/// rounding is off by half a step at most, however many notes came before.
pub proof fn law_rounding_is_off_by_half_a_step_at_most(t: int, grid: int)
    requires
        grid >= 1,
    ensures
        2 * apart(snapped(t, grid) * TICKS_PER_UNIT, t) <= grid * TICKS_PER_UNIT,
{
    lemma_nearest_step(t, grid * TICKS_PER_UNIT);
    let q = nearest_step(t, grid * TICKS_PER_UNIT);
    assert((q * grid) * TICKS_PER_UNIT == q * (grid * TICKS_PER_UNIT)) by (nonlinear_arith);
}

proof fn lemma_nearest_step(t: int, step: int)
    requires
        step >= 1,
    ensures
        2 * apart(nearest_step(t, step) * step, t) <= step,
{
    let a = if t >= 0 {
        t
    } else {
        -t
    };
    let n = (2 * a + step) / (2 * step);
    assert(n * (2 * step) <= 2 * a + step < n * (2 * step) + 2 * step) by (nonlinear_arith)
        requires
            n == (2 * a + step) / (2 * step),
            step >= 1,
            a >= 0,
    ;
    assert(n * (2 * step) == 2 * (n * step)) by (nonlinear_arith);
    assert((-n) * step == -(n * step)) by (nonlinear_arith);
}

/// The nearest multiple of `grid` to a time in ticks.
fn snap(t: i64, grid: i64) -> (r: i64)
    requires
        grid >= 1,
    ensures
        r == snapped(t as int, grid as int),
{
    let step: i128 = (grid as i128) * (TICKS_PER_UNIT as i128);
    assert(step == grid * 65_536 && 65_536 <= step <= 0x7FFF_FFFF_FFFF_FFFF * 65_536) by (
    nonlinear_arith)
        requires
            step == grid * TICKS_PER_UNIT,
            TICKS_PER_UNIT == 65_536,
            1 <= grid <= 0x7FFF_FFFF_FFFF_FFFF,
    ;
    let a: i128 = if t >= 0 {
        t as i128
    } else {
        -(t as i128)
    };
    assert(0 <= a <= 0x8000_0000_0000_0000);
    let doubled: i128 = 2 * a + step;
    let n: i128 = doubled / (2 * step);
    proof {
        let q = nearest_step(t as int, step as int);
        law_rounding_is_off_by_half_a_step_at_most(t as int, grid as int);
        assert(n * grid <= i64::MAX && n >= 0) by (nonlinear_arith)
            requires
                n == (2 * a + step) / (2 * step),
                step == grid * 65536,
                grid >= 1,
                0 <= a <= 0x8000_0000_0000_0000,
                grid <= i64::MAX,
        ;
        assert((-n) * grid == -(n * grid)) by (nonlinear_arith);
    }
    if t >= 0 {
        (n * (grid as i128)) as i64
    } else {
        assert((-n) * grid >= -i64::MAX);
        ((-n) * (grid as i128)) as i64
    }
}

/// A note rounded onto the grid. It is never rounded away to nothing: a hit
/// shorter than half a step comes out one step long.
pub open spec fn quantized(n: RecordedNote, grid: int) -> GridNote {
    let at = snapped(n.at as int, grid);
    let dur = snapped(n.dur as int, grid);
    GridNote {
        at: if at < 0 {
            0
        } else {
            at as i64
        },
        dur: if dur < grid {
            grid as i64
        } else {
            dur as i64
        },
        pitch: n.pitch,
    }
}

/// The step a take is rounded onto: at least the grid's own.
pub open spec fn step_of(grid: i64) -> int {
    if grid < 1 {
        1
    } else {
        grid as int
    }
}

/// Round a take onto the grid: every start and every length to the nearest
/// multiple of `grid` units.
pub fn quantize(notes: &[RecordedNote], grid: i64) -> (r: Vec<GridNote>)
    ensures
        r@ == ordered(notes@.map_values(|n: RecordedNote| quantized(n, step_of(grid)))),
{
    let step: i64 = if grid < 1 {
        1
    } else {
        grid
    };
    let ghost f = |n: RecordedNote| quantized(n, step_of(grid));
    let mut out: Vec<GridNote> = Vec::new();
    let mut i: usize = 0;
    while i < notes.len()
        invariant
            i <= notes.len(),
            step == step_of(grid),
            f == (|n: RecordedNote| quantized(n, step_of(grid))),
            out@ == notes@.take(i as int).map_values(f),
        decreases notes.len() - i,
    {
        let n = notes[i];
        let at: i64 = snap(n.at, step);
        let dur: i64 = snap(n.dur, step);
        let g = GridNote {
            at: if at < 0 {
                0
            } else {
                at
            },
            dur: if dur < step {
                step
            } else {
                dur
            },
            pitch: n.pitch,
        };
        out.push(g);
        i += 1;
        assert(out@ =~= notes@.take(i as int).map_values(f));
    }
    assert(notes@.take(i as int) =~= notes@);
    put_in_order(&out)
}

// ── chords become rows ──────────────────────────────────────────────────────

/// Whether `next` can follow `last` in one row: it starts clear of it, or it
/// only runs into it and the earlier note can be shortened. Notes struck at the
/// same moment cannot, nor one that lasts through the whole of the other.
pub open spec fn shares(last: GridNote, next: GridNote) -> bool {
    last.until() <= next.at || (next.at != last.at && last.until() < next.until())
}

/// Whether `next` can follow `last` in one row.
pub fn shares_a_row(last: GridNote, next: GridNote) -> (r: bool)
    requires
        last.counts(),
        next.counts(),
    ensures
        r == shares(last, next),
{
    if last.end() <= next.at {
        return true;
    }
    next.at != last.at && last.end() < next.end()
}

/// The first row, from the one at `k` on, that can still take a note; past the
/// last if none can.
pub open spec fn row_for(voices: Seq<Seq<GridNote>>, n: GridNote, k: int) -> int
    decreases voices.len() - k,
{
    if k >= voices.len() {
        voices.len() as int
    } else if voices[k].len() == 0 || shares(voices[k].last(), n) {
        k
    } else {
        row_for(voices, n, k + 1)
    }
}

/// Rows with one more note: at the end of the first that can take it, or in a
/// new one.
pub open spec fn with_note(voices: Seq<Seq<GridNote>>, n: GridNote) -> Seq<Seq<GridNote>> {
    let k = row_for(voices, n, 0);
    if k < voices.len() {
        voices.update(k, voices[k].push(n))
    } else {
        voices.push(seq![n])
    }
}

/// A take split into as many rows as it needs.
pub open spec fn voices_of(notes: Seq<GridNote>) -> Seq<Seq<GridNote>>
    decreases notes.len(),
{
    if notes.len() == 0 {
        Seq::empty()
    } else {
        with_note(voices_of(notes.drop_last()), notes.last())
    }
}

/// The rows as sequences.
pub open spec fn rows_view(v: Seq<Vec<GridNote>>) -> Seq<Seq<GridNote>> {
    v.map_values(|x: Vec<GridNote>| x@)
}

/// All the notes of some rows.
pub open spec fn pooled(voices: Seq<Seq<GridNote>>) -> Multiset<GridNote>
    decreases voices.len(),
{
    if voices.len() == 0 {
        Multiset::empty()
    } else {
        pooled(voices.drop_last()).add(voices.last().to_multiset())
    }
}

proof fn lemma_row_for(voices: Seq<Seq<GridNote>>, n: GridNote, k: int)
    requires
        0 <= k <= voices.len(),
    ensures
        k <= row_for(voices, n, k) <= voices.len(),
        row_for(voices, n, k) < voices.len() ==> ({
            let v = voices[row_for(voices, n, k)];
            v.len() == 0 || shares(v.last(), n)
        }),
    decreases voices.len() - k,
{
    if k < voices.len() && !(voices[k].len() == 0 || shares(voices[k].last(), n)) {
        lemma_row_for(voices, n, k + 1);
    }
}

proof fn lemma_pooled_update(voices: Seq<Seq<GridNote>>, k: int, n: GridNote)
    requires
        0 <= k < voices.len(),
    ensures
        pooled(voices.update(k, voices[k].push(n))) == pooled(voices).insert(n),
    decreases voices.len(),
{
    broadcast use vstd::seq_lib::group_to_multiset_ensures;

    let w = voices.update(k, voices[k].push(n));
    if k == voices.len() - 1 {
        assert(w.drop_last() =~= voices.drop_last());
        assert(w.last().to_multiset() =~= voices.last().to_multiset().insert(n));
        assert(pooled(w) =~= pooled(voices).insert(n));
    } else {
        lemma_pooled_update(voices.drop_last(), k, n);
        assert(w.drop_last() =~= voices.drop_last().update(k, voices.drop_last()[k].push(n)));
        assert(pooled(w) =~= pooled(voices).insert(n));
    }
}

/// Splitting a take into rows keeps every note, once.
pub proof fn law_rows_hold_every_note(notes: Seq<GridNote>)
    ensures
        pooled(voices_of(notes)) == notes.to_multiset(),
    decreases notes.len(),
{
    broadcast use vstd::seq_lib::group_to_multiset_ensures;

    if notes.len() == 0 {
        assert(notes.to_multiset() =~= Multiset::empty());
    } else {
        let before = voices_of(notes.drop_last());
        let n = notes.last();
        law_rows_hold_every_note(notes.drop_last());
        lemma_row_for(before, n, 0);
        let k = row_for(before, n, 0);
        assert(notes.drop_last().push(n) =~= notes);
        if k < before.len() {
            lemma_pooled_update(before, k, n);
        } else {
            let w = before.push(seq![n]);
            assert(w.drop_last() =~= before);
            assert(Seq::<GridNote>::empty().push(n) =~= seq![n]);
            assert(Seq::<GridNote>::empty().to_multiset() =~= Multiset::empty());
            assert(pooled(w) =~= pooled(before).insert(n));
        }
    }
}

/// Whether the `i`-th note of a row can be followed by the one behind it.
pub open spec fn is_followed(v: Seq<GridNote>, i: int) -> bool {
    shares(v[i], v[i + 1])
}

/// Whether every note of a row can follow the one before it.
pub open spec fn is_a_line(v: Seq<GridNote>) -> bool {
    forall|i: int| 0 <= i < v.len() - 1 ==> #[trigger] is_followed(v, i)
}

/// Every row plays one note at a time, and none is empty.
pub proof fn law_a_row_is_a_line(notes: Seq<GridNote>)
    ensures
        forall|k: int|
            0 <= k < voices_of(notes).len() ==> (#[trigger] voices_of(notes)[k]).len() > 0
                && is_a_line(voices_of(notes)[k]),
    decreases notes.len(),
{
    if notes.len() > 0 {
        let before = voices_of(notes.drop_last());
        let n = notes.last();
        law_a_row_is_a_line(notes.drop_last());
        lemma_row_for(before, n, 0);
        let at = row_for(before, n, 0);
        let after = voices_of(notes);
        assert forall|k: int| 0 <= k < after.len() implies (#[trigger] after[k]).len() > 0
            && is_a_line(after[k]) by {
            if k < before.len() && k != at {
                assert(after[k] == before[k]);
            } else if k == at && k < before.len() {
                let v = before[k];
                let w = after[k];
                assert(w == v.push(n));
                assert(is_a_line(v) && v.len() > 0);
                assert forall|i: int| 0 <= i < w.len() - 1 implies #[trigger] is_followed(
                    w,
                    i,
                ) by {
                    if i < v.len() - 1 {
                        assert(is_followed(v, i));
                    } else {
                        assert(w[i] == v.last());
                    }
                }
            }
        }
    }
}

/// A passage of single notes stays in one row, however late the keys are
/// released.
pub proof fn law_a_line_stays_in_one_row(notes: Seq<GridNote>)
    requires
        is_a_line(notes),
        notes.len() > 0,
    ensures
        voices_of(notes) == seq![notes],
    decreases notes.len(),
{
    let init = notes.drop_last();
    let n = notes.last();
    if init.len() == 0 {
        assert(voices_of(init) =~= Seq::<Seq<GridNote>>::empty());
        assert(voices_of(notes) =~= seq![seq![n]]);
        assert(notes =~= seq![n]);
    } else {
        assert(is_a_line(init)) by {
            assert forall|i: int| 0 <= i < init.len() - 1 implies #[trigger] is_followed(
                init,
                i,
            ) by {
                assert(is_followed(notes, i));
            }
        }
        law_a_line_stays_in_one_row(init);
        assert(is_followed(notes, notes.len() - 2));
        assert(init.push(n) =~= notes);
        assert(voices_of(notes) =~= seq![notes]);
    }
}

/// Whether notes come in the order they start.
pub open spec fn by_start(notes: Seq<GridNote>) -> bool {
    forall|i: int, j: int|
        0 <= i <= j < notes.len() ==> (#[trigger] notes[i]).at <= (#[trigger] notes[j]).at
}

/// Whether a row's notes start one after the other, no two together.
pub open spec fn moves_on(v: Seq<GridNote>) -> bool {
    forall|i: int, j: int| 0 <= i < j < v.len() ==> (#[trigger] v[i]).at < (#[trigger] v[j]).at
}

/// Whether every note of some rows starts by a time, and sounds.
spec fn all_by(voices: Seq<Seq<GridNote>>, t: int) -> bool {
    forall|k: int, i: int|
        0 <= k < voices.len() && 0 <= i < voices[k].len() ==> (#[trigger] voices[k][i]).at <= t
            && voices[k][i].dur >= 1
}

/// Whether every one of some rows moves on.
spec fn all_move_on(voices: Seq<Seq<GridNote>>) -> bool {
    forall|k: int| 0 <= k < voices.len() ==> moves_on(#[trigger] voices[k])
}

proof fn lemma_all_by(before: Seq<Seq<GridNote>>, n: GridNote)
    requires
        all_by(before, n.at as int),
        n.dur >= 1,
    ensures
        all_by(with_note(before, n), n.at as int),
{
    lemma_row_for(before, n, 0);
    let after = with_note(before, n);
    assert forall|k: int, i: int| 0 <= k < after.len() && 0 <= i < after[k].len() implies (
    #[trigger] after[k][i]).at <= n.at && after[k][i].dur >= 1 by {
        if k < before.len() && i < before[k].len() {
            assert(after[k][i] == before[k][i]);
        } else {
            assert(after[k][i] == n);
        }
    }
}

proof fn lemma_all_move_on(before: Seq<Seq<GridNote>>, n: GridNote)
    requires
        all_by(before, n.at as int),
        all_move_on(before),
    ensures
        all_move_on(with_note(before, n)),
{
    lemma_row_for(before, n, 0);
    let at = row_for(before, n, 0);
    let after = with_note(before, n);
    assert forall|k: int| 0 <= k < after.len() implies moves_on(#[trigger] after[k]) by {
        if k == at && k < before.len() {
            let v = before[k];
            let w = v.push(n);
            assert(after[k] == w);
            assert(moves_on(v));
            assert forall|i: int, j: int| 0 <= i < j < w.len() implies (#[trigger] w[i]).at < (
            #[trigger] w[j]).at by {
                assert(w[i] == v[i]);
                if j < v.len() {
                    assert(w[j] == v[j]);
                } else {
                    let last = v[v.len() - 1];
                    assert(last == before[k][v.len() - 1]);
                    assert(shares(last, n));
                    assert(last.at < n.at);
                    assert(i < v.len() - 1 ==> v[i].at < last.at);
                }
            }
        } else if k < before.len() {
            assert(after[k] == before[k]);
        }
    }
}

proof fn lemma_rows_move_on(notes: Seq<GridNote>)
    requires
        by_start(notes),
        forall|i: int| 0 <= i < notes.len() ==> (#[trigger] notes[i]).dur >= 1,
    ensures
        all_move_on(voices_of(notes)),
        notes.len() > 0 ==> all_by(voices_of(notes), notes.last().at as int),
    decreases notes.len(),
{
    if notes.len() > 0 {
        let init = notes.drop_last();
        let n = notes.last();
        assert(n == notes[notes.len() - 1]);
        assert(by_start(init)) by {
            assert forall|i: int, j: int| 0 <= i <= j < init.len() implies (#[trigger] init[i]).at
                <= (#[trigger] init[j]).at by {
                assert(init[i] == notes[i] && init[j] == notes[j]);
            }
        }
        assert forall|i: int| 0 <= i < init.len() implies (#[trigger] init[i]).dur >= 1 by {
            assert(init[i] == notes[i]);
        }
        lemma_rows_move_on(init);
        let before = voices_of(init);
        if init.len() > 0 {
            assert(init.last() == notes[notes.len() - 2]);
        } else {
            assert(before.len() == 0);
        }
        assert(all_by(before, n.at as int));
        lemma_all_by(before, n);
        lemma_all_move_on(before, n);
    }
}

/// Out of a take in the order it was played, with notes that sound, every row
/// comes in order too, and no row holds two notes that were struck together.
pub proof fn law_a_row_moves_on(notes: Seq<GridNote>)
    requires
        by_start(notes),
        forall|i: int| 0 <= i < notes.len() ==> (#[trigger] notes[i]).dur >= 1,
    ensures
        forall|k: int| 0 <= k < voices_of(notes).len() ==> moves_on(#[trigger] voices_of(notes)[k]),
{
    lemma_rows_move_on(notes);
}

/// How many of the first `k` rows end with a note of which a condition holds.
spec fn ending(voices: Seq<Seq<GridNote>>, p: spec_fn(GridNote) -> bool, k: int) -> int
    decreases k,
{
    if k <= 0 {
        0
    } else {
        ending(voices, p, k - 1) + if voices[k - 1].len() > 0 && p(voices[k - 1].last()) {
            1int
        } else {
            0
        }
    }
}

proof fn lemma_ending_same(
    a: Seq<Seq<GridNote>>,
    b: Seq<Seq<GridNote>>,
    p: spec_fn(GridNote) -> bool,
    k: int,
)
    requires
        0 <= k <= a.len(),
        k <= b.len(),
        forall|i: int| 0 <= i < k ==> #[trigger] a[i] == b[i],
    ensures
        ending(a, p, k) == ending(b, p, k),
    decreases k,
{
    if k > 0 {
        lemma_ending_same(a, b, p, k - 1);
        assert(a[k - 1] == b[k - 1]);
    }
}

proof fn lemma_ending_bounds(voices: Seq<Seq<GridNote>>, p: spec_fn(GridNote) -> bool, k: int)
    requires
        0 <= k,
    ensures
        0 <= ending(voices, p, k) <= k,
    decreases k,
{
    if k > 0 {
        lemma_ending_bounds(voices, p, k - 1);
    }
}

/// Where every row ends so, all of them are counted.
proof fn lemma_ending_all(voices: Seq<Seq<GridNote>>, p: spec_fn(GridNote) -> bool, k: int)
    requires
        0 <= k <= voices.len(),
        forall|i: int|
            0 <= i < k ==> (#[trigger] voices[i]).len() > 0 && p(voices[i].last()),
    ensures
        ending(voices, p, k) == k,
    decreases k,
{
    if k > 0 {
        lemma_ending_all(voices, p, k - 1);
        assert(voices[k - 1].len() > 0);
    }
}

/// A note at the end of a row takes the place of the one that ended it.
proof fn lemma_ending_update(
    voices: Seq<Seq<GridNote>>,
    p: spec_fn(GridNote) -> bool,
    at: int,
    n: GridNote,
    k: int,
)
    requires
        0 <= at < k <= voices.len(),
    ensures
        ending(voices.update(at, voices[at].push(n)), p, k) == ending(voices, p, k) + (if p(n) {
            1int
        } else {
            0
        }) - (if voices[at].len() > 0 && p(voices[at].last()) {
            1int
        } else {
            0
        }),
    decreases k,
{
    let after = voices.update(at, voices[at].push(n));
    if at == k - 1 {
        lemma_ending_same(after, voices, p, k - 1);
        assert(after[at].last() == n);
    } else {
        lemma_ending_update(voices, p, at, n, k - 1);
        assert(after[k - 1] == voices[k - 1]);
    }
}

/// What one more note makes of the count.
proof fn lemma_ending_with_note(
    before: Seq<Seq<GridNote>>,
    p: spec_fn(GridNote) -> bool,
    n: GridNote,
)
    ensures
        ({
            let at = row_for(before, n, 0);
            let after = with_note(before, n);
            ending(after, p, after.len() as int) == ending(before, p, before.len() as int) + (if p(
                n,
            ) {
                1int
            } else {
                0
            }) - (if at < before.len() && before[at].len() > 0 && p(before[at].last()) {
                1int
            } else {
                0
            })
        }),
{
    lemma_row_for(before, n, 0);
    let at = row_for(before, n, 0);
    let after = with_note(before, n);
    if at < before.len() {
        lemma_ending_update(before, p, at, n, before.len() as int);
    } else {
        lemma_ending_same(after, before, p, before.len() as int);
        assert(after[before.len() as int] == seq![n]);
    }
}

/// No more rows end with a note of some kind than there are notes of it.
proof fn lemma_ending_is_no_more(notes: Seq<GridNote>, p: spec_fn(GridNote) -> bool)
    ensures
        ending(voices_of(notes), p, voices_of(notes).len() as int) <= how_many(notes, p),
    decreases notes.len(),
{
    if notes.len() > 0 {
        lemma_ending_is_no_more(notes.drop_last(), p);
        lemma_ending_with_note(voices_of(notes.drop_last()), p, notes.last());
    }
}

/// Where no row can take a note, none of them ends with one that it can follow.
proof fn lemma_no_row_takes(voices: Seq<Seq<GridNote>>, n: GridNote, k: int)
    requires
        0 <= k <= voices.len(),
        row_for(voices, n, k) == voices.len(),
    ensures
        forall|i: int|
            k <= i < voices.len() ==> (#[trigger] voices[i]).len() > 0 && !shares(
                voices[i].last(),
                n,
            ),
    decreases voices.len() - k,
{
    if k < voices.len() {
        lemma_row_for(voices, n, k + 1);
        lemma_no_row_takes(voices, n, k + 1);
    }
}

/// How many notes sound at a moment.
pub open spec fn sounding_at(notes: Seq<GridNote>, t: int) -> int {
    how_many(notes, |x: GridNote| x.at <= t < x.until())
}

/// How many notes cannot be in one row with the `m`-th, itself and those in front
/// of it counted.
pub open spec fn clashing_with(notes: Seq<GridNote>, m: int) -> int {
    1 + how_many(notes.take(m), |x: GridNote| !shares(x, notes[m]))
}

/// The notes that cannot be in one row with a note all sound when it starts.
proof fn lemma_clashing_notes_sound(notes: Seq<GridNote>, m: int)
    requires
        by_start(notes),
        0 <= m < notes.len(),
        notes[m].dur >= 1,
    ensures
        clashing_with(notes, m) <= sounding_at(notes, notes[m].at as int),
{
    let n = notes[m];
    let front = notes.take(m);
    let clashes = |x: GridNote| !shares(x, n);
    let sounds = |x: GridNote| x.at <= n.at < x.until();
    assert forall|i: int| 0 <= i < front.len() && clashes(#[trigger] front[i]) implies sounds(
        front[i],
    ) by {
        assert(front[i] == notes[i]);
    }
    lemma_how_many_wider(front, clashes, sounds);
    let upto = notes.take(m + 1);
    assert(upto.drop_last() =~= front);
    assert(upto.last() == n);
    assert(sounds(n));
    lemma_how_many_grows(notes, sounds, m + 1);
}

/// A take needs no more rows than its deepest chord has notes: there is a note at
/// whose start at least as many notes sound, and cannot be in one row with it, as
/// there are rows.
pub proof fn law_no_more_rows_than_the_deepest_chord(notes: Seq<GridNote>)
    requires
        notes.len() > 0,
        by_start(notes),
        forall|i: int| 0 <= i < notes.len() ==> (#[trigger] notes[i]).dur >= 1,
    ensures
        exists|m: int|
            0 <= m < notes.len() && voices_of(notes).len() <= #[trigger] clashing_with(notes, m)
                <= sounding_at(notes, notes[m].at as int),
    decreases notes.len(),
{
    let init = notes.drop_last();
    let n = notes.last();
    let before = voices_of(init);
    let at = row_for(before, n, 0);
    lemma_row_for(before, n, 0);
    if at == before.len() {
        let m = notes.len() - 1;
        assert(notes[m] == n);
        let clashes = |x: GridNote| !shares(x, n);
        lemma_no_row_takes(before, n, 0);
        lemma_ending_all(before, clashes, before.len() as int);
        lemma_ending_is_no_more(init, clashes);
        assert(notes.take(m) =~= init);
        assert(clashing_with(notes, m) == 1 + how_many(init, clashes));
        lemma_clashing_notes_sound(notes, m);
    } else {
        assert(init.len() > 0);
        lemma_start_of_a_take(notes);
        law_no_more_rows_than_the_deepest_chord(init);
        let m = choose|m: int|
            0 <= m < init.len() && voices_of(init).len() <= #[trigger] clashing_with(init, m)
                <= sounding_at(init, init[m].at as int);
        assert(init[m] == notes[m]);
        assert(init.take(m) =~= notes.take(m));
        assert(clashing_with(notes, m) == clashing_with(init, m));
        lemma_clashing_notes_sound(notes, m);
    }
}

/// The start of a take is a take too.
proof fn lemma_start_of_a_take(notes: Seq<GridNote>)
    requires
        notes.len() > 0,
        by_start(notes),
        forall|i: int| 0 <= i < notes.len() ==> (#[trigger] notes[i]).dur >= 1,
    ensures
        by_start(notes.drop_last()),
        forall|i: int|
            0 <= i < notes.drop_last().len() ==> (#[trigger] notes.drop_last()[i]).dur >= 1,
{
    let init = notes.drop_last();
    assert forall|i: int, j: int| 0 <= i <= j < init.len() implies (#[trigger] init[i]).at <= (
    #[trigger] init[j]).at by {
        assert(init[i] == notes[i] && init[j] == notes[j]);
    }
    assert forall|i: int| 0 <= i < init.len() implies (#[trigger] init[i]).dur >= 1 by {
        assert(init[i] == notes[i]);
    }
}

/// How many notes are struck together at a time.
pub open spec fn chord_at(notes: Seq<GridNote>, t: int) -> int {
    how_many(notes, |x: GridNote| x.at == t)
}

/// The notes that start with the last one or later each end a row of their own.
proof fn lemma_chord_ends_rows(notes: Seq<GridNote>, t: int)
    requires
        by_start(notes),
        forall|i: int| 0 <= i < notes.len() ==> (#[trigger] notes[i]).dur >= 1,
        notes.len() > 0 ==> notes.last().at <= t,
    ensures
        chord_at(notes, t) <= ending(
            voices_of(notes),
            |x: GridNote| x.at == t,
            voices_of(notes).len() as int,
        ),
    decreases notes.len(),
{
    let p = |x: GridNote| x.at == t;
    if notes.len() > 0 {
        let init = notes.drop_last();
        let n = notes.last();
        lemma_start_of_a_take(notes);
        if init.len() > 0 {
            assert(notes[notes.len() - 2].at <= notes[notes.len() - 1].at);
        }
        lemma_chord_ends_rows(init, t);
        let before = voices_of(init);
        lemma_ending_with_note(before, p, n);
        lemma_row_for(before, n, 0);
        if n.at == t {
            let at = row_for(before, n, 0);
            if at < before.len() && before[at].len() > 0 && p(before[at].last()) {
                lemma_rows_move_on(init);
                assert(init.len() > 0) by {
                    if init.len() == 0 {
                        assert(before.len() == 0);
                    }
                }
                let last = before[at].last();
                assert(last == before[at][before[at].len() - 1]);
                assert(last.dur >= 1);
                assert(shares(last, n));
                assert(false);
            }
        } else {
            lemma_none_later(init, t);
            assert(chord_at(notes, t) == 0);
            lemma_ending_bounds(voices_of(notes), p, voices_of(notes).len() as int);
        }
    }
}

/// Nothing of a take starts behind its last note.
proof fn lemma_none_later(notes: Seq<GridNote>, t: int)
    requires
        forall|i: int| 0 <= i < notes.len() ==> (#[trigger] notes[i]).at < t,
    ensures
        chord_at(notes, t) == 0,
{
    let p = |x: GridNote| x.at == t;
    lemma_how_many_bounds(notes, p);
    if how_many(notes, p) > 0 {
        let i = choose|i: int| 0 <= i < notes.len() && p(#[trigger] notes[i]);
        assert(notes[i].at < t);
    }
}

/// A chord takes a row for each of its notes: a take has at least as many rows as
/// notes are struck together anywhere in it.
pub proof fn law_a_chord_takes_a_row_for_each_note(notes: Seq<GridNote>, t: int)
    requires
        by_start(notes),
        forall|i: int| 0 <= i < notes.len() ==> (#[trigger] notes[i]).dur >= 1,
    ensures
        chord_at(notes, t) <= voices_of(notes).len(),
    decreases notes.len(),
{
    if notes.len() > 0 {
        if notes.last().at <= t {
            lemma_chord_ends_rows(notes, t);
            lemma_ending_bounds(
                voices_of(notes),
                |x: GridNote| x.at == t,
                voices_of(notes).len() as int,
            );
        } else {
            lemma_start_of_a_take(notes);
            law_a_chord_takes_a_row_for_each_note(notes.drop_last(), t);
            lemma_row_for(voices_of(notes.drop_last()), notes.last(), 0);
        }
    }
}

/// Split a take into as many rows as it needs: a note joins the first row that
/// can still take it, and starts a new one when none can.
pub fn split_voices(notes: &[GridNote]) -> (r: Vec<Vec<GridNote>>)
    requires
        forall|i: int| 0 <= i < notes@.len() ==> (#[trigger] notes@[i]).counts(),
    ensures
        rows_view(r@) == voices_of(notes@),
{
    let mut voices: Vec<Vec<GridNote>> = Vec::new();
    let mut i: usize = 0;
    assert(rows_view(voices@) =~= voices_of(notes@.take(0)));
    while i < notes.len()
        invariant
            i <= notes.len(),
            forall|i: int| 0 <= i < notes@.len() ==> (#[trigger] notes@[i]).counts(),
            rows_view(voices@) == voices_of(notes@.take(i as int)),
            forall|k: int, j: int|
                0 <= k < voices@.len() && 0 <= j < voices@[k]@.len() ==> (
                #[trigger] voices@[k]@[j]).counts(),
        decreases notes.len() - i,
    {
        let note = notes[i];
        let ghost before = rows_view(voices@);
        let mut k: usize = 0;
        while k < voices.len() && !takes(&voices[k], note)
            invariant
                k <= voices.len(),
                note.counts(),
                before == rows_view(voices@),
                forall|k: int, j: int|
                    0 <= k < voices@.len() && 0 <= j < voices@[k]@.len() ==> (
                    #[trigger] voices@[k]@[j]).counts(),
                row_for(before, note, 0) == row_for(before, note, k as int),
            decreases voices.len() - k,
        {
            assert(before[k as int] == voices@[k as int]@);
            k += 1;
        }
        proof {
            if k < voices@.len() {
                assert(before[k as int] == voices@[k as int]@);
            }
            assert(row_for(before, note, 0) == k);
            assert(notes@.take(i + 1).drop_last() =~= notes@.take(i as int));
            assert(notes@.take(i + 1).last() == note);
        }
        let ghost was = voices@;
        if k < voices.len() {
            voices[k].push(note);
            assert(rows_view(voices@) =~= before.update(k as int, before[k as int].push(note)));
        } else {
            let mut fresh: Vec<GridNote> = Vec::new();
            fresh.push(note);
            voices.push(fresh);
            assert(fresh@ =~= seq![note]);
            assert(rows_view(voices@) =~= before.push(seq![note]));
        }
        proof {
            assert forall|a: int, j: int|
                0 <= a < voices@.len() && 0 <= j < voices@[a]@.len() implies (
            #[trigger] voices@[a]@[j]).counts() by {
                if a < was.len() && j < was[a]@.len() {
                    assert(voices@[a]@[j] == was[a]@[j]);
                } else {
                    assert(voices@[a]@[j] == note);
                }
            }
        }
        i += 1;
    }
    assert(notes@.take(i as int) =~= notes@);
    voices
}

/// Whether a row can still take a note.
fn takes(voice: &Vec<GridNote>, note: GridNote) -> (r: bool)
    requires
        note.counts(),
        forall|j: int| 0 <= j < voice@.len() ==> (#[trigger] voice@[j]).counts(),
    ensures
        r == (voice@.len() == 0 || shares(voice@.last(), note)),
{
    let n: usize = voice.len();
    n == 0 || shares_a_row(voice[n - 1], note)
}

// ── a row's worth of a take ─────────────────────────────────────────────────

/// The plain length nearest to `units`.
pub open spec fn nearest(units: int) -> Duration {
    choose|d: Duration| is_nearest(d, units)
}

/// Only one plain length is nearest.
pub proof fn law_the_nearest_length_is_one(d: Duration, units: int)
    requires
        is_nearest(d, units),
    ensures
        d == nearest(units),
{
    let e = nearest(units);
    assert(is_nearest(e, units));
    assert(is_plain(d) && is_plain(e));
    law_a_plain_length_is_said_one_way(d, e);
}

/// How long it is until the next note of a row starts, if there is one.
pub open spec fn room_at(notes: Seq<GridNote>, i: int) -> Option<int> {
    if i + 1 < notes.len() {
        Some(notes[i + 1].at - notes[i].at)
    } else {
        None
    }
}

/// The length a note gets: the nearest one, cut back to the room it has.
pub open spec fn fitted(dur: i64, room: Option<int>) -> Duration {
    let d = nearest(dur as int);
    match room {
        Some(room) if d.span() > room => longest_fit(room),
        _ => d,
    }
}

/// The silence behind a note.
pub open spec fn gap_behind(d: Duration, room: Option<int>) -> int {
    match room {
        Some(room) if room > d.span() => room - d.span(),
        _ => 0,
    }
}

/// A frame that plays nothing and only carries silence.
pub open spec fn filler_frame(id: int, pitch: u8, space: Duration) -> Item {
    Item { id: id as u64, pitch, start: ZERO, dur: zero_length(), space }
}

/// Frames that carry a silence, with ids from `id` on.
pub open spec fn filler_frames(id: int, pitch: u8, terms: Seq<Duration>) -> Seq<Item> {
    Seq::new(terms.len(), |k: int| filler_frame(id + k, pitch, terms[k]))
}

/// What a silence puts on the frame before it.
pub open spec fn first_term(terms: Seq<Duration>) -> Duration {
    if terms.len() == 0 {
        zero_length()
    } else {
        terms[0]
    }
}

/// What a silence leaves for frames of its own.
pub open spec fn other_terms(terms: Seq<Duration>) -> Seq<Duration> {
    if terms.len() == 0 {
        terms
    } else {
        terms.skip(1)
    }
}

/// The frames of one note: the note with as much of the silence behind it as one
/// length holds, then the rest of that silence.
pub open spec fn note_frames(n: GridNote, room: Option<int>, id: int) -> Seq<Item> {
    let dur = fitted(n.dur, room);
    let terms = split_terms(gap_behind(dur, room));
    seq![Item { id: id as u64, pitch: n.pitch, start: ZERO, dur, space: first_term(terms) }]
        + filler_frames(id + 1, n.pitch, other_terms(terms))
}

/// The frames of the first `n` notes of a row, with ids from `id` on.
pub open spec fn voice_frames(notes: Seq<GridNote>, n: int, id: int) -> Seq<Item>
    decreases n,
{
    if notes.len() == 0 {
        Seq::empty()
    } else if n <= 0 {
        filler_frames(id, notes[0].pitch, other_terms(split_terms(notes[0].at as int)))
    } else {
        let before = voice_frames(notes, n - 1, id);
        before + note_frames(notes[n - 1], room_at(notes, n - 1), id + before.len())
    }
}

/// The space that leads a row's first note.
pub open spec fn voice_lead(notes: Seq<GridNote>) -> Duration {
    if notes.len() == 0 {
        zero_length()
    } else {
        first_term(split_terms(notes[0].at as int))
    }
}

/// How long after the `i`-th note of a row the one behind it starts.
pub open spec fn step_behind(notes: Seq<GridNote>, i: int) -> int {
    notes[i + 1].at - notes[i].at
}

/// Whether the rooms of a row can be counted.
pub open spec fn rooms_count(notes: Seq<GridNote>) -> bool {
    forall|i: int|
        0 <= i < notes.len() - 1 ==> i64::MIN <= #[trigger] step_behind(notes, i) <= i64::MAX
}

proof fn lemma_frame_count(notes: Seq<GridNote>, n: int, id: int)
    requires
        0 <= n <= notes.len(),
    ensures
        voice_frames(notes, n, id).len() <= MAX_SPLIT_TERMS * (n + 1),
    decreases n,
{
    if notes.len() > 0 && n > 0 {
        lemma_frame_count(notes, n - 1, id);
    }
}

/// One row's worth of a take: the lead space, then the frames.
///
/// Every note is followed by the silence up to the next one, exactly. Where that
/// silence is not one length it continues on frames that play nothing.
pub fn voice_items(notes: &[GridNote], next_item_id: &mut u64) -> (r: (Duration, Vec<Item>))
    requires
        rooms_count(notes@),
        *old(next_item_id) + MAX_SPLIT_TERMS * (notes@.len() + 1) <= u64::MAX,
    ensures
        r.0 == voice_lead(notes@),
        r.1@ == voice_frames(notes@, notes@.len() as int, *old(next_item_id) as int),
        *final(next_item_id) == *old(next_item_id) + r.1@.len(),
{
    let mut items: Vec<Item> = Vec::new();
    if notes.len() == 0 {
        assert(items@ =~= voice_frames(notes@, 0, *old(next_item_id) as int));
        return (Duration::new(0, Fraction::Zero), items);
    }
    let ghost id0 = *next_item_id as int;
    let first = notes[0];
    let terms = split_units(first.at);
    let lead = space_of(&terms);
    push_fillers(&mut items, next_item_id, first.pitch, &terms);
    assert(items@ =~= voice_frames(notes@, 0, id0));
    let mut i: usize = 0;
    while i < notes.len()
        invariant
            i <= notes.len(),
            notes@.len() > 0,
            rooms_count(notes@),
            id0 + MAX_SPLIT_TERMS * (notes@.len() + 1) <= u64::MAX,
            items@ == voice_frames(notes@, i as int, id0),
            *next_item_id == id0 + items@.len(),
        decreases notes.len() - i,
    {
        let note = notes[i];
        proof {
            lemma_frame_count(notes@, i as int, id0);
            assert(MAX_SPLIT_TERMS * (i + 1) + MAX_SPLIT_TERMS <= MAX_SPLIT_TERMS * (notes@.len()
                + 1)) by (nonlinear_arith)
                requires
                    i + 1 <= notes@.len(),
                    MAX_SPLIT_TERMS >= 0,
            ;
        }
        let mut dur = nearest_duration(note.dur);
        proof {
            law_the_nearest_length_is_one(dur, note.dur as int);
        }
        let mut gap: i64 = 0;
        let ghost room = room_at(notes@, i as int);
        if i + 1 < notes.len() {
            assert(i64::MIN <= step_behind(notes@, i as int) <= i64::MAX);
            let until: i64 = notes[i + 1].at - note.at;
            if dur.units() > until {
                dur = longest_within(until);
            }
            if until > dur.units() {
                gap = until - dur.units();
            }
        }
        assert(dur == fitted(note.dur, room));
        assert(gap == gap_behind(dur, room));
        let terms = split_units(gap);
        let space = space_of(&terms);
        let id: u64 = *next_item_id;
        *next_item_id = id + 1;
        let ghost before = items@;
        items.push(Item { id, pitch: note.pitch, start: ZERO, dur, space });
        push_fillers(&mut items, next_item_id, note.pitch, &terms);
        i += 1;
        assert(items@ =~= before + note_frames(note, room, id0 + before.len()));
    }
    (lead, items)
}

/// What a silence puts on the frame before it.
fn space_of(terms: &Vec<Duration>) -> (r: Duration)
    ensures
        r == first_term(terms@),
{
    if terms.len() == 0 {
        Duration::new(0, Fraction::Zero)
    } else {
        terms[0]
    }
}

/// The next item id in a row, consumed.
pub fn take_id(next_item_id: &mut u64) -> (r: u64)
    requires
        *old(next_item_id) < u64::MAX,
    ensures
        r == *old(next_item_id),
        *final(next_item_id) == *old(next_item_id) + 1,
{
    let id: u64 = *next_item_id;
    *next_item_id = id + 1;
    id
}

/// A frame that plays nothing and only carries silence.
fn filler(next_item_id: &mut u64, pitch: u8, space: Duration) -> (r: Item)
    requires
        *old(next_item_id) < u64::MAX,
    ensures
        r == filler_frame(*old(next_item_id) as int, pitch, space),
        *final(next_item_id) == *old(next_item_id) + 1,
{
    Item {
        id: take_id(next_item_id),
        pitch,
        start: ZERO,
        dur: Duration::new(0, Fraction::Zero),
        space,
    }
}

/// Put what a silence leaves for frames of its own behind a chain.
fn push_fillers(items: &mut Vec<Item>, next_item_id: &mut u64, pitch: u8, terms: &Vec<Duration>)
    requires
        *old(next_item_id) + terms@.len() <= u64::MAX,
    ensures
        final(items)@ == old(items)@ + filler_frames(
            *old(next_item_id) as int,
            pitch,
            other_terms(terms@),
        ),
        *final(next_item_id) == *old(next_item_id) + other_terms(terms@).len(),
{
    let ghost was = items@;
    let ghost id0 = *next_item_id as int;
    let ghost rest = other_terms(terms@);
    let mut k: usize = 1;
    assert(items@ =~= was + filler_frames(id0, pitch, rest.take(0)));
    while k < terms.len()
        invariant
            1 <= k,
            k <= terms.len() || k == 1,
            rest == other_terms(terms@),
            id0 + terms@.len() <= u64::MAX,
            *next_item_id == id0 + (k - 1),
            items@ == was + filler_frames(id0, pitch, rest.take(k - 1)),
        decreases terms.len() - k,
    {
        items.push(filler(next_item_id, pitch, terms[k]));
        k += 1;
        assert(items@ =~= was + filler_frames(id0, pitch, rest.take(k - 1)));
    }
    assert(rest.take(k - 1) =~= rest);
}

/// Whether a row's run-up and silences can all be split exactly, which is what
/// it takes for its notes to land where they were played.
pub open spec fn splits_exactly(notes: Seq<GridNote>) -> bool {
    &&& notes.len() > 0 ==> plain_terms(notes[0].at as int).len() <= MAX_SPLIT_TERMS
    &&& forall|i: int|
        0 <= i < notes.len() ==> plain_terms(
            gap_behind(
                fitted(notes[i].dur, #[trigger] room_at(notes, i)),
                room_at(notes, i),
            ),
        ).len() <= MAX_SPLIT_TERMS
}

/// A row's worth of a take, as it is played back.
pub open spec fn as_played(notes: Seq<GridNote>, n: int) -> Seq<PlannedNote> {
    Seq::new(
        n as nat,
        |i: int|
            PlannedNote {
                at: notes[i].at,
                dur: fitted(notes[i].dur, room_at(notes, i)).span() as i64,
                pitch: notes[i].pitch,
                start: ZERO,
            },
    )
}

proof fn lemma_fillers(lead: int, a: Seq<Item>, id: int, pitch: u8, terms: Seq<Duration>)
    ensures
        items_span(filler_frames(id, pitch, terms)) == total_span(terms),
        planned(lead, a + filler_frames(id, pitch, terms)) == planned(lead, a),
    decreases terms.len(),
{
    let f = filler_frames(id, pitch, terms);
    if terms.len() == 0 {
        assert(a + f =~= a);
    } else {
        let init = terms.drop_last();
        let g = filler_frames(id, pitch, init);
        lemma_fillers(lead, a, id, pitch, init);
        assert(f.drop_last() =~= g);
        assert((a + f).drop_last() =~= a + g);
        lemma_plain_span(zero_length());
        assert(f.last().dur == zero_length());
        assert((a + f).last() == f.last());
    }
}

proof fn lemma_terms_span(terms: Seq<Duration>)
    ensures
        total_span(terms) == first_term(terms).span() + total_span(other_terms(terms)),
{
    if terms.len() > 0 {
        assert(terms =~= seq![terms[0]] + terms.skip(1));
        lemma_total_span_add(seq![terms[0]], terms.skip(1));
        lemma_total_span_one(terms[0]);
    } else {
        lemma_plain_span(zero_length());
    }
}

/// What is fitted to a note sounds, and stays within its room.
proof fn lemma_fitted(dur: i64, room: Option<int>)
    requires
        dur >= 1,
        room matches Some(r) ==> r >= 1,
    ensures
        fitted(dur, room).span() >= 1,
        is_plain(fitted(dur, room)),
        room matches Some(r) ==> fitted(dur, room).span() <= r,
{
    lemma_nearest_exists(dur as int);
    let d = nearest(dur as int);
    assert(is_nearest(d, dur as int));
    lemma_plain_span(d);
    let one = plain(0, Fraction::TwoHundredFiftySixth);
    assert(is_plain(one));
    lemma_plain_span(one);
    assert(d.span() >= 1);
    if let Some(r) = room {
        if d.span() > r {
            lemma_plain_chip(r);
        }
    }
}

proof fn lemma_nearest_exists(units: int)
    requires
        units >= 0,
    ensures
        exists|d: Duration| is_nearest(d, units),
{
    lemma_nearest_among(units, LONGEST_PLAIN + 1);
}

/// Among the plain lengths shorter than `n` units there is a nearest one.
proof fn lemma_nearest_among(units: int, n: int)
    requires
        n >= 1,
    ensures
        exists|d: Duration|
            is_plain(d) && d.span() < n && #[trigger] nearest_below(d, units, n),
        n > LONGEST_PLAIN ==> exists|d: Duration| is_nearest(d, units),
    decreases n,
{
    let zero = zero_length();
    lemma_plain_span(zero);
    if n == 1 {
        assert(nearest_below(zero, units, n)) by {
            assert forall|e: Duration| #[trigger] is_plain(e) && e.span() < n implies apart(
                zero.span(),
                units,
            ) < apart(e.span(), units) || (apart(zero.span(), units) == apart(e.span(), units)
                && zero.span() <= e.span()) by {
                lemma_plain_span(e);
            }
        }
    } else {
        lemma_nearest_among(units, n - 1);
        let d = choose|d: Duration|
            is_plain(d) && d.span() < n - 1 && #[trigger] nearest_below(d, units, n - 1);
        if exists|e: Duration| #[trigger] is_plain(e) && e.span() == n - 1 {
            let e = choose|e: Duration| #[trigger] is_plain(e) && e.span() == n - 1;
            if apart(e.span(), units) < apart(d.span(), units) {
                assert(nearest_below(e, units, n));
            } else {
                assert(nearest_below(d, units, n));
            }
        } else {
            assert(nearest_below(d, units, n));
        }
    }
    if n > LONGEST_PLAIN {
        let d = choose|d: Duration|
            is_plain(d) && d.span() < n && #[trigger] nearest_below(d, units, n);
        assert forall|e: Duration| #[trigger] is_plain(e) implies apart(d.span(), units) < apart(
            e.span(),
            units,
        ) || (apart(d.span(), units) == apart(e.span(), units) && d.span() <= e.span()) by {
            lemma_plain_span(e);
        }
        assert(is_nearest(d, units));
    }
}

spec fn nearest_below(d: Duration, units: int, n: int) -> bool {
    forall|e: Duration| #[trigger]
        is_plain(e) && e.span() < n ==> apart(d.span(), units) < apart(e.span(), units) || (apart(
            d.span(),
            units,
        ) == apart(e.span(), units) && d.span() <= e.span())
}

proof fn lemma_positions(notes: Seq<GridNote>, n: int, id: int)
    requires
        notes.len() > 0,
        0 <= n <= notes.len(),
        notes[0].at >= 0,
        moves_on(notes),
        forall|i: int| 0 <= i < notes.len() ==> (#[trigger] notes[i]).dur >= 1,
        splits_exactly(notes),
    ensures
        ({
            let lead = voice_lead(notes).span();
            let frames = voice_frames(notes, n, id);
            &&& planned(lead, frames) == as_played(notes, n)
            &&& n < notes.len() ==> lead + items_span(frames) == notes[n].at
        }),
    decreases n,
{
    let lead = voice_lead(notes).span();
    let frames = voice_frames(notes, n, id);
    if n == 0 {
        let terms = split_terms(notes[0].at as int);
        law_plain_terms_add_up_exactly(notes[0].at as int);
        lemma_terms_span(terms);
        lemma_fillers(lead, Seq::empty(), id, notes[0].pitch, other_terms(terms));
        assert(Seq::<Item>::empty() + frames =~= frames);
        assert(planned(lead, Seq::empty()) =~= as_played(notes, 0));
    } else {
        let i = n - 1;
        let note = notes[i];
        let room = room_at(notes, i);
        lemma_positions(notes, i, id);
        let before = voice_frames(notes, i, id);
        let start = id + before.len();
        if i + 1 < notes.len() {
            assert(notes[i].at < notes[i + 1].at);
        }
        lemma_fitted(note.dur, room);
        let dur = fitted(note.dur, room);
        let gap = gap_behind(dur, room);
        let terms = split_terms(gap);
        law_plain_terms_add_up_exactly(gap);
        lemma_terms_span(terms);
        let item = Item {
            id: start as u64,
            pitch: note.pitch,
            start: ZERO,
            dur,
            space: first_term(terms),
        };
        let fill = filler_frames(start + 1, note.pitch, other_terms(terms));
        assert(note_frames(note, room, start) == seq![item] + fill);
        assert(frames =~= before.push(item) + fill);
        lemma_fillers(lead, before.push(item), start + 1, note.pitch, other_terms(terms));
        lemma_items_span_add(before.push(item), fill);
        lemma_items_span_push(before, item);
        assert(before.push(item).drop_last() =~= before);
        assert(planned(lead, frames) =~= as_played(notes, n));
    }
}

/// Whether a row played back is the take it came from: every note where it was
/// rounded to, sounding, and none running into the next.
pub open spec fn plays_back(back: Seq<PlannedNote>, notes: Seq<GridNote>) -> bool {
    &&& back.len() == notes.len()
    &&& forall|i: int| 0 <= i < notes.len() ==> #[trigger] note_plays_back(back, notes, i)
}

/// Whether one note of a row played back is the one it came from.
pub open spec fn note_plays_back(back: Seq<PlannedNote>, notes: Seq<GridNote>, i: int) -> bool {
    &&& back[i].at == notes[i].at
    &&& back[i].pitch == notes[i].pitch
    &&& back[i].dur >= 1
    &&& i + 1 < notes.len() ==> back[i].at + back[i].dur <= notes[i + 1].at
}

/// The frames a row of a take ends up with put every note back exactly where it
/// was rounded to, however the silences had to be split to get there, and no
/// note runs into the one after it.
pub proof fn law_a_recorded_row_puts_every_note_where_it_was_played(notes: Seq<GridNote>, id: int)
    requires
        notes.len() > 0,
        notes[0].at >= 0,
        moves_on(notes),
        forall|i: int| 0 <= i < notes.len() ==> (#[trigger] notes[i]).dur >= 1,
        splits_exactly(notes),
    ensures
        plays_back(
            planned(voice_lead(notes).span(), voice_frames(notes, notes.len() as int, id)),
            notes,
        ),
{
    lemma_positions(notes, notes.len() as int, id);
    let back = as_played(notes, notes.len() as int);
    assert forall|i: int| 0 <= i < notes.len() implies #[trigger] note_plays_back(
        back,
        notes,
        i,
    ) by {
        lemma_note_plays_back(notes, i);
    }
}

proof fn lemma_note_plays_back(notes: Seq<GridNote>, i: int)
    requires
        0 <= i < notes.len(),
        moves_on(notes),
        notes[i].dur >= 1,
    ensures
        note_plays_back(as_played(notes, notes.len() as int), notes, i),
{
    let room = room_at(notes, i);
    assert(room matches Some(r) ==> r >= 1);
    lemma_fitted(notes[i].dur, room);
    lemma_plain_span(fitted(notes[i].dur, room));
}

/// Every note of a row comes from the take.
pub proof fn lemma_row_notes(notes: Seq<GridNote>, k: int, i: int)
    requires
        0 <= k < voices_of(notes).len(),
        0 <= i < voices_of(notes)[k].len(),
    ensures
        notes.contains(voices_of(notes)[k][i]),
    decreases notes.len(),
{
    let init = notes.drop_last();
    let n = notes.last();
    let before = voices_of(init);
    let x = voices_of(notes)[k][i];
    lemma_row_for(before, n, 0);
    assert(n == notes[notes.len() - 1]);
    if k < before.len() && i < before[k].len() {
        assert(x == before[k][i]);
        lemma_row_notes(init, k, i);
        let j = choose|j: int| 0 <= j < init.len() && init[j] == x;
        assert(notes[j] == x);
    }
}

/// A take, rounded and split into rows, plays back: every row puts each of its
/// notes where it was rounded to, as long as its silences can be split exactly.
pub proof fn law_a_take_plays_back(take: Seq<RecordedNote>, grid: i64, k: int, id: int)
    requires
        ({
            let q = ordered(take.map_values(|n: RecordedNote| quantized(n, step_of(grid))));
            &&& 0 <= k < voices_of(q).len()
            &&& splits_exactly(voices_of(q)[k])
        }),
    ensures
        ({
            let q = ordered(take.map_values(|n: RecordedNote| quantized(n, step_of(grid))));
            let v = voices_of(q)[k];
            plays_back(planned(voice_lead(v).span(), voice_frames(v, v.len() as int, id)), v)
        }),
{
    broadcast use vstd::seq_lib::group_to_multiset_ensures;

    let m = take.map_values(|n: RecordedNote| quantized(n, step_of(grid)));
    let q = ordered(m);
    law_ordering_keeps_everything(m);
    assert forall|x: GridNote| #[trigger] q.contains(x) implies x.dur >= 1 && x.at >= 0 by {
        assert(q.to_multiset().count(x) > 0);
        assert(m.contains(x));
        let j = choose|j: int| 0 <= j < m.len() && m[j] == x;
        lemma_quantized(take[j], step_of(grid));
    }
    assert forall|i: int| 0 <= i < q.len() implies (#[trigger] q[i]).dur >= 1 by {
        assert(q.contains(q[i]));
    }
    assert(by_start(q)) by {
        assert forall|i: int, j: int| 0 <= i <= j < q.len() implies (#[trigger] q[i]).at <= (
        #[trigger] q[j]).at by {
            assert(rank_le(q[i].rank(), q[j].rank()));
        }
    }
    law_a_row_moves_on(q);
    law_a_row_is_a_line(q);
    let v = voices_of(q)[k];
    assert forall|i: int| 0 <= i < v.len() implies (#[trigger] v[i]).dur >= 1 && v[i].at >= 0 by {
        lemma_row_notes(q, k, i);
        assert(q.contains(v[i]));
    }
    law_a_recorded_row_puts_every_note_where_it_was_played(v, id);
}

proof fn lemma_quantized(n: RecordedNote, grid: int)
    requires
        1 <= grid <= i64::MAX,
    ensures
        quantized(n, grid).dur >= 1,
        quantized(n, grid).at >= 0,
{
    lemma_snapped_fits(n.at, grid);
    lemma_snapped_fits(n.dur, grid);
}

proof fn lemma_snapped_fits(t: i64, grid: int)
    requires
        1 <= grid <= i64::MAX,
    ensures
        i64::MIN <= snapped(t as int, grid) <= i64::MAX,
{
    law_rounding_is_off_by_half_a_step_at_most(t as int, grid);
    let x = snapped(t as int, grid);
    assert(2 * apart(x * 65_536, t as int) <= grid * 65_536);
}

/// A take makes no more rows than it has notes.
pub proof fn lemma_voice_count(notes: Seq<GridNote>)
    ensures
        voices_of(notes).len() <= notes.len(),
    decreases notes.len(),
{
    if notes.len() > 0 {
        lemma_voice_count(notes.drop_last());
        lemma_row_for(voices_of(notes.drop_last()), notes.last(), 0);
    }
}

/// No row holds more notes than the take.
pub proof fn lemma_row_len(notes: Seq<GridNote>, k: int)
    requires
        0 <= k < voices_of(notes).len(),
    ensures
        voices_of(notes)[k].len() <= notes.len(),
    decreases notes.len(),
{
    let before = voices_of(notes.drop_last());
    lemma_row_for(before, notes.last(), 0);
    if k < before.len() {
        lemma_row_len(notes.drop_last(), k);
    }
}

/// The frames of a row of a take are numbered one after the other.
pub proof fn lemma_frame_ids(notes: Seq<GridNote>, n: int, id: int)
    requires
        0 <= n <= notes.len(),
        0 <= id,
        id + voice_frames(notes, n, id).len() <= u64::MAX,
    ensures
        forall|i: int|
            0 <= i < voice_frames(notes, n, id).len() ==> (#[trigger] voice_frames(
                notes,
                n,
                id,
            )[i]).id == id + i,
    decreases n,
{
    if notes.len() > 0 && n > 0 {
        let before = voice_frames(notes, n - 1, id);
        lemma_frame_ids(notes, n - 1, id);
        let all = voice_frames(notes, n, id);
        let mine = note_frames(notes[n - 1], room_at(notes, n - 1), id + before.len());
        assert forall|i: int| 0 <= i < all.len() implies (#[trigger] all[i]).id == id + i by {
            if i < before.len() {
                assert(all[i] == before[i]);
            } else {
                assert(all[i] == mine[i - before.len()]);
            }
        }
    }
}

/// The values that a take can be rounded onto halve from a whole note down.
pub proof fn law_roundings_halve(k: int)
    requires
        0 <= k < 8,
    ensures
        rounding_units(0) == 256,
        2 * rounding_units(k + 1) == rounding_units(k),
        rounding_units(4) == DEFAULT_ROUND_UNITS,
        ROUNDINGS == 9,
{
}

/// A time is rounded to a whole number of steps, the nearest there is, and away from
/// zero where two are as near.
pub proof fn law_rounding_lands_on_a_step(t: int, grid: int, other: int)
    requires
        grid >= 1,
    ensures
        snapped(t, grid) % grid == 0,
        apart(snapped(t, grid) * 65_536, t) <= apart(other * grid * 65_536, t),
        t >= 0 && apart(snapped(t, grid) * 65_536, t) == apart(other * grid * 65_536, t)
            ==> snapped(t, grid) >= other * grid,
{
    let g = grid * TICKS_PER_UNIT;
    let n = nearest_step(t, g);
    law_rounding_is_off_by_half_a_step_at_most(t, grid);
    assert((n * grid) % grid == 0) by {
        vstd::arithmetic::div_mod::lemma_mod_multiples_basic(n, grid);
    }
    assert(n * grid * 65_536 == n * g) by (nonlinear_arith)
        requires
            g == grid * 65_536,
    ;
    assert(other * grid * 65_536 == other * g) by (nonlinear_arith)
        requires
            g == grid * 65_536,
    ;
    if other != n {
        assert(apart(other * g, n * g) >= g) by (nonlinear_arith)
            requires
                other != n,
                g > 0,
                apart(other * g, n * g) == (if other * g < n * g {
                    n * g - other * g
                } else {
                    other * g - n * g
                }),
        ;
        if t >= 0 && other > n {
            let q = 2 * t + g;
            assert(n * (2 * g) <= q < (n + 1) * (2 * g)) by (nonlinear_arith)
                requires
                    n == q / (2 * g),
                    g > 0,
            ;
            assert((n + 1) * (2 * g) == 2 * (n * g) + 2 * g && n * (2 * g) == 2 * (n * g))
                by (nonlinear_arith);
            assert(other * g >= (n + 1) * g && (n + 1) * g == n * g + g) by (nonlinear_arith)
                requires
                    other >= n + 1,
                    g > 0,
            ;
        }
        if other < n {
            assert(other * grid <= n * grid) by (nonlinear_arith)
                requires
                    other < n,
                    grid > 0,
            ;
        }
    }
}

/// A note keeps its pitch when it is rounded, starts on the step nearest to its start,
/// not before the take, and lasts for the steps nearest to its length, one at least.
pub proof fn law_what_rounding_makes_of_a_note(n: RecordedNote, grid: i64)
    requires
        1 <= grid <= 0x4000_0000_0000_0000,
    ensures
        quantized(n, grid as int).pitch == n.pitch,
        n.at >= 0 ==> quantized(n, grid as int).at == snapped(n.at as int, grid as int),
        n.at < 0 ==> quantized(n, grid as int).at == 0,
        quantized(n, grid as int).dur >= grid,
        snapped(n.dur as int, grid as int) >= grid ==> quantized(n, grid as int).dur == snapped(
            n.dur as int,
            grid as int,
        ),
        snapped(n.dur as int, grid as int) < grid ==> quantized(n, grid as int).dur == grid,
        step_of(grid) == grid,
{
    let g = grid as int;
    law_rounding_is_off_by_half_a_step_at_most(n.at as int, g);
    law_rounding_is_off_by_half_a_step_at_most(n.dur as int, g);
    let a = snapped(n.at as int, g);
    let d = snapped(n.dur as int, g);
    assert(a <= 0x2000_8000_0000_0000 && d <= 0x2000_8000_0000_0000 && a >= -0x2000_8000_0000_0000
        && d >= -0x2000_8000_0000_0000) by {
        assert(2 * apart(a * 65_536, n.at as int) <= g * 65_536);
        assert(2 * apart(d * 65_536, n.dur as int) <= g * 65_536);
    }
    let step = g * TICKS_PER_UNIT;
    if n.at >= 0 {
        let q = 2 * n.at + step;
        assert(q / (2 * step) >= 0) by (nonlinear_arith)
            requires
                q >= 0,
                step > 0,
        ;
        assert(a >= 0) by (nonlinear_arith)
            requires
                a == (q / (2 * step)) * g,
                q / (2 * step) >= 0,
                g > 0,
        ;
    } else {
        let q = -2 * n.at + step;
        assert(q / (2 * step) >= 0) by (nonlinear_arith)
            requires
                q >= 0,
                step > 0,
        ;
        assert(a <= 0) by (nonlinear_arith)
            requires
                a == -(q / (2 * step)) * g,
                q / (2 * step) >= 0,
                g > 0,
        ;
    }
}

/// A note can stand behind another in a row where the other is over when it starts,
/// or where it starts later and ends later: then the other gives way.
pub proof fn law_what_can_share_a_row(last: GridNote, next: GridNote)
    ensures
        last.at + last.dur <= next.at ==> shares(last, next),
        last.at + last.dur > next.at && last.at == next.at ==> !shares(last, next),
        last.at + last.dur > next.at && last.at != next.at ==> (shares(last, next) <==> last.at
            + last.dur < next.at + next.dur),
{
}

/// One more note goes behind the first row that it can stand in, and changes no other
/// row; it starts a row of its own only where it can stand in none. `k` is the row.
pub proof fn law_a_note_goes_to_the_first_row_that_takes_it(
    notes: Seq<GridNote>,
    n: GridNote,
) -> (k: int)
    ensures
        ({
            let before = voices_of(notes);
            let after = voices_of(notes.push(n));
            &&& 0 <= k <= before.len()
            &&& forall|h: int|
                0 <= h < k ==> (#[trigger] before[h]).len() > 0 && !shares(before[h].last(), n)
            &&& k < before.len() ==> before[k].len() == 0 || shares(before[k].last(), n)
            &&& k < before.len() ==> after == before.update(k, before[k].push(n))
            &&& k == before.len() ==> after == before.push(seq![n])
        }),
{
    let before = voices_of(notes);
    assert(notes.push(n).drop_last() =~= notes);
    lemma_row_for(before, n, 0);
    let k = row_for(before, n, 0);
    lemma_rows_passed_over(before, n, 0);
    k
}

proof fn lemma_rows_passed_over(voices: Seq<Seq<GridNote>>, n: GridNote, k: int)
    requires
        0 <= k <= voices.len(),
    ensures
        forall|h: int|
            k <= h < row_for(voices, n, k) ==> (#[trigger] voices[h]).len() > 0 && !shares(
                voices[h].last(),
                n,
            ),
    decreases voices.len() - k,
{
    if k < voices.len() && !(voices[k].len() == 0 || shares(voices[k].last(), n)) {
        lemma_rows_passed_over(voices, n, k + 1);
    }
}

/// A row that was recorded plays every note where it was rounded to and on its pitch,
/// and for the plain length nearest to its own of those that are over before the next
/// note; the last of them has no next.
pub proof fn law_what_a_recorded_row_plays(notes: Seq<GridNote>, id: int, i: int)
    requires
        0 <= i < notes.len(),
        notes[0].at >= 0,
        moves_on(notes),
        forall|i: int| 0 <= i < notes.len() ==> (#[trigger] notes[i]).dur >= 1,
        splits_exactly(notes),
    ensures
        ({
            let back = planned(
                voice_lead(notes).span(),
                voice_frames(notes, notes.len() as int, id),
            );
            let d = back[i].dur as int;
            let fits = |e: Duration|
                is_plain(e) && (i + 1 < notes.len() ==> notes[i].at + e.span() <= notes[i + 1].at);
            &&& back.len() == notes.len()
            &&& back[i].at == notes[i].at && back[i].pitch == notes[i].pitch
            &&& exists|e: Duration| #[trigger] fits(e) && e.span() == d
            &&& forall|e: Duration| #[trigger]
                fits(e) ==> apart(d, notes[i].dur as int) <= apart(e.span(), notes[i].dur as int)
        }),
{
    lemma_positions(notes, notes.len() as int, id);
    let back = planned(voice_lead(notes).span(), voice_frames(notes, notes.len() as int, id));
    let fits = |e: Duration|
        is_plain(e) && (i + 1 < notes.len() ==> notes[i].at + e.span() <= notes[i + 1].at);
    let room = room_at(notes, i);
    let units = notes[i].dur as int;
    if i + 1 < notes.len() {
        assert(notes[i].at < notes[i + 1].at);
    }
    lemma_fitted(notes[i].dur, room);
    lemma_nearest_exists(units);
    let near = nearest(units);
    assert(is_nearest(near, units));
    let d = fitted(notes[i].dur, room);
    lemma_plain_span(d);
    assert(fits(d));
    if let Some(r) = room {
        if near.span() > r {
            lemma_plain_chip(r);
            assert(is_plain(d));
            assert(apart(near.span(), units) < apart(d.span(), units) || (apart(near.span(), units)
                == apart(d.span(), units) && near.span() <= d.span()));
        }
    }
    assert forall|e: Duration| #[trigger] fits(e) implies apart(d.span(), units) <= apart(
        e.span(),
        units,
    ) by {
        assert(is_plain(e));
    }
}

proof fn lemma_held_since(messages: Seq<(Option<i64>, [u8; 3])>, i: int)
    requires
        0 <= i < messages.len(),
        messages[i].0 is Some,
        presses(messages[i].1@),
        forall|k: int|
            i < k < messages.len() ==> (#[trigger] messages[k]).0 is None || messages[k].1@[1]
                != messages[i].1@[1] || !(presses(messages[k].1@) || releases(messages[k].1@)),
    ensures
        heard(messages).held.len() == 256,
        heard(messages).held[messages[i].1@[1] as int] == Some(
            from_zero(messages[i].0->0) as i64,
        ),
    decreases messages.len(),
{
    lemma_heard(messages);
    let init = messages.drop_last();
    lemma_heard(init);
    if i < init.len() {
        assert(init[i] == messages[i]);
        assert forall|k: int| i < k < init.len() implies (#[trigger] init[k]).0 is None
            || init[k].1@[1] != init[i].1@[1] || !(presses(init[k].1@) || releases(
            init[k].1@,
        )) by {
            assert(init[k] == messages[k]);
        }
        lemma_held_since(init, i);
        assert(messages.last() == messages[messages.len() - 1]);
    }
}

proof fn lemma_ended_stays(messages: Seq<(Option<i64>, [u8; 3])>, n: int, x: RecordedNote)
    requires
        0 <= n <= messages.len(),
        heard(messages.take(n)).ended.contains(x),
    ensures
        heard(messages).ended.contains(x),
    decreases messages.len() - n,
{
    if n < messages.len() {
        let t = heard(messages.take(n));
        let u = heard(messages.take(n + 1));
        assert(messages.take(n + 1).drop_last() =~= messages.take(n));
        let k = choose|k: int| 0 <= k < t.ended.len() && t.ended[k] == x;
        assert(u.ended[k] == x);
        lemma_ended_stays(messages, n + 1, x);
    } else {
        assert(messages.take(n) =~= messages);
    }
}

proof fn lemma_let_go_has(t: TakeView, end: i64, k: int, x: RecordedNote)
    requires
        0 <= k <= 256,
        t.held.len() == 256,
        t.ended.contains(x) || exists|p: int|
            0 <= p < k && (#[trigger] t.held[p] matches Some(from) && x == sounded(
                from,
                end as int,
                p,
            )),
    ensures
        let_go(t, end, k).contains(x),
    decreases k,
{
    if k > 0 {
        let before = let_go(t, end, k - 1);
        let all = let_go(t, end, k);
        if t.held[k - 1] matches Some(from) && x == sounded(from, end as int, k - 1) {
            assert(all[before.len() as int] == x);
        } else {
            if !t.ended.contains(x) {
                let p = choose|p: int|
                    0 <= p < k && (#[trigger] t.held[p] matches Some(from) && x == sounded(
                        from,
                        end as int,
                        p,
                    ));
                assert(p < k - 1);
                assert(t.held[p] matches Some(from) && x == sounded(from, end as int, p));
            }
            lemma_let_go_has(t, end, k - 1, x);
            let j = choose|j: int| 0 <= j < before.len() && before[j] == x;
            assert(all[j] == x);
        }
    }
}

/// A key that is struck sounds until the same key is let go, or struck again: the
/// take has its note from the one time to the other, and none of a negative length.
/// What was before the take counts as its start.
pub proof fn law_a_key_sounds_until_it_is_let_go(
    messages: Seq<(Option<i64>, [u8; 3])>,
    end: i64,
    i: int,
    j: int,
)
    requires
        0 <= i < j < messages.len(),
        messages[i].0 is Some,
        messages[j].0 is Some,
        presses(messages[i].1@),
        presses(messages[j].1@) || releases(messages[j].1@),
        messages[i].1@[1] == messages[j].1@[1],
        forall|k: int|
            i < k < j ==> (#[trigger] messages[k]).0 is None || messages[k].1@[1]
                != messages[i].1@[1] || !(presses(messages[k].1@) || releases(messages[k].1@)),
    ensures
        ({
            let a = messages[i].0->0;
            let b = messages[j].0->0;
            let from = if a < 0 {
                0
            } else {
                a as int
            };
            let to = if b < 0 {
                0
            } else {
                b as int
            };
            take_of(messages, end).contains(
                RecordedNote {
                    at: from as i64,
                    dur: (if to > from {
                        to - from
                    } else {
                        0
                    }) as i64,
                    pitch: messages[i].1@[1],
                },
            )
        }),
{
    broadcast use vstd::seq_lib::group_to_multiset_ensures;

    let a = messages[i].0->0;
    let b = messages[j].0->0;
    let p = messages[i].1@[1];
    let x = sounded(from_zero(a) as i64, from_zero(b), p as int);
    let part = messages.take(j);
    assert forall|k: int| i < k < part.len() implies (#[trigger] part[k]).0 is None
        || part[k].1@[1] != part[i].1@[1] || !(presses(part[k].1@) || releases(part[k].1@)) by {
        assert(part[k] == messages[k]);
    }
    assert(part[i] == messages[i]);
    lemma_held_since(part, i);
    let next = messages.take(j + 1);
    assert(next.drop_last() =~= part);
    assert(next.last() == messages[j]);
    let ended = heard(next).ended;
    assert(ended == heard(part).ended.push(x));
    assert(ended[ended.len() - 1] == x);
    lemma_ended_stays(messages, j + 1, x);
    lemma_heard(messages);
    lemma_let_go_has(heard(messages), end, 256, x);
    let all = let_go(heard(messages), end, 256);
    law_ordering_keeps_everything(all);
    assert(all.to_multiset().count(x) > 0);
    assert(ordered(all).to_multiset().count(x) > 0);
}

/// A key that is never let go sounds until the take ends.
pub proof fn law_a_key_that_is_held_sounds_to_the_end(
    messages: Seq<(Option<i64>, [u8; 3])>,
    end: i64,
    i: int,
)
    requires
        0 <= i < messages.len(),
        messages[i].0 is Some,
        presses(messages[i].1@),
        forall|k: int|
            i < k < messages.len() ==> (#[trigger] messages[k]).0 is None || messages[k].1@[1]
                != messages[i].1@[1] || !(presses(messages[k].1@) || releases(messages[k].1@)),
    ensures
        ({
            let a = messages[i].0->0;
            let from = if a < 0 {
                0
            } else {
                a as int
            };
            take_of(messages, end).contains(
                RecordedNote {
                    at: from as i64,
                    dur: (if end > from {
                        end - from
                    } else {
                        0
                    }) as i64,
                    pitch: messages[i].1@[1],
                },
            )
        }),
{
    broadcast use vstd::seq_lib::group_to_multiset_ensures;

    let a = messages[i].0->0;
    let p = messages[i].1@[1] as int;
    let x = sounded(from_zero(a) as i64, end as int, p);
    lemma_held_since(messages, i);
    lemma_heard(messages);
    let t = heard(messages);
    assert(t.held[p] matches Some(from) && x == sounded(from, end as int, p));
    lemma_let_go_has(t, end, 256, x);
    let all = let_go(t, end, 256);
    law_ordering_keeps_everything(all);
    assert(all.to_multiset().count(x) > 0);
    assert(ordered(all).to_multiset().count(x) > 0);
}

/// The whole note is called one; every other value that a take can be rounded onto is
/// called the part of it that it is.
pub proof fn law_how_a_rounding_reads(k: int)
    requires
        1 <= k <= 8,
    ensures
        rounding_label(0) == "1"@,
        rounding_label(k) == "1/"@ + crate::text::decimal((256int / rounding_units(k)) as nat),
{
    reveal_strlit("1/");
    reveal_strlit("1/2");
    reveal_strlit("1/4");
    reveal_strlit("1/8");
    reveal_strlit("1/16");
    reveal_strlit("1/32");
    reveal_strlit("1/64");
    reveal_strlit("1/128");
    reveal_strlit("1/256");
    reveal_with_fuel(crate::text::decimal, 4);
    assert(rounding_label(k) =~= "1/"@ + crate::text::decimal((256int / rounding_units(k)) as nat));
}

} // verus!
