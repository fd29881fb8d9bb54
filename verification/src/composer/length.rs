//! Lengths: whole notes plus so many of a fraction.
//!
//! Time is counted in grid units, [`UNITS_PER_WHOLE`] to a whole note, so every
//! length is a whole number of them and the arithmetic is exact.

use vstd::prelude::*;

use crate::midi::drums::{gm_name, gm_percussion_name};
use crate::text::{decimal, decimal_int, digit_char, push_decimal, push_decimal_int};

verus! {

/// A whole note, in grid units.
pub const UNITS_PER_WHOLE: i64 = 256;

/// A beat is a quarter note.
pub const UNITS_PER_BEAT: i64 = 64;

/// Largest whole-note count a length box offers.
pub const MAX_WHOLES: u8 = 16;

/// Largest nominator a length box offers.
pub const MAX_NUM: u8 = 16;

/// The fractional part of a length, as the fraction of a whole note it is named
/// for. `Zero` is a length that is a whole number of whole notes.
#[derive(Clone, Copy, PartialEq, Eq, Debug, Structural)]
pub enum Fraction {
    Zero,
    Half,
    Quarter,
    Eighth,
    Sixteenth,
    ThirtySecond,
    SixtyFourth,
    HundredTwentyEighth,
    TwoHundredFiftySixth,
}

/// How many fractions there are.
pub const FRACTIONS: usize = 9;

/// The fractions in the order the boxes list them, coarsest first.
pub open spec fn fraction_at(k: int) -> Fraction {
    if k == 0 {
        Fraction::Zero
    } else if k == 1 {
        Fraction::Half
    } else if k == 2 {
        Fraction::Quarter
    } else if k == 3 {
        Fraction::Eighth
    } else if k == 4 {
        Fraction::Sixteenth
    } else if k == 5 {
        Fraction::ThirtySecond
    } else if k == 6 {
        Fraction::SixtyFourth
    } else if k == 7 {
        Fraction::HundredTwentyEighth
    } else {
        Fraction::TwoHundredFiftySixth
    }
}

/// Length of a fraction in grid units.
pub open spec fn fraction_units(f: Fraction) -> int {
    match f {
        Fraction::Zero => 0,
        Fraction::Half => 128,
        Fraction::Quarter => 64,
        Fraction::Eighth => 32,
        Fraction::Sixteenth => 16,
        Fraction::ThirtySecond => 8,
        Fraction::SixtyFourth => 4,
        Fraction::HundredTwentyEighth => 2,
        Fraction::TwoHundredFiftySixth => 1,
    }
}

/// What a fraction is named after: the 8 of a 1/8, and 1 where there is none.
pub open spec fn fraction_denom(f: Fraction) -> int {
    match f {
        Fraction::Zero => 1,
        Fraction::Half => 2,
        Fraction::Quarter => 4,
        Fraction::Eighth => 8,
        Fraction::Sixteenth => 16,
        Fraction::ThirtySecond => 32,
        Fraction::SixtyFourth => 64,
        Fraction::HundredTwentyEighth => 128,
        Fraction::TwoHundredFiftySixth => 256,
    }
}

/// How a fraction reads on screen.
pub open spec fn fraction_label(f: Fraction) -> Seq<char> {
    match f {
        Fraction::Zero => "—"@,
        Fraction::Half => "1/2"@,
        Fraction::Quarter => "1/4"@,
        Fraction::Eighth => "1/8"@,
        Fraction::Sixteenth => "1/16"@,
        Fraction::ThirtySecond => "1/32"@,
        Fraction::SixtyFourth => "1/64"@,
        Fraction::HundredTwentyEighth => "1/128"@,
        Fraction::TwoHundredFiftySixth => "1/256"@,
    }
}

/// How so many of a fraction read on screen: three eighths as `3/8`.
pub open spec fn counted_label(f: Fraction, num: int) -> Seq<char> {
    if f == Fraction::Zero || num == 1 {
        fraction_label(f)
    } else {
        decimal(num as nat) + "/"@ + decimal(fraction_denom(f) as nat)
    }
}

/// Every fraction that is one measures the same with its denominator: a whole
/// note.
pub proof fn law_a_fraction_times_its_denominator_is_a_whole_note(f: Fraction)
    ensures
        fraction_units(f) * fraction_denom(f) == (if f == Fraction::Zero {
            0int
        } else {
            UNITS_PER_WHOLE as int
        }),
{
}

/// Each fraction is half the one before it, from a half down to one unit.
pub proof fn law_fractions_halve(k: int)
    requires
        1 <= k < FRACTIONS - 1,
    ensures
        fraction_units(fraction_at(k + 1)) * 2 == fraction_units(fraction_at(k)),
        fraction_units(fraction_at(FRACTIONS - 1)) == 1,
{
}

impl Fraction {
    /// The fraction at a place of the box that lists them.
    pub fn at(k: usize) -> (r: Fraction)
        ensures
            r == fraction_at(k as int),
    {
        match k {
            0 => Fraction::Zero,
            1 => Fraction::Half,
            2 => Fraction::Quarter,
            3 => Fraction::Eighth,
            4 => Fraction::Sixteenth,
            5 => Fraction::ThirtySecond,
            6 => Fraction::SixtyFourth,
            7 => Fraction::HundredTwentyEighth,
            _ => Fraction::TwoHundredFiftySixth,
        }
    }

    /// Every fraction, coarsest first.
    pub fn all() -> (r: Vec<Fraction>)
        ensures
            r@ == Seq::new(FRACTIONS as nat, |k: int| fraction_at(k)),
    {
        let mut out: Vec<Fraction> = Vec::new();
        let mut k: usize = 0;
        while k < FRACTIONS
            invariant
                k <= FRACTIONS,
                out@ == Seq::new(k as nat, |k: int| fraction_at(k)),
            decreases FRACTIONS - k,
        {
            out.push(Fraction::at(k));
            assert(out@ =~= Seq::new((k + 1) as nat, |k: int| fraction_at(k)));
            k += 1;
        }
        out
    }

    /// Length in grid units.
    pub fn units(self) -> (r: i64)
        ensures
            r == fraction_units(self),
    {
        match self {
            Fraction::Zero => 0,
            Fraction::Half => 128,
            Fraction::Quarter => 64,
            Fraction::Eighth => 32,
            Fraction::Sixteenth => 16,
            Fraction::ThirtySecond => 8,
            Fraction::SixtyFourth => 4,
            Fraction::HundredTwentyEighth => 2,
            Fraction::TwoHundredFiftySixth => 1,
        }
    }

    /// What the fraction is named after: the 8 of a 1/8. `Zero` is not a
    /// fraction at all, so it answers 1, the denominator that changes nothing.
    pub fn denom(self) -> (r: i64)
        ensures
            r == fraction_denom(self),
    {
        let units: i64 = self.units();
        if units == 0 {
            1
        } else {
            UNITS_PER_WHOLE / units
        }
    }

    /// The fraction's own name.
    pub fn label(self) -> (r: &'static str)
        ensures
            r@ == fraction_label(self),
    {
        match self {
            Fraction::Zero => "—",
            Fraction::Half => "1/2",
            Fraction::Quarter => "1/4",
            Fraction::Eighth => "1/8",
            Fraction::Sixteenth => "1/16",
            Fraction::ThirtySecond => "1/32",
            Fraction::SixtyFourth => "1/64",
            Fraction::HundredTwentyEighth => "1/128",
            Fraction::TwoHundredFiftySixth => "1/256",
        }
    }

    /// How `num` of this fraction reads. One of them is just the fraction's own
    /// name, and `Zero` has nothing to count.
    pub fn label_times(self, num: u8) -> (r: String)
        ensures
            r@ == counted_label(self, num as int),
    {
        if self == Fraction::Zero || num == 1 {
            return self.label().to_owned();
        }
        let mut out = String::new();
        push_decimal(&mut out, num as u64);
        out.append("/");
        push_decimal(&mut out, self.denom() as u64);
        assert(out@ =~= counted_label(self, num as int));
        out
    }
}

/// A length: a whole-note count plus so many of a fraction, added together.
///
/// Each part is picked in a select box of its own, which is why they are stored
/// apart. The nominator is kept canonical by [`Duration::canonicalise`]: never
/// zero, and one where there is no fraction to count, so two lengths that sound
/// the same way are the same value.
#[derive(Clone, Copy, PartialEq, Eq, Debug, Structural)]
pub struct Duration {
    /// Whole notes.
    pub wholes: u8,
    /// How many of the fraction: the nominator.
    pub num: u8,
    pub frac: Fraction,
}

/// The plain length: one of a fraction past some whole notes.
pub open spec fn plain(wholes: int, frac: Fraction) -> Duration {
    Duration { wholes: wholes as u8, num: 1, frac }
}

/// So many of a fraction past some whole notes, canonicalised.
pub open spec fn counted(wholes: int, num: int, frac: Fraction) -> Duration {
    Duration {
        wholes: wholes as u8,
        num: if frac == Fraction::Zero || num < 1 {
            1
        } else {
            num as u8
        },
        frac,
    }
}

/// A length of zero.
pub open spec fn zero_length() -> Duration {
    plain(0, Fraction::Zero)
}

impl Duration {
    /// The nominator counts at least once, and only a fraction.
    pub open spec fn canonical(self) -> bool {
        &&& self.num >= 1
        &&& self.frac == Fraction::Zero ==> self.num == 1
    }

    /// A length the boxes offer.
    pub open spec fn offered(self) -> bool {
        &&& self.canonical()
        &&& self.wholes <= MAX_WHOLES
        &&& self.num <= MAX_NUM
    }

    /// The length in grid units.
    pub open spec fn span(self) -> int {
        self.wholes * UNITS_PER_WHOLE + self.num * fraction_units(self.frac)
    }

    /// One of `frac` past `wholes` whole notes.
    pub fn new(wholes: u8, frac: Fraction) -> (r: Duration)
        ensures
            r == plain(wholes as int, frac),
    {
        Duration { wholes, num: 1, frac }
    }

    /// `num` of `frac` past `wholes` whole notes, canonicalised.
    pub fn with_num(wholes: u8, num: u8, frac: Fraction) -> (r: Duration)
        ensures
            r == counted(wholes as int, num as int, frac),
            r.canonical(),
    {
        let mut d = Duration { wholes, num, frac };
        d.canonicalise();
        d
    }

    /// Restore the nominator's invariant: a fraction is counted at least once,
    /// and no fraction is counted at all.
    pub fn canonicalise(&mut self)
        ensures
            *final(self) == counted(old(self).wholes as int, old(self).num as int, old(self).frac),
            final(self).canonical(),
            old(self).canonical() ==> *final(self) == *old(self),
    {
        if self.frac == Fraction::Zero {
            self.num = 1;
        } else if self.num < 1 {
            self.num = 1;
        }
    }

    /// The length in grid units.
    pub fn units(self) -> (r: i64)
        ensures
            r == self.span(),
            0 <= r <= MAX_SPAN,
    {
        proof {
            lemma_span_bounds(self);
        }
        let f: i64 = self.frac.units();
        let counted: i64 = (self.num as i64) * f;
        (self.wholes as i64) * UNITS_PER_WHOLE + counted
    }
}

/// No length is longer than this many units, whatever its parts hold.
pub const MAX_SPAN: i64 = 97_920;

/// A length is never negative and never longer than its parts allow.
pub proof fn lemma_span_bounds(d: Duration)
    ensures
        0 <= d.span() <= MAX_SPAN,
        0 <= d.num * fraction_units(d.frac) <= 32_640,
{
    assert(0 <= d.num * fraction_units(d.frac) <= 255 * 128) by (nonlinear_arith)
        requires
            0 <= d.num <= 255,
            0 <= fraction_units(d.frac) <= 128,
    ;
}

/// A length is its whole part plus its fraction, counted.
pub proof fn law_a_length_is_its_whole_part_plus_its_fraction(wholes: u8, num: u8, frac: Fraction)
    ensures
        plain(wholes as int, frac).span() == wholes * UNITS_PER_WHOLE + fraction_units(frac),
        num >= 1 && frac != Fraction::Zero ==> counted(wholes as int, num as int, frac).span()
            == wholes * UNITS_PER_WHOLE + num * fraction_units(frac),
        counted(wholes as int, 1, frac) == plain(wholes as int, frac),
{
    assert(1 * fraction_units(frac) == fraction_units(frac));
}

/// Whether a rest of a length is so many of a fraction as the boxes can count.
pub open spec fn nameable(rem: int, f: Fraction) -> bool {
    &&& fraction_units(f) > 0
    &&& rem % fraction_units(f) == 0
    &&& rem / fraction_units(f) <= MAX_NUM
}

/// The first fraction, from place `k` of the box on, that names `rem`; the
/// number of fractions where none does.
pub open spec fn coarsest(rem: int, k: int) -> int
    decreases FRACTIONS - k,
{
    if k >= FRACTIONS {
        FRACTIONS as int
    } else if nameable(rem, fraction_at(k)) {
        k
    } else {
        coarsest(rem, k + 1)
    }
}

/// The whole notes that are taken out of a length first.
pub open spec fn whole_part(units: int) -> int {
    if units / (UNITS_PER_WHOLE as int) <= MAX_WHOLES {
        units / (UNITS_PER_WHOLE as int)
    } else {
        MAX_WHOLES as int
    }
}

/// What is left of a length behind its whole notes.
pub open spec fn rest_part(units: int) -> int {
    units - whole_part(units) * UNITS_PER_WHOLE
}

/// The one length that is exactly `units`, said the plainest way, if the boxes
/// can say it.
pub open spec fn exact(units: int) -> Option<Duration> {
    let rem = rest_part(units);
    if units < 0 {
        None
    } else if rem == 0 {
        Some(plain(whole_part(units), Fraction::Zero))
    } else {
        let k = coarsest(rem, 1);
        if k < FRACTIONS {
            let f = fraction_at(k);
            Some(counted(whole_part(units), rem / fraction_units(f), f))
        } else {
            None
        }
    }
}

/// The first fraction, from place `k` of the box on, that is no longer than
/// `rem`.
pub open spec fn first_fitting(rem: int, k: int) -> int
    decreases FRACTIONS - k,
{
    if k >= FRACTIONS {
        FRACTIONS as int
    } else if 0 < fraction_units(fraction_at(k)) <= rem {
        k
    } else {
        first_fitting(rem, k + 1)
    }
}

/// The longest length the boxes offer, in units: sixteen whole notes and sixteen
/// halves past them.
pub const LONGEST: i64 = 6_144;

/// The longest length the boxes offer.
pub open spec fn longest_length() -> Duration {
    counted(MAX_WHOLES as int, MAX_NUM as int, Fraction::Half)
}

/// Whether one fraction, counted as far as the boxes count, leaves `c` over the
/// halves.
pub open spec fn one_names(c: int) -> bool {
    c <= (if c % 8 == 0 {
        127int
    } else if c % 4 == 0 {
        60
    } else if c % 2 == 0 {
        30
    } else {
        15
    })
}

/// The most that one fraction can make where it leaves `c` over the halves.
pub open spec fn fullest(c: int) -> int {
    if c % 64 == 0 {
        c + 896
    } else if c % 32 == 0 {
        c + 384
    } else if c % 16 == 0 {
        c + 128
    } else {
        c
    }
}

/// The fine part of a rest that takes two fractions to say.
pub open spec fn offcut(c: int) -> int {
    if c % 4 == 0 {
        c % 64
    } else if c % 2 == 0 {
        c % 32
    } else {
        c % 16
    }
}

/// How far lengths that leave `c` over the halves stay behind as many of the
/// longest, at the least.
#[verifier::opaque]
pub open spec fn shortfall(c: int) -> int {
    if c == 0 {
        0
    } else if one_names(c) {
        2048 - fullest(c)
    } else {
        4096 - fullest(c - offcut(c)) - offcut(c)
    }
}

/// Whether two lengths are enough for `units`.
pub open spec fn pairs_up(units: int) -> bool {
    2 * LONGEST - units >= shortfall(units % 128)
}

/// The second of the two lengths that make up `units`: what sixteenths leave of
/// it, and past the reach of whole notes and sixteenths what is left by the
/// longest first length that still leaves something nameable.
#[verifier::opaque]
pub open spec fn second_span(units: int) -> int {
    let c = units % 128;
    if units < 4368 {
        units % 16
    } else if c == 0 {
        units - LONGEST
    } else if one_names(c) {
        let over = units - fullest(c) - LONGEST;
        fullest(c) + (if over <= 0 {
            0
        } else {
            (over + 255) / 256 * 256
        })
    } else {
        let b = offcut(c);
        let wholes = (units - fullest(c - b) - b + 128) / 256;
        b + (if wholes <= MAX_WHOLES {
            0
        } else {
            (wholes - MAX_WHOLES) * 256
        })
    }
}

/// `units` laid out over as few lengths as the boxes can name it in: one where
/// there is one, two where two are enough, and otherwise the longest there is
/// before the rest.
pub open spec fn split_lengths(units: int) -> Seq<Duration>
    decreases (if units > 0 {
        units
    } else {
        0
    }),
{
    if units <= 0 {
        Seq::empty()
    } else if exact(units) is Some {
        seq![exact(units)->0]
    } else if pairs_up(units) {
        seq![exact(units - second_span(units))->0, exact(second_span(units))->0]
    } else {
        seq![longest_length()] + split_lengths(units - LONGEST)
    }
}

/// The lengths of a chain added up.
pub open spec fn total_span(s: Seq<Duration>) -> int
    decreases s.len(),
{
    if s.len() == 0 {
        0
    } else {
        total_span(s.drop_last()) + s.last().span()
    }
}

pub proof fn lemma_total_span_add(a: Seq<Duration>, b: Seq<Duration>)
    ensures
        total_span(a + b) == total_span(a) + total_span(b),
    decreases b.len(),
{
    if b.len() == 0 {
        assert(a + b =~= a);
    } else {
        assert((a + b).drop_last() =~= a + b.drop_last());
        lemma_total_span_add(a, b.drop_last());
    }
}

pub proof fn lemma_total_span_one(d: Duration)
    ensures
        total_span(seq![d]) == d.span(),
{
    reveal_with_fuel(total_span, 2);
    assert(seq![d].drop_last() =~= Seq::<Duration>::empty());
}

/// A chain of lengths is never negative.
pub proof fn lemma_total_span_bounds(s: Seq<Duration>)
    ensures
        0 <= total_span(s) <= s.len() * MAX_SPAN,
    decreases s.len(),
{
    if s.len() > 0 {
        lemma_total_span_bounds(s.drop_last());
        lemma_span_bounds(s.last());
    }
}

proof fn lemma_coarsest(rem: int, k: int)
    requires
        k >= 1,
    ensures
        k <= coarsest(rem, k) || coarsest(rem, k) == FRACTIONS,
        coarsest(rem, k) <= FRACTIONS,
        coarsest(rem, k) < FRACTIONS ==> nameable(rem, fraction_at(coarsest(rem, k))),
        forall|j: int| k <= j < FRACTIONS && #[trigger] nameable(rem, fraction_at(j))
            ==> coarsest(rem, k) <= j,
    decreases FRACTIONS - k,
{
    if k < FRACTIONS && !nameable(rem, fraction_at(k)) {
        lemma_coarsest(rem, k + 1);
    }
}

pub proof fn lemma_first_fitting(rem: int, k: int)
    requires
        1 <= k <= FRACTIONS - 1,
        rem >= 1,
    ensures
        k <= first_fitting(rem, k) < FRACTIONS,
        0 < fraction_units(fraction_at(first_fitting(rem, k))) <= rem,
        forall|j: int|
            k <= j < first_fitting(rem, k) ==> fraction_units(#[trigger] fraction_at(j)) > rem,
    decreases FRACTIONS - k,
{
    if !(0 < fraction_units(fraction_at(k)) <= rem) {
        assert(k < FRACTIONS - 1);
        lemma_first_fitting(rem, k + 1);
    }
}

/// What `exact` names is offered by the boxes and is exactly as long as asked.
pub proof fn lemma_exact_sound(units: int)
    requires
        exact(units) is Some,
    ensures
        (exact(units)->0).offered(),
        (exact(units)->0).span() == units,
{
    let rem = rest_part(units);
    let w = whole_part(units);
    assert(0 <= w <= MAX_WHOLES && rem >= 0);
    if rem != 0 {
        lemma_coarsest(rem, 1);
        let k = coarsest(rem, 1);
        let f = fraction_at(k);
        let u = fraction_units(f);
        let n = rem / u;
        assert(n * u == rem && n >= 1) by (nonlinear_arith)
            requires
                n == rem / u,
                rem % u == 0,
                u > 0,
                rem >= 1,
        ;
    }
}

/// Every length the boxes offer is one that `exact` finds: it answers with
/// nothing only where there is nothing to answer with.
pub proof fn law_exact_finds_every_offered_length(d: Duration)
    requires
        d.offered(),
    ensures
        exact(d.span()) is Some,
        (exact(d.span())->0).span() == d.span(),
        (exact(d.span())->0).offered(),
{
    let units = d.span();
    lemma_span_bounds(d);
    let f = d.frac;
    let u = fraction_units(f);
    let rem = rest_part(units);
    if rem != 0 {
        if f == Fraction::Zero {
            assert(units == d.wholes * UNITS_PER_WHOLE);
            assert(false);
        }
        assert(exists|j: int| 1 <= j < FRACTIONS && fraction_at(j) == f) by {
            assert(fraction_at(1) == Fraction::Half);
            assert(fraction_at(2) == Fraction::Quarter);
            assert(fraction_at(3) == Fraction::Eighth);
            assert(fraction_at(4) == Fraction::Sixteenth);
            assert(fraction_at(5) == Fraction::ThirtySecond);
            assert(fraction_at(6) == Fraction::SixtyFourth);
            assert(fraction_at(7) == Fraction::HundredTwentyEighth);
            assert(fraction_at(8) == Fraction::TwoHundredFiftySixth);
        }
        let j = choose|j: int| 1 <= j < FRACTIONS && fraction_at(j) == f;
        let n = d.num as int;
        let q = fraction_denom(f);
        let w = whole_part(units);
        let m = (d.wholes - w) * q + n;
        assert(w >= d.wholes);
        assert(rem == m * u && m <= n) by (nonlinear_arith)
            requires
                rem == (d.wholes * 256 + n * u) - w * 256,
                m == (d.wholes - w) * q + n,
                q * u == 256,
                q >= 1,
                w >= d.wholes,
        ;
        assert(rem % u == 0 && rem / u == m) by (nonlinear_arith)
            requires
                rem == m * u,
                u > 0,
        ;
        assert(nameable(rem, f));
        lemma_coarsest(rem, 1);
        assert(nameable(rem, fraction_at(j)));
    }
    lemma_exact_sound(units);
}

/// So many of a fraction past some whole notes are found.
proof fn lemma_named(wholes: int, num: int, k: int)
    requires
        0 <= wholes <= MAX_WHOLES,
        1 <= num <= MAX_NUM,
        0 <= k < FRACTIONS,
    ensures
        exact(wholes * 256 + num * fraction_units(fraction_at(k))) is Some,
{
    let f = fraction_at(k);
    let d = counted(wholes, num, f);
    assert(d.span() == wholes * 256 + num * fraction_units(f)) by {
        if f == Fraction::Zero {
            assert(num * fraction_units(f) == 0);
        }
    }
    law_exact_finds_every_offered_length(d);
}

/// Every count of halves up to the longest length is one length.
proof fn lemma_halves(units: int)
    requires
        0 <= units <= LONGEST,
        units % 128 == 0,
    ensures
        exact(units) is Some,
{
    let w = whole_part(units);
    let rem = units - w * 256;
    if rem == 0 {
        lemma_named(w, 1, 0);
    } else {
        assert(rem == rem / 128 * 128);
        lemma_named(w, rem / 128, 1);
    }
}

/// So is every count of sixteenths that the whole notes reach.
proof fn lemma_sixteenths(units: int)
    requires
        0 <= units <= 4352,
        units % 16 == 0,
    ensures
        exact(units) is Some,
{
    let w = whole_part(units);
    let rem = units - w * 256;
    if rem == 0 {
        lemma_named(w, 1, 0);
    } else {
        assert(rem == rem / 16 * 16);
        lemma_named(w, rem / 16, 4);
    }
}

/// A rest that one fraction says is one length behind any whole notes, said as
/// often as it can be or, from a sixteenth up, by a half less.
proof fn lemma_fullest(c: int, wholes: int)
    requires
        0 < c < 128,
        one_names(c),
        0 <= wholes <= MAX_WHOLES,
    ensures
        exact(wholes * 256 + fullest(c)) is Some,
        c % 16 == 0 ==> exact(wholes * 256 + fullest(c) - 128) is Some,
{
    let y = fullest(c);
    if c % 64 == 0 {
        assert(y == 15 * 64);
        lemma_grain(y, wholes, 15, 2);
        lemma_grain(y - 128, wholes, 13, 2);
    } else if c % 32 == 0 {
        lemma_grain(y, wholes, y / 32, 3);
        lemma_grain(y - 128, wholes, y / 32 - 4, 3);
    } else if c % 16 == 0 {
        lemma_grain(y, wholes, y / 16, 4);
        lemma_grain(y - 128, wholes, y / 16 - 8, 4);
    } else if c % 8 == 0 {
        lemma_grain(y, wholes, y / 8, 5);
    } else if c % 4 == 0 {
        lemma_grain(y, wholes, y / 4, 6);
    } else if c % 2 == 0 {
        lemma_grain(y, wholes, y / 2, 7);
    } else {
        lemma_grain(y, wholes, y, 8);
    }
}

/// So many of a fraction, known by what they make.
proof fn lemma_grain(y: int, wholes: int, num: int, k: int)
    requires
        0 <= wholes <= MAX_WHOLES,
        1 <= num <= MAX_NUM,
        0 <= k < FRACTIONS,
        y == num * fraction_units(fraction_at(k)),
    ensures
        exact(wholes * 256 + y) is Some,
{
    lemma_named(wholes, num, k);
}

/// A rest that no one fraction says is a rest of sixteenths and a fine part, each
/// of which one fraction says.
proof fn lemma_offcut(c: int)
    requires
        0 < c < 128,
        !one_names(c),
    ensures
        0 < offcut(c) < c,
        offcut(c) <= 60,
        one_names(offcut(c)),
        fullest(offcut(c)) == offcut(c),
        (c - offcut(c)) % 16 == 0,
        one_names(c - offcut(c)),
        fullest(c - offcut(c)) >= c - offcut(c) + 128,
        fullest(c - offcut(c)) <= 960,
        (fullest(c - offcut(c)) - (c - offcut(c))) % 128 == 0,
{
    let b = offcut(c);
    assert((c - b) % 16 == 0);
    assert(c % 8 != 0);
    if c % 4 == 0 {
        assert(c - b == 64);
    } else if c % 2 == 0 {
        assert(b <= 30 && (c - b) % 32 == 0);
    } else {
        assert(b <= 15);
    }
}

/// Where two lengths are enough and one is not, the two that are laid out are
/// lengths the boxes name.
proof fn lemma_pair(units: int)
    requires
        units > 0,
        exact(units) is None,
        pairs_up(units),
    ensures
        0 < second_span(units) < units,
        exact(second_span(units)) is Some,
        exact(units - second_span(units)) is Some,
{
    let c = units % 128;
    if units < 4368 {
        lemma_pair_in_reach(units);
    } else if c == 0 {
        reveal(second_span);
        reveal(shortfall);
        if units <= LONGEST {
            lemma_halves(units);
        }
        lemma_halves(LONGEST as int);
        lemma_halves(units - LONGEST);
    } else if one_names(c) {
        lemma_pair_of_one(units);
    } else {
        lemma_pair_of_two(units);
    }
}

proof fn lemma_pair_in_reach(units: int)
    requires
        0 < units < 4368,
        exact(units) is None,
    ensures
        0 < second_span(units) < units,
        exact(second_span(units)) is Some,
        exact(units - second_span(units)) is Some,
{
    let second = units % 16;
    assert(second_span(units) == second) by {
        reveal(second_span);
    }
    if second == 0 {
        lemma_sixteenths(units);
    }
    if units < 16 {
        lemma_grain(units, 0, units, 8);
    }
    lemma_sixteenths(units - second);
    lemma_grain(second, 0, second, 8);
}

proof fn lemma_pair_of_one(units: int)
    requires
        units >= 4368,
        units % 128 != 0,
        one_names(units % 128),
        pairs_up(units),
    ensures
        0 < second_span(units) < units,
        exact(second_span(units)) is Some,
        exact(units - second_span(units)) is Some,
{
    let c = units % 128;
    let y = fullest(c);
    let over = units - y - LONGEST;
    assert((y - c) % 128 == 0 && c <= y <= 960);
    assert(units <= 10240 + y) by {
        reveal(shortfall);
    }
    assert((units - y) % 128 == 0);
    let w = if over <= 0 {
        0
    } else {
        (over + 255) / 256
    };
    assert(second_span(units) == w * 256 + y) by {
        reveal(second_span);
    }
    assert(0 <= w <= 16);
    assert(0 <= units - y - w * 256 <= LONGEST);
    lemma_fullest(c, w);
    lemma_halves(units - y - w * 256);
}

proof fn lemma_pair_of_two(units: int)
    requires
        units >= 4368,
        !one_names(units % 128),
        pairs_up(units),
    ensures
        0 < second_span(units) < units,
        exact(second_span(units)) is Some,
        exact(units - second_span(units)) is Some,
{
    let c = units % 128;
    lemma_offcut(c);
    let b = offcut(c);
    let y = fullest(c - b);
    let z = units - y - b;
    assert(units <= 8192 + y + b) by {
        reveal(shortfall);
    }
    assert(z % 128 == 0 && 0 <= z <= 8192);
    let w = (z + 128) / 256;
    let first = if w <= 16 {
        w
    } else {
        16
    };
    assert(0 <= w <= 32);
    lemma_fullest(b, w - first);
    lemma_fullest(c - b, first);
    assert(second_span(units) == (w - first) * 256 + b) by {
        reveal(second_span);
    }
    if z % 256 == 0 {
        assert(z == w * 256);
        assert(units - second_span(units) == first * 256 + y);
    } else {
        assert(z + 128 == w * 256);
        assert(units - second_span(units) == first * 256 + y - 128);
    }
}

/// What a rest asks for is never more than a third of two of the longest.
proof fn lemma_shortfall_bounds(c: int)
    requires
        0 <= c < 128,
    ensures
        0 <= shortfall(c) <= 4096,
        one_names(c) ==> shortfall(c) <= 2048,
        c != 0 ==> shortfall(c) >= 1088,
        !one_names(c) ==> shortfall(c) >= 3076,
{
    reveal(shortfall);
    if c != 0 && !one_names(c) {
        lemma_offcut(c);
    }
}

/// Where two lengths are not enough, there is more left than the longest.
proof fn lemma_long(units: int)
    requires
        units > 0,
        !pairs_up(units),
    ensures
        units > LONGEST,
{
    lemma_shortfall_bounds(units % 128);
}

/// A length stays behind the longest by what its rest over the halves asks for,
/// and one fraction says that rest.
proof fn lemma_one_falls_short(d: Duration)
    requires
        d.wholes <= MAX_WHOLES,
        d.num <= MAX_NUM,
    ensures
        LONGEST - d.span() >= shortfall(d.span() % 128),
        d.span() % 128 == 0 || one_names(d.span() % 128),
{
    reveal(shortfall);
    let n = d.num as int;
    let x = d.span();
    let c = x % 128;
    match d.frac {
        Fraction::Zero => {
            assert(x == d.wholes * 256);
        },
        Fraction::Half => {
            assert(x == d.wholes * 256 + n * 128);
        },
        Fraction::Quarter => {
            assert(x == d.wholes * 256 + n * 64);
            assert(c == (n * 64) % 128);
        },
        Fraction::Eighth => {
            assert(x == d.wholes * 256 + n * 32);
            assert(c == (n * 32) % 128);
        },
        Fraction::Sixteenth => {
            assert(x == d.wholes * 256 + n * 16);
            assert(c == (n * 16) % 128);
        },
        Fraction::ThirtySecond => {
            assert(x == d.wholes * 256 + n * 8);
            assert(c == (n * 8) % 128);
        },
        Fraction::SixtyFourth => {
            assert(x == d.wholes * 256 + n * 4);
            assert(c == n * 4);
        },
        Fraction::HundredTwentyEighth => {
            assert(x == d.wholes * 256 + n * 2);
            assert(c == n * 2);
        },
        Fraction::TwoHundredFiftySixth => {
            assert(x == d.wholes * 256 + n);
            assert(c == n);
        },
    }
}

/// What one more length adds to the rest over the halves costs at least as much
/// as the new rest asks for.
proof fn lemma_shortfalls_add(a: int, x: int)
    requires
        0 <= a < 128,
        0 <= x < 128,
        x == 0 || one_names(x),
    ensures
        shortfall(a) + shortfall(x) >= shortfall((a + x) % 128),
{
    let c = (a + x) % 128;
    lemma_shortfall_bounds(a);
    lemma_shortfall_bounds(x);
    lemma_shortfall_bounds(c);
    if a != 0 && x != 0 && one_names(a) && !one_names(c) {
        if c % 2 == 1 {
            if x % 2 == 1 {
                lemma_odd_rests(a, x);
            } else {
                lemma_odd_rests(x, a);
            }
        } else if c % 4 == 2 {
            if x % 4 == 2 {
                lemma_rests_of_two(a, x);
            } else if a % 4 == 2 {
                lemma_rests_of_two(x, a);
            }
        } else if c % 8 == 4 {
            if x % 8 == 4 {
                lemma_rests_of_four(a, x);
            } else if a % 8 == 4 {
                lemma_rests_of_four(x, a);
            }
        }
    }
}

/// The sum of two rests in which one fraction says each, where no one fraction
/// says the sum: the sum's own two parts make no less.
proof fn lemma_odd_rests(a: int, x: int)
    requires
        0 < a < 128,
        0 < x < 128,
        one_names(a),
        one_names(x),
        a % 2 == 0,
        x % 2 == 1,
        !one_names((a + x) % 128),
    ensures
        shortfall(a) + shortfall(x) >= shortfall((a + x) % 128),
{
    reveal(shortfall);
    let c = (a + x) % 128;
    lemma_offcut(c);
    assert(x <= 15);
    if a % 16 == 0 {
        assert(a <= 112);
        assert(c == a + x);
        assert(c % 16 == x);
    } else {
        assert(a <= 120);
        assert(fullest(a) == a);
    }
}

proof fn lemma_rests_of_two(a: int, x: int)
    requires
        0 < a < 128,
        0 < x < 128,
        one_names(a),
        one_names(x),
        a % 4 == 0,
        x % 4 == 2,
        !one_names((a + x) % 128),
    ensures
        shortfall(a) + shortfall(x) >= shortfall((a + x) % 128),
{
    reveal(shortfall);
    let c = (a + x) % 128;
    lemma_offcut(c);
    assert(x <= 30);
    assert(c % 4 == 2);
    if a % 32 == 0 {
        assert(a <= 96);
        assert(c == a + x);
        assert(c % 32 == x);
    } else {
        assert(fullest(a) <= 240);
        assert((c - offcut(c)) % 32 == 0);
    }
}

proof fn lemma_rests_of_four(a: int, x: int)
    requires
        0 < a < 128,
        0 < x < 128,
        one_names(a),
        one_names(x),
        a % 8 == 0,
        x % 8 == 4,
        !one_names((a + x) % 128),
    ensures
        shortfall(a) + shortfall(x) >= shortfall((a + x) % 128),
{
    reveal(shortfall);
    let c = (a + x) % 128;
    lemma_offcut(c);
    assert(x <= 60);
    assert(c % 8 == 4);
    if a % 64 == 0 {
        assert(a == 64);
        assert(c == a + x);
        assert(c % 64 == x);
    } else {
        assert(fullest(a) <= 480);
        assert(c - offcut(c) == 64);
    }
}

/// However many lengths the boxes name, together they stay behind as many of the
/// longest by what their rest over the halves asks for.
proof fn lemma_lengths_fall_short(s: Seq<Duration>)
    requires
        forall|i: int|
            0 <= i < s.len() ==> (#[trigger] s[i]).wholes <= MAX_WHOLES && s[i].num <= MAX_NUM,
    ensures
        s.len() * LONGEST - total_span(s) >= shortfall(total_span(s) % 128),
    decreases s.len(),
{
    if s.len() > 0 {
        let front = s.drop_last();
        let last = s.last();
        assert(forall|i: int| 0 <= i < front.len() ==> #[trigger] front[i] == s[i]);
        lemma_lengths_fall_short(front);
        assert(s[s.len() - 1] == last);
        lemma_one_falls_short(last);
        let t = total_span(front);
        let u = last.span();
        assert(total_span(s) == t + u);
        lemma_shortfalls_add(t % 128, u % 128);
        assert((t % 128 + u % 128) % 128 == (t + u) % 128);
        assert(s.len() * LONGEST == front.len() * LONGEST + LONGEST) by (nonlinear_arith)
            requires
                s.len() == front.len() + 1,
        ;
    } else {
        assert(total_span(s) == 0);
        assert(shortfall(0) == 0) by {
            reveal(shortfall);
        }
    }
}

/// Where `k` of the longest, `k` at least two, stay ahead of `units` by what its
/// rest asks for, it is laid out over no more than `k` lengths.
proof fn lemma_split_is_no_longer(units: int, k: int)
    requires
        k >= 2,
        k * LONGEST - units >= shortfall(units % 128),
    ensures
        split_lengths(units).len() <= k,
    decreases units,
{
    if units > 0 && exact(units) is None && !pairs_up(units) {
        lemma_long(units);
        assert(k >= 3) by (nonlinear_arith)
            requires
                k >= 2,
                k * 6144 - units >= shortfall(units % 128),
                2 * 6144 - units < shortfall(units % 128),
        ;
        assert((k - 1) * LONGEST == k * LONGEST - LONGEST) by (nonlinear_arith);
        assert((units - LONGEST) % 128 == units % 128);
        lemma_split_is_no_longer(units - LONGEST, k - 1);
    }
}

/// No list of lengths that the boxes name adds up to a silence in fewer than it
/// is laid out over.
pub proof fn law_a_split_is_as_short_as_can_be(units: int, other: Seq<Duration>)
    requires
        total_span(other) == units,
        forall|i: int|
            0 <= i < other.len() ==> (#[trigger] other[i]).wholes <= MAX_WHOLES && 1
                <= other[i].num <= MAX_NUM,
    ensures
        split_lengths(units).len() <= other.len(),
{
    if units > 0 {
        if other.len() == 1 {
            let d = other[0];
            assert(other =~= seq![d]);
            lemma_total_span_one(d);
            let c = counted(d.wholes as int, d.num as int, d.frac);
            assert(c.span() == d.span()) by {
                if d.frac == Fraction::Zero {
                    assert(d.num * fraction_units(d.frac) == 0);
                }
            }
            law_exact_finds_every_offered_length(c);
        } else if other.len() >= 2 {
            lemma_lengths_fall_short(other);
            lemma_split_is_no_longer(units, other.len() as int);
        }
    }
}

pub proof fn lemma_nothing_fits(rem: int, k: int)
    requires
        rem < 1,
    ensures
        first_fitting(rem, k) == FRACTIONS || k > FRACTIONS,
    decreases FRACTIONS - k,
{
    if k < FRACTIONS {
        lemma_nothing_fits(rem, k + 1);
    }
}

/// However a silence has to be laid out, its parts add up to it exactly, and
/// each of them is a length the boxes offer and not nothing.
pub proof fn law_a_split_adds_up_exactly(units: int)
    requires
        units >= 0,
    ensures
        total_span(split_lengths(units)) == units,
        forall|i: int|
            0 <= i < split_lengths(units).len() ==> (#[trigger] split_lengths(units)[i]).offered()
                && split_lengths(units)[i].span() > 0,
        split_lengths(units).len() <= units,
    decreases units,
{
    if units > 0 {
        if exact(units) is Some {
            lemma_exact_sound(units);
            lemma_total_span_one(exact(units)->0);
        } else if pairs_up(units) {
            let second = second_span(units);
            lemma_pair(units);
            lemma_exact_sound(second);
            lemma_exact_sound(units - second);
            let a = exact(units - second)->0;
            let b = exact(second)->0;
            lemma_total_span_one(a);
            lemma_total_span_one(b);
            lemma_total_span_add(seq![a], seq![b]);
            assert(split_lengths(units) =~= seq![a] + seq![b]);
        } else {
            let d = longest_length();
            lemma_long(units);
            let rest = split_lengths(units - d.span());
            law_a_split_adds_up_exactly(units - d.span());
            lemma_total_span_add(seq![d], rest);
            lemma_total_span_one(d);
            let all = split_lengths(units);
            assert(all == seq![d] + rest);
            assert forall|i: int| 0 <= i < all.len() implies (#[trigger] all[i]).offered()
                && all[i].span() > 0 by {
                if i > 0 {
                    assert(all[i] == rest[i - 1]);
                }
            }
        }
    }
}

impl Duration {
    /// The one length the boxes can name that is exactly `units`, if there is
    /// one: the coarsest fraction that divides what the whole notes leave.
    pub fn exact(units: i64) -> (r: Option<Duration>)
        ensures
            r == exact(units as int),
    {
        if units < 0 {
            return None;
        }
        let count: i64 = units / UNITS_PER_WHOLE;
        let wholes: i64 = if count <= MAX_WHOLES as i64 {
            count
        } else {
            MAX_WHOLES as i64
        };
        let rem: i64 = units - wholes * UNITS_PER_WHOLE;
        assert(rem == rest_part(units as int));
        if rem == 0 {
            return Some(Duration::new(wholes as u8, Fraction::Zero));
        }
        let mut k: usize = 1;
        while k < FRACTIONS
            invariant
                1 <= k <= FRACTIONS,
                rem >= 1,
                coarsest(rem as int, 1) == coarsest(rem as int, k as int),
                units >= 0,
                0 <= wholes <= MAX_WHOLES,
                rem == rest_part(units as int),
                wholes == whole_part(units as int),
            decreases FRACTIONS - k,
        {
            let frac = Fraction::at(k);
            let f: i64 = frac.units();
            assert(f > 0);
            if rem % f == 0 && rem / f <= MAX_NUM as i64 {
                assert(nameable(rem as int, frac));
                assert(coarsest(rem as int, 1) == k);
                assert(rem / f >= 0) by (nonlinear_arith)
                    requires
                        rem >= 1,
                        f > 0,
                ;
                return Some(Duration::with_num(wholes as u8, (rem / f) as u8, frac));
            }
            assert(!nameable(rem as int, frac));
            k += 1;
        }
        None
    }

    /// `units` spread over as few lengths as the boxes can name it in.
    pub fn split(units: i64) -> (r: Vec<Duration>)
        ensures
            r@ == split_lengths(units as int),
            total_span(r@) == (if units > 0 {
                units as int
            } else {
                0
            }),
            forall|i: int| 0 <= i < r@.len() ==> (#[trigger] r@[i]).offered() && r@[i].span() > 0,
            forall|s: Seq<Duration>|
                #[trigger] total_span(s) == units && (forall|i: int|
                    0 <= i < s.len() ==> (#[trigger] s[i]).offered()) ==> r@.len() <= s.len(),
    {
        proof {
            if units >= 0 {
                law_a_split_adds_up_exactly(units as int);
            }
            assert forall|s: Seq<Duration>|
                #[trigger] total_span(s) == units && (forall|i: int|
                    0 <= i < s.len() ==> (#[trigger] s[i]).offered()) implies split_lengths(
                units as int,
            ).len() <= s.len() by {
                law_a_split_is_as_short_as_can_be(units as int, s);
            }
        }
        Duration::laid_out(units)
    }

    /// `units` laid out over lengths.
    fn laid_out(units: i64) -> (r: Vec<Duration>)
        ensures
            r@ == split_lengths(units as int),
    {
        let mut left: i64 = units;
        let mut out: Vec<Duration> = Vec::new();
        proof {
            assert(Seq::<Duration>::empty() + split_lengths(units as int) =~= split_lengths(
                units as int,
            ));
        }
        while left > 0
            invariant
                left <= units,
                split_lengths(units as int) == out@ + split_lengths(left as int),
            decreases left,
        {
            if let Some(d) = Duration::exact(left) {
                out.push(d);
                assert(split_lengths(units as int) =~= out@);
                return out;
            }
            if let Some((a, b)) = Duration::two(left) {
                out.push(a);
                out.push(b);
                assert(split_lengths(units as int) =~= out@);
                return out;
            }
            proof {
                lemma_long(left as int);
            }
            let d = Duration::with_num(MAX_WHOLES, MAX_NUM, Fraction::Half);
            let ghost before = out@;
            out.push(d);
            proof {
                assert(before + (seq![d] + split_lengths(left - LONGEST)) =~= out@ + split_lengths(
                    left - LONGEST,
                ));
            }
            left -= LONGEST;
        }
        assert(out@ + split_lengths(left as int) =~= out@);
        out
    }

    /// The two lengths that make up `units` where two are enough and one is not.
    fn two(units: i64) -> (r: Option<(Duration, Duration)>)
        requires
            units > 0,
            exact(units as int) is None,
        ensures
            r == (if pairs_up(units as int) {
                Some(
                    (
                        exact(units - second_span(units as int))->0,
                        exact(second_span(units as int))->0,
                    ),
                )
            } else {
                None
            }),
    {
        let c: i64 = units % 128;
        let single: bool = one_fraction(c);
        proof {
            reveal(shortfall);
            reveal(second_span);
            if c != 0 && !single {
                lemma_offcut(c as int);
            }
        }
        let reach: i64 = if c == 0 {
            2 * LONGEST
        } else if single {
            2 * LONGEST - 2048 + most_of(c)
        } else {
            2 * LONGEST - 4096 + most_of(c - fine_part(c)) + fine_part(c)
        };
        if units > reach {
            return None;
        }
        let second: i64 = if units < 4368 {
            units % 16
        } else if c == 0 {
            units - LONGEST
        } else if single {
            let over: i64 = units - most_of(c) - LONGEST;
            if over <= 0 {
                most_of(c)
            } else {
                most_of(c) + (over + 255) / 256 * 256
            }
        } else {
            let b: i64 = fine_part(c);
            let wholes: i64 = (units - most_of(c - b) - b + 128) / 256;
            if wholes <= MAX_WHOLES as i64 {
                b
            } else {
                b + (wholes - MAX_WHOLES as i64) * 256
            }
        };
        assert(second == second_span(units as int));
        proof {
            lemma_pair(units as int);
        }
        match (Duration::exact(units - second), Duration::exact(second)) {
            (Some(a), Some(b)) => Some((a, b)),
            _ => None,
        }
    }
}

/// Whether one fraction leaves `c` over the halves.
fn one_fraction(c: i64) -> (r: bool)
    requires
        0 <= c < 128,
    ensures
        r == one_names(c as int),
{
    if c % 8 == 0 {
        true
    } else if c % 4 == 0 {
        c <= 60
    } else if c % 2 == 0 {
        c <= 30
    } else {
        c <= 15
    }
}

/// The most that one fraction makes where it leaves `c` over the halves.
fn most_of(c: i64) -> (r: i64)
    requires
        0 <= c < 128,
    ensures
        r == fullest(c as int),
        c <= r <= 960,
{
    if c % 64 == 0 {
        c + 896
    } else if c % 32 == 0 {
        c + 384
    } else if c % 16 == 0 {
        c + 128
    } else {
        c
    }
}

/// The fine part of a rest that takes two fractions to say.
fn fine_part(c: i64) -> (r: i64)
    requires
        0 <= c < 128,
    ensures
        r == offcut(c as int),
        0 <= r <= c,
{
    if c % 4 == 0 {
        c % 64
    } else if c % 2 == 0 {
        c % 32
    } else {
        c % 16
    }
}

/// How a length reads in a frame's header, e.g. `1 + 3/8`.
pub open spec fn length_label(d: Duration) -> Seq<char> {
    if d.wholes == 0 && d.frac == Fraction::Zero {
        "0"@
    } else if d.wholes == 0 {
        counted_label(d.frac, d.num as int)
    } else if d.frac == Fraction::Zero {
        decimal(d.wholes as nat)
    } else {
        decimal(d.wholes as nat) + " + "@ + counted_label(d.frac, d.num as int)
    }
}

/// A count of 1/256 rounded to hundredths, an exact half to the even one.
pub open spec fn hundredths(units: nat) -> nat {
    let q = units * 100 / 256;
    let r = units * 100 % 256;
    if r > 128 || (r == 128 && q % 2 == 1) {
        q + 1
    } else {
        q
    }
}

/// How a stretch of time reads: as a length where the boxes can name it, and as
/// a count of whole notes to two places where they cannot.
pub open spec fn span_text(units: int) -> Seq<char> {
    if exact(units) is Some {
        length_label(exact(units)->0)
    } else {
        let h = hundredths((if units < 0 {
            -units
        } else {
            units
        }) as nat);
        (if units < 0 {
            "-"@
        } else {
            ""@
        }) + decimal(h / 100) + "."@ + seq![digit_char(h / 10 % 10), digit_char(h % 10)]
            + " whole"@
    }
}

impl Duration {
    /// How the length reads in the frame's header.
    pub fn label(self) -> (r: String)
        ensures
            r@ == length_label(self),
    {
        if self.wholes == 0 && self.frac == Fraction::Zero {
            return "0".to_owned();
        }
        if self.wholes == 0 {
            return self.frac.label_times(self.num);
        }
        let mut out = String::new();
        push_decimal(&mut out, self.wholes as u64);
        assert(out@ =~= decimal(self.wholes as nat));
        if self.frac == Fraction::Zero {
            return out;
        }
        out.append(" + ");
        let counted = self.frac.label_times(self.num);
        out.append(counted.as_str());
        out
    }
}

/// The longest stretch that counts exactly as a number of whole notes.
pub const MAX_COUNTED: i64 = 9_007_199_254_740_992;

/// How a stretch of time reads in the block bar.
pub fn span_label(units: i64) -> (r: String)
    requires
        -MAX_COUNTED <= units <= MAX_COUNTED,
    ensures
        r@ == span_text(units as int),
{
    if let Some(d) = Duration::exact(units) {
        return d.label();
    }
    let mut out = String::new();
    let size: u64 = if units < 0 {
        (-units) as u64
    } else {
        units as u64
    };
    if units < 0 {
        out.append("-");
    } else {
        out.append("");
    }
    let q: u64 = size * 100 / 256;
    let r: u64 = size * 100 % 256;
    let h: u64 = if r > 128 || (r == 128 && q % 2 == 1) {
        q + 1
    } else {
        q
    };
    assert(h == hundredths(size as nat));
    push_decimal(&mut out, h / 100);
    out.append(".");
    out.push((48 + (h / 10 % 10) as u8) as char);
    out.push((48 + (h % 10) as u8) as char);
    out.append(" whole");
    assert(out@ =~= span_text(units as int));
    out
}

/// The name of a note within its octave.
pub open spec fn note_name(step: int) -> Seq<char> {
    if step == 0 {
        "C"@
    } else if step == 1 {
        "C#"@
    } else if step == 2 {
        "D"@
    } else if step == 3 {
        "D#"@
    } else if step == 4 {
        "E"@
    } else if step == 5 {
        "F"@
    } else if step == 6 {
        "F#"@
    } else if step == 7 {
        "G"@
    } else if step == 8 {
        "G#"@
    } else if step == 9 {
        "A"@
    } else if step == 10 {
        "A#"@
    } else {
        "B"@
    }
}

/// Scientific pitch name of a MIDI note number.
pub open spec fn pitch_text(pitch: u8) -> Seq<char> {
    note_name(pitch as int % 12) + decimal_int(pitch as int / 12 - 1)
}

/// What a note is called on a row: its pitch, and on a drum kit the drum it hits
/// beside it.
pub open spec fn note_text(pitch: u8, percussion: bool) -> Seq<char> {
    match gm_name(pitch) {
        Some(drum) if percussion => pitch_text(pitch) + " · "@ + drum,
        _ => pitch_text(pitch),
    }
}

fn step_name(step: u8) -> (r: &'static str)
    requires
        step < 12,
    ensures
        r@ == note_name(step as int),
{
    match step {
        0 => "C",
        1 => "C#",
        2 => "D",
        3 => "D#",
        4 => "E",
        5 => "F",
        6 => "F#",
        7 => "G",
        8 => "G#",
        9 => "A",
        10 => "A#",
        _ => "B",
    }
}

/// Scientific pitch name of a MIDI note number (`60` is `C4`).
pub fn pitch_name(pitch: u8) -> (r: String)
    ensures
        r@ == pitch_text(pitch),
{
    let mut out = step_name(pitch % 12).to_owned();
    push_decimal_int(&mut out, (pitch / 12) as i64 - 1);
    out
}

/// What a note is called on a row. The drum name is shown beside the pitch,
/// never instead of it: the pitch is what is actually sent.
pub fn note_label(pitch: u8, percussion: bool) -> (r: String)
    ensures
        r@ == note_text(pitch, percussion),
{
    let mut out = pitch_name(pitch);
    if percussion {
        if let Some(drum) = gm_percussion_name(pitch) {
            out.append(" · ");
            out.append(drum);
        }
    }
    out
}

/// A grid unit, in ticks: what a stretch of a recording is measured in before it
/// is fitted to a length.
pub const TICKS_PER_UNIT: i64 = 65_536;

/// How far a length is from a stretch of `t` ticks.
pub open spec fn miss(d: Duration, t: int) -> int {
    let over = d.span() * TICKS_PER_UNIT - t;
    if over < 0 {
        -over
    } else {
        over
    }
}

/// Whether `a` is the better way to say `t` ticks: closer, or as close and said
/// with a coarser fraction, or with fewer of it, or longer.
pub open spec fn fits_better(a: Duration, b: Duration, t: int) -> bool {
    ||| miss(a, t) < miss(b, t)
    ||| miss(a, t) == miss(b, t) && {
        ||| fraction_denom(a.frac) < fraction_denom(b.frac)
        ||| fraction_denom(a.frac) == fraction_denom(b.frac) && {
            ||| a.num < b.num
            ||| a.num == b.num && a.wholes > b.wholes
        }
    }
}

/// Whether no other length the boxes offer says `t` ticks better.
pub open spec fn fits_best(d: Duration, t: int) -> bool {
    &&& d.offered()
    &&& forall|e: Duration| #[trigger] e.offered() && e != d ==> fits_better(d, e, t)
}

/// There is only one best fit.
pub proof fn law_the_best_fit_is_one(a: Duration, b: Duration, t: int)
    requires
        fits_best(a, t),
        fits_best(b, t),
    ensures
        a == b,
{
    if a != b {
        assert(fits_better(a, b, t));
        assert(fits_better(b, a, t));
    }
}

/// A whole note, in ticks.
const TICKS_PER_WHOLE: i64 = 16_777_216;

/// The whole notes that bring a length with so many counted units closest.
spec fn wholes_for(t: int, counted_units: int) -> int {
    let x = t - counted_units * TICKS_PER_UNIT;
    let near = (2 * x + TICKS_PER_WHOLE) / (2 * TICKS_PER_WHOLE);
    if x <= 0 {
        0
    } else if near <= MAX_WHOLES {
        near
    } else {
        MAX_WHOLES as int
    }
}

proof fn lemma_wholes_for(t: int, num: u8, frac: Fraction, other: u8)
    requires
        counted(0, num as int, frac).offered(),
        num >= 1,
        frac == Fraction::Zero ==> num == 1,
        other <= MAX_WHOLES,
    ensures
        ({
            let w = wholes_for(t, num * fraction_units(frac));
            &&& 0 <= w <= MAX_WHOLES
            &&& other == w || fits_better(
                counted(w, num as int, frac),
                counted(other as int, num as int, frac),
                t,
            )
        }),
{
    let c = num * fraction_units(frac);
    lemma_span_bounds(counted(0, num as int, frac));
    let x = t - c * TICKS_PER_UNIT;
    let w = wholes_for(t, c);
    let a = counted(w, num as int, frac);
    let b = counted(other as int, num as int, frac);
    assert(a.span() == w * 256 + c);
    assert(b.span() == other * 256 + c);
    assert(a.span() * TICKS_PER_UNIT - t == w * TICKS_PER_WHOLE - x);
    assert(b.span() * TICKS_PER_UNIT - t == other * TICKS_PER_WHOLE - x);
}

impl Duration {
    /// The closest length the boxes can name to a stretch of `target` ticks.
    ///
    /// A tie goes to the plainest way of saying it: the coarsest fraction, then
    /// the smallest nominator. A stretch that is not nothing never comes back
    /// with no length at all.
    pub fn closest_to(target: i64) -> (r: Duration)
        ensures
            ({
                let t = if target > 0 {
                    target as int
                } else {
                    0
                };
                &&& fits_best(r, t) || (t > 0 && fits_best(zero_length(), t) && r == plain(
                    0,
                    Fraction::TwoHundredFiftySixth,
                ))
                &&& t > 0 ==> r.span() > 0
            }),
    {
        let t: i128 = if target > 0 {
            target as i128
        } else {
            0
        };
        let mut best = Duration::fitted(t, 1, Fraction::Zero);
        let mut best_miss: i128 = best.missed(t);
        proof {
            assert forall|e: Duration|
                e.offered() && e != best && e.frac == Fraction::Zero implies fits_better(
                best,
                e,
                t as int,
            ) by {
                lemma_wholes_for(t as int, 1, Fraction::Zero, e.wholes);
                assert(e == counted(e.wholes as int, 1, Fraction::Zero));
            }
        }
        let mut k: usize = 1;
        while k < FRACTIONS
            invariant
                1 <= k <= FRACTIONS,
                0 <= t <= i64::MAX,
                best.offered(),
                best_miss == miss(best, t as int),
                fraction_denom(best.frac) < fraction_denom(fraction_at(k as int)) || k
                    == FRACTIONS,
                forall|e: Duration|
                    #[trigger] e.offered() && e != best && (fraction_denom(e.frac) < fraction_denom(
                        fraction_at(k as int),
                    ) || k == FRACTIONS) ==> fits_better(best, e, t as int),
            decreases FRACTIONS - k,
        {
            let frac = Fraction::at(k);
            let mut num: u8 = 1;
            while num <= MAX_NUM
                invariant
                    1 <= k < FRACTIONS,
                    frac == fraction_at(k as int),
                    1 <= num <= MAX_NUM + 1,
                    0 <= t <= i64::MAX,
                    best.offered(),
                    best_miss == miss(best, t as int),
                    fraction_denom(best.frac) < fraction_denom(frac) || (best.frac == frac
                        && best.num < num),
                    forall|e: Duration|
                        #[trigger] e.offered() && e != best && (fraction_denom(e.frac)
                            < fraction_denom(frac) || (e.frac == frac && e.num < num))
                            ==> fits_better(best, e, t as int),
                decreases MAX_NUM + 1 - num,
            {
                let d = Duration::fitted(t, num, frac);
                let m: i128 = d.missed(t);
                let ghost was = best;
                if m < best_miss {
                    best = d;
                    best_miss = m;
                }
                proof {
                    assert forall|e: Duration|
                        #[trigger] e.offered() && e != best && (fraction_denom(e.frac)
                            < fraction_denom(frac) || (e.frac == frac && e.num
                            < num + 1)) implies fits_better(best, e, t as int) by {
                        if e.frac == frac && e.num == num {
                            lemma_wholes_for(t as int, num, frac, e.wholes);
                            assert(e == counted(e.wholes as int, num as int, frac));
                        } else if e != was {
                            assert(fits_better(was, e, t as int));
                        }
                    }
                }
                num += 1;
            }
            k += 1;
            proof {
                assert(fraction_at(k - 1) == frac);
                assert forall|e: Duration|
                    #[trigger] e.offered() && e != best && (fraction_denom(e.frac) < fraction_denom(
                        fraction_at(k as int),
                    ) || k == FRACTIONS) implies fits_better(best, e, t as int) by {
                    assert(fraction_denom(e.frac) <= fraction_denom(frac));
                    if fraction_denom(e.frac) == fraction_denom(frac) {
                        assert(e.frac == frac);
                    }
                }
            }
        }
        assert(fits_best(best, t as int));
        if target > 0 && best.units() == 0 {
            assert(best == zero_length()) by {
                if best != zero_length() {
                    assert(zero_length().offered());
                    assert(fits_better(best, zero_length(), t as int));
                    lemma_span_bounds(best);
                }
            }
            return Duration::new(0, Fraction::TwoHundredFiftySixth);
        }
        best
    }

    /// The length with `num` of `frac` that is closest to `t` ticks.
    fn fitted(t: i128, num: u8, frac: Fraction) -> (r: Duration)
        requires
            0 <= t <= i64::MAX,
            1 <= num <= MAX_NUM,
            frac == Fraction::Zero ==> num == 1,
        ensures
            r == counted(wholes_for(t as int, num * fraction_units(frac)), num as int, frac),
            r.offered(),
    {
        let c: i64 = Duration::with_num(0, num, frac).units();
        let x: i128 = t - (c as i128) * (TICKS_PER_UNIT as i128);
        let whole: i128 = TICKS_PER_WHOLE as i128;
        let wholes: i128 = if x <= 0 {
            0
        } else {
            let near: i128 = (2 * x + whole) / (2 * whole);
            if near <= MAX_WHOLES as i128 {
                near
            } else {
                MAX_WHOLES as i128
            }
        };
        Duration::with_num(wholes as u8, num, frac)
    }

    /// How far the length is from `t` ticks.
    fn missed(self, t: i128) -> (r: i128)
        requires
            0 <= t <= i64::MAX,
        ensures
            r == miss(self, t as int),
    {
        let over: i128 = (self.units() as i128) * (TICKS_PER_UNIT as i128) - t;
        if over < 0 {
            -over
        } else {
            over
        }
    }
}

/// The one length that is exactly so many units is that many units long, has as many
/// whole notes as there are, up to those offered, and the coarsest fraction that can
/// say the rest.
pub proof fn law_exact_says_it_the_plainest_way(units: int, e: Duration)
    requires
        exact(units) is Some,
        e.offered(),
        e.span() == units,
    ensures
        ({
            let d = exact(units)->0;
            &&& d.span() == units
            &&& d.offered()
            &&& d.wholes == (if units / 256 <= 16 {
                units / 256
            } else {
                16
            })
            &&& e.wholes == d.wholes && d.frac != Fraction::Zero && e.frac != Fraction::Zero
                ==> fraction_denom(d.frac) <= fraction_denom(e.frac)
        }),
{
    lemma_exact_sound(units);
    law_exact_finds_every_offered_length(e);
    let d = exact(units)->0;
    let rem = rest_part(units);
    if e.wholes == d.wholes && d.frac != Fraction::Zero && e.frac != Fraction::Zero {
        let j = lemma_place_of_fraction(e.frac);
        assert(rem == e.num * fraction_units(e.frac));
        let u = fraction_units(e.frac);
        let n = e.num as int;
        assert(rem % u == 0 && rem / u == n) by (nonlinear_arith)
            requires
                rem == n * u,
                u > 0,
        ;
        assert(nameable(rem, fraction_at(j)));
        lemma_coarsest_is_first(rem, 1, j);
        lemma_denoms_grow(coarsest(rem, 1), j);
    }
}

proof fn lemma_place_of_fraction(f: Fraction) -> (k: int)
    requires
        f != Fraction::Zero,
    ensures
        1 <= k < FRACTIONS,
        fraction_at(k) == f,
{
    match f {
        Fraction::Zero => 0,
        Fraction::Half => 1,
        Fraction::Quarter => 2,
        Fraction::Eighth => 3,
        Fraction::Sixteenth => 4,
        Fraction::ThirtySecond => 5,
        Fraction::SixtyFourth => 6,
        Fraction::HundredTwentyEighth => 7,
        Fraction::TwoHundredFiftySixth => 8,
    }
}

proof fn lemma_coarsest_is_first(rem: int, k: int, j: int)
    requires
        k <= j < FRACTIONS,
        nameable(rem, fraction_at(j)),
    ensures
        k <= coarsest(rem, k) <= j,
    decreases FRACTIONS - k,
{
    if !nameable(rem, fraction_at(k)) {
        lemma_coarsest_is_first(rem, k + 1, j);
    }
}

proof fn lemma_denoms_grow(i: int, j: int)
    requires
        1 <= i <= j < FRACTIONS,
    ensures
        fraction_denom(fraction_at(i)) <= fraction_denom(fraction_at(j)),
{
}

/// A fraction reads as one over its denominator, and several of it as so many over
/// it.
pub proof fn law_how_a_fraction_reads(f: Fraction, num: int)
    requires
        f != Fraction::Zero,
        num >= 1,
    ensures
        fraction_label(f) == "1/"@ + decimal(fraction_denom(f) as nat),
        num > 1 ==> counted_label(f, num) == decimal(num as nat) + "/"@ + decimal(
            fraction_denom(f) as nat,
        ),
        num == 1 ==> counted_label(f, num) == fraction_label(f),
{
    reveal_strlit("1/");
    reveal_strlit("1/2");
    reveal_strlit("1/4");
    reveal_strlit("1/8");
    reveal_strlit("1/16");
    reveal_strlit("1/32");
    reveal_strlit("1/64");
    reveal_strlit("1/128");
    reveal_strlit("1/256");
    reveal_with_fuel(decimal, 4);
    assert(fraction_label(f) =~= "1/"@ + decimal(fraction_denom(f) as nat));
}

/// A length reads as its whole notes and its fraction, and where it has one of them
/// only, as that.
pub proof fn law_how_a_length_reads(d: Duration)
    ensures
        d.wholes > 0 && d.frac != Fraction::Zero ==> length_label(d) == decimal(d.wholes as nat)
            + " + "@ + counted_label(d.frac, d.num as int),
        d.wholes > 0 && d.frac == Fraction::Zero ==> length_label(d) == decimal(d.wholes as nat),
        d.wholes == 0 && d.frac != Fraction::Zero ==> length_label(d) == counted_label(
            d.frac,
            d.num as int,
        ),
        d.wholes == 0 && d.frac == Fraction::Zero ==> length_label(d) == "0"@,
{
}

/// Hundredths of a whole note are rounded to the nearest, and to the even one where
/// two are as near.
pub proof fn law_hundredths_are_the_nearest(units: nat)
    ensures
        256 * hundredths(units) - 100 * units <= 128,
        100 * units - 256 * hundredths(units) <= 128,
        256 * hundredths(units) - 100 * units == 128 || 100 * units - 256 * hundredths(units) == 128
            ==> hundredths(units) % 2 == 0,
{
}

/// A pitch and the one an octave above it have one name, and their octaves are one
/// apart. A sharp is named by the note below it.
pub proof fn law_how_pitches_are_named(pitch: u8, step: int)
    requires
        step == 1 || step == 3 || step == 6 || step == 8 || step == 10,
    ensures
        pitch_text(pitch) == note_name(pitch as int % 12) + decimal_int(pitch as int / 12 - 1),
        pitch <= 243 ==> pitch_text((pitch + 12) as u8) == note_name(pitch as int % 12)
            + decimal_int(pitch as int / 12),
        note_name(step) == note_name(step - 1) + "#"@,
{
    reveal_strlit("#");
    reveal_strlit("C");
    reveal_strlit("C#");
    reveal_strlit("D");
    reveal_strlit("D#");
    reveal_strlit("F");
    reveal_strlit("F#");
    reveal_strlit("G");
    reveal_strlit("G#");
    reveal_strlit("A");
    reveal_strlit("A#");
    assert(note_name(step) =~= note_name(step - 1) + "#"@);
    if pitch <= 243 {
        assert((pitch + 12) % 12 == pitch as int % 12 && (pitch + 12) / 12 == pitch as int / 12
            + 1);
    }
}

/// A note reads as its pitch, and on a drum kit also as the drum it strikes, where
/// that has a name.
pub proof fn law_how_a_note_reads(pitch: u8)
    ensures
        note_text(pitch, false) == pitch_text(pitch),
        gm_name(pitch) is Some ==> note_text(pitch, true) == pitch_text(pitch) + " · "@ + gm_name(
            pitch,
        )->0,
        gm_name(pitch) is None ==> note_text(pitch, true) == pitch_text(pitch),
{
}

/// Lengths add up one by one, in any order they are taken together.
pub proof fn law_lengths_add_up(a: Seq<Duration>, d: Duration, b: Seq<Duration>)
    ensures
        total_span(Seq::empty()) == 0,
        total_span(a.push(d)) == total_span(a) + d.span(),
        total_span(a + b) == total_span(b + a),
{
    assert(a.push(d).drop_last() =~= a);
    lemma_total_span_add(a, b);
    lemma_total_span_add(b, a);
}

/// A whole note has two hundred and fifty-six units, a beat a quarter of them; the
/// boxes offer sixteen whole notes and sixteen of a fraction.
pub proof fn law_the_units_of_length()
    ensures
        UNITS_PER_WHOLE == 256 && UNITS_PER_BEAT == 64 && MAX_WHOLES == 16 && MAX_NUM == 16,
        FRACTIONS == 9 && TICKS_PER_UNIT == 65_536 && LONGEST == longest_length().span(),
        fraction_units(Fraction::Zero) == 0 && fraction_units(Fraction::Half) == 128,
{
}

/// The length that fits best misses by no more than any that the boxes offer; of those
/// that miss by as much it has the coarsest fraction, and of those the fewest of it.
pub proof fn law_what_fits_best(d: Duration, t: int, e: Duration)
    requires
        fits_best(d, t),
        e.offered(),
    ensures
        ({
            let a = d.span() * 65_536 - t;
            let b = e.span() * 65_536 - t;
            let off = if a < 0 {
                -a
            } else {
                a
            };
            let other = if b < 0 {
                -b
            } else {
                b
            };
            &&& off <= other
            &&& off == other ==> fraction_denom(d.frac) <= fraction_denom(e.frac)
            &&& off == other && fraction_denom(d.frac) == fraction_denom(e.frac) ==> d.num <= e.num
            &&& d.offered()
        }),
{
    if e != d {
        assert(fits_better(d, e, t));
    }
}

/// A span reads as the length that it is, or, where no one length is, as its whole
/// notes to two places, with its sign.
pub proof fn law_how_a_span_reads(units: int)
    ensures
        exact(units) is Some ==> span_text(units) == length_label(exact(units)->0),
        exact(units) is None && units >= 0 ==> span_text(units) == ""@ + decimal(
            hundredths(units as nat) / 100,
        ) + "."@ + seq![
            digit_char(hundredths(units as nat) / 10 % 10),
            digit_char(hundredths(units as nat) % 10),
        ] + " whole"@,
        units < 0 ==> span_text(units) == "-"@ + decimal(hundredths((-units) as nat) / 100) + "."@
            + seq![
            digit_char(hundredths((-units) as nat) / 10 % 10),
            digit_char(hundredths((-units) as nat) % 10),
        ] + " whole"@,
{
}

} // verus!
