//! Split a decoded signal into subtracks of roughly constant pitch.
//!
//! A coarse pitch tracker runs over short frames. Consecutive voiced frames whose
//! fundamental stays within about a semitone make one subtrack: the natural unit
//! to analyse. Frequencies and confidences are carried as the bits of the numbers.

use vstd::prelude::*;

use crate::number::{
    greater, is_greater, is_no_less, no_less, not_a_number, place, place_of, ZERO,
};
use crate::order::{in_order, ordered, put_in_order, rank_le, Ranked};

verus! {

/// How many samples a frame takes in.
pub const FRAME: usize = 2048;

/// How far apart frames start.
pub const HOP: usize = 1024;

/// The lowest fundamental, 50 Hz.
pub const MIN_FREQ: u32 = 0x4248_0000;

/// The highest fundamental, 1000 Hz.
pub const MAX_FREQ: u32 = 0x447a_0000;

/// The confidence from which a frame is voiced, 0.4: low, so that a note with
/// vibrato stays in one piece.
pub const MIN_CONFIDENCE: u32 = 0x3ecc_cccd;

/// The mean confidence from which a subtrack is worth analysing, 0.75: high
/// enough to reject clicks, noise and silence.
pub const REASONABLE_CONFIDENCE: u32 = 0x3f40_0000;

/// The number of periods from which a subtrack is worth analysing, 20.
pub const REASONABLE_PERIODS: u32 = 0x41a0_0000;

/// What the pitch tracker says of one frame.
#[derive(Clone, Copy, PartialEq, Eq, Debug, Structural)]
pub struct FramePitch {
    pub freq: u32,
    pub confidence: u32,
    /// Its fundamental is within about a semitone of that of the frame before.
    pub steady: bool,
}

/// A run of frames that make one subtrack.
#[derive(Clone, Copy, PartialEq, Eq, Debug, Structural)]
pub struct Run {
    pub first: usize,
    pub count: usize,
}

/// A contiguous region of the signal with an approximately constant pitch.
#[derive(Clone, Debug)]
pub struct Subtrack {
    /// The first sample, and the one behind the last.
    pub start: usize,
    pub end: usize,
    /// The fundamental: the median of the track.
    pub base_freq: u32,
    /// The mean confidence.
    pub confidence: u32,
    /// The fundamental of every frame by the sample in its middle.
    pub pitch_track: Vec<(usize, u32)>,
}

/// How many frames a signal has.
pub open spec fn frame_count(len: int) -> int {
    if len < FRAME {
        0
    } else {
        (len - FRAME) / HOP as int + 1
    }
}

/// Whether a frame is voiced.
pub open spec fn is_voiced(f: FramePitch) -> bool {
    no_less(f.freq, MIN_FREQ) && no_less(MAX_FREQ, f.freq) && no_less(f.confidence, MIN_CONFIDENCE)
}

/// The runs of the first `n` frames: a voiced frame carries the run of the frame
/// before on while the pitch is steady, and starts one of its own otherwise.
pub open spec fn runs_of(s: Seq<FramePitch>, n: int) -> Seq<Run>
    decreases n,
{
    if n <= 0 {
        Seq::empty()
    } else {
        let before = runs_of(s, n - 1);
        if !is_voiced(s[n - 1]) {
            before
        } else if before.len() > 0 && before.last().first + before.last().count == n - 1 && s[n
            - 1].steady {
            before.drop_last().push(
                Run { first: before.last().first, count: (before.last().count + 1) as usize },
            )
        } else {
            before.push(Run { first: (n - 1) as usize, count: 1 })
        }
    }
}

/// Where the frames of a signal start.
pub fn frame_starts(len: usize) -> (r: Vec<usize>)
    requires
        len <= usize::MAX - HOP,
    ensures
        r@.len() == frame_count(len as int),
        forall|k: int|
            0 <= k < r@.len() ==> #[trigger] r@[k] == k * HOP && r@[k] + FRAME <= len,
{
    let mut out: Vec<usize> = Vec::new();
    if len < FRAME {
        return out;
    }
    let mut pos: usize = 0;
    while pos <= len - FRAME
        invariant
            FRAME <= len,
            len <= usize::MAX - HOP,
            pos == out@.len() * HOP,
            out@.len() <= frame_count(len as int),
            forall|k: int|
                0 <= k < out@.len() ==> #[trigger] out@[k] == k * HOP && out@[k] + FRAME <= len,
        decreases len + HOP - pos,
    {
        out.push(pos);
        pos = pos + HOP;
    }
    out
}

/// Where the first local maximum stands that is no less than a threshold, of the
/// lags from `lag` up to but not including `to`.
pub open spec fn first_peak_from(nac: Seq<u32>, threshold: u32, lag: int, to: int) -> Option<int>
    decreases to - lag,
{
    if lag >= to {
        None
    } else if no_less(nac[lag], threshold) && no_less(nac[lag], nac[lag - 1]) && no_less(
        nac[lag],
        nac[lag + 1],
    ) {
        Some(lag)
    } else {
        first_peak_from(nac, threshold, lag + 1, to)
    }
}

/// The period of a frame: the smallest lag with a local maximum close to the
/// best, which is what `threshold` says. That avoids hearing it an octave too
/// low, where the correlation peaks just as strongly. `nac` is the correlation by
/// lag.
pub fn first_peak(nac: &Vec<u32>, threshold: u32, min_lag: usize, max_lag: usize) -> (r: Option<
    usize,
>)
    requires
        min_lag < max_lag < nac@.len(),
    ensures
        match r {
            Some(lag) => first_peak_from(nac@, threshold, min_lag + 1, max_lag as int) == Some(
                lag as int,
            ) && min_lag < lag < max_lag,
            None => first_peak_from(nac@, threshold, min_lag + 1, max_lag as int) is None,
        },
{
    let mut lag: usize = min_lag + 1;
    while lag < max_lag
        invariant
            min_lag < lag <= max_lag,
            max_lag < nac@.len(),
            first_peak_from(nac@, threshold, min_lag + 1, max_lag as int) == first_peak_from(
                nac@,
                threshold,
                lag as int,
                max_lag as int,
            ),
        decreases max_lag - lag,
    {
        if is_no_less(nac[lag], threshold) && is_no_less(nac[lag], nac[lag - 1]) && is_no_less(
            nac[lag],
            nac[lag + 1],
        ) {
            return Some(lag);
        }
        lag += 1;
    }
    None
}

/// Whether a frame is voiced.
pub fn voiced(f: &FramePitch) -> (r: bool)
    ensures
        r == is_voiced(*f),
{
    is_no_less(f.freq, MIN_FREQ) && is_no_less(MAX_FREQ, f.freq) && is_no_less(
        f.confidence,
        MIN_CONFIDENCE,
    )
}

/// Merge consecutive voiced frames with a steady fundamental.
pub fn merge_frames(frames: &Vec<FramePitch>) -> (r: Vec<Run>)
    ensures
        r@ == runs_of(frames@, frames@.len() as int),
        forall|i: int|
            0 <= i < r@.len() && (#[trigger] r@[i]).first > 0 ==> !is_voiced(
                frames@[r@[i].first - 1],
            ) || !frames@[r@[i].first as int].steady,
{
    let mut out: Vec<Run> = Vec::new();
    let n: usize = frames.len();
    let mut k: usize = 0;
    while k < n
        invariant
            k <= n,
            n == frames@.len(),
            out@ == runs_of(frames@, k as int),
            out@.len() > 0 ==> out@.last().first + out@.last().count <= k,
        decreases n - k,
    {
        let ghost before = out@;
        if voiced(&frames[k]) {
            let len: usize = out.len();
            let follows = len > 0 && frames[k].steady && out[len - 1].first + out[len - 1].count
                == k;
            if follows {
                let last: Run = out[len - 1];
                let longer = Run { first: last.first, count: last.count + 1 };
                out.set(len - 1, longer);
                assert(out@ =~= before.drop_last().push(longer));
            } else {
                out.push(Run { first: k, count: 1 });
            }
        }
        k += 1;
    }
    proof {
        law_runs_are_as_long_as_they_can_be(frames@, frames@.len() as int);
    }
    out
}

/// Whether runs are as they should be: in order, apart or broken off, of voiced
/// frames only, and steady all through.
pub open spec fn good_runs(s: Seq<FramePitch>, runs: Seq<Run>, n: int) -> bool {
    &&& forall|i: int|
        0 <= i < runs.len() ==> (#[trigger] runs[i]).count > 0 && runs[i].first + runs[i].count
            <= n
    &&& forall|i: int, j: int|
        0 <= i < j < runs.len() ==> (#[trigger] runs[i]).first + runs[i].count <= (
        #[trigger] runs[j]).first
    &&& forall|i: int, k: int|
        0 <= i < runs.len() && runs[i].first <= k < runs[i].first + runs[i].count ==> is_voiced(
            #[trigger] s[k],
        ) && (k > (#[trigger] runs[i]).first ==> s[k].steady)
}

/// Whether a frame is in a run.
pub open spec fn in_run(runs: Seq<Run>, k: int) -> bool {
    exists|i: int|
        0 <= i < runs.len() && (#[trigger] runs[i]).first <= k < runs[i].first + runs[i].count
}

/// Every voiced frame is in one run and no other frame is in any; runs follow
/// each other in order and do not overlap; and within a run the pitch is steady
/// from frame to frame.
pub proof fn law_runs_take_in_every_voiced_frame(s: Seq<FramePitch>, n: int)
    requires
        0 <= n <= s.len(),
        s.len() <= usize::MAX,
    ensures
        good_runs(s, runs_of(s, n), n),
        forall|k: int| 0 <= k < n ==> (in_run(runs_of(s, n), k) <==> is_voiced(#[trigger] s[k])),
    decreases n,
{
    if n > 0 {
        law_runs_take_in_every_voiced_frame(s, n - 1);
        let before = runs_of(s, n - 1);
        let all = runs_of(s, n);
        let f = s[n - 1];
        if is_voiced(f) {
            let carries = before.len() > 0 && before.last().first + before.last().count == n - 1
                && f.steady;
            let m = if carries {
                before.len() - 1
            } else {
                before.len() as int
            };
            assert(all.len() == m + 1);
            assert forall|i: int| 0 <= i < m implies #[trigger] all[i] == before[i] by {}
            assert(all[m].first + all[m].count == n);
            if carries {
                assert(before[m] == before.last());
                assert(all[m].first == before[m].first);
            }
            assert(good_runs(s, all, n)) by {
                assert forall|i: int, j: int| 0 <= i < j < all.len() implies (
                #[trigger] all[i]).first + all[i].count <= (#[trigger] all[j]).first by {
                    assert(all[i] == before[i]);
                    if j < m {
                        assert(all[j] == before[j]);
                    } else if carries {
                        assert(before[i].first + before[i].count <= before[m].first);
                    }
                }
                assert forall|i: int, k: int|
                    0 <= i < all.len() && all[i].first <= k < all[i].first
                        + all[i].count implies is_voiced(#[trigger] s[k]) && (k > (
                #[trigger] all[i]).first ==> s[k].steady) by {
                    if i < m {
                        assert(all[i] == before[i]);
                        assert(before[i].first <= k < before[i].first + before[i].count);
                    } else if carries && k < n - 1 {
                        assert(before[m].first <= k < before[m].first + before[m].count);
                    }
                }
            }
            assert forall|k: int| 0 <= k < n implies (in_run(all, k) <==> is_voiced(
                #[trigger] s[k],
            )) by {
                if k < n - 1 {
                    if in_run(before, k) {
                        let i = choose|i: int|
                            0 <= i < before.len() && (#[trigger] before[i]).first <= k
                                < before[i].first + before[i].count;
                        if i < m {
                            assert(all[i] == before[i]);
                        } else {
                            assert(all[m].first <= k < all[m].first + all[m].count);
                        }
                    }
                    if in_run(all, k) {
                        let i = choose|i: int|
                            0 <= i < all.len() && (#[trigger] all[i]).first <= k < all[i].first
                                + all[i].count;
                        assert(is_voiced(s[k]));
                    }
                } else {
                    assert(all[m].first <= k < all[m].first + all[m].count);
                }
            }
        } else {
            assert forall|k: int| 0 <= k < n implies (in_run(all, k) <==> is_voiced(
                #[trigger] s[k],
            )) by {
                if k == n - 1 && in_run(all, k) {
                    let i = choose|i: int|
                        0 <= i < all.len() && (#[trigger] all[i]).first <= k < all[i].first
                            + all[i].count;
                    assert(all[i].first + all[i].count <= n - 1);
                }
            }
        }
    } else {
        assert(runs_of(s, n).len() == 0);
    }
}

/// A pitch among others, to find the middle one.
#[derive(Clone, Copy, PartialEq, Eq, Debug, Structural)]
pub struct Pitch {
    pub freq: u32,
}

impl Ranked for Pitch {
    open spec fn rank(self) -> (int, int) {
        (place_of(self.freq), 0)
    }

    fn leads(&self, other: &Self) -> (r: bool) {
        place(self.freq) <= place(other.freq)
    }
}

/// The pitches of a run.
pub open spec fn pitches(s: Seq<FramePitch>, run: Run) -> Seq<Pitch> {
    Seq::new(run.count as nat, |i: int| Pitch { freq: s[run.first + i].freq })
}

/// The middle one of some pitches, the upper of two.
pub open spec fn median(s: Seq<Pitch>) -> u32 {
    ordered(s)[s.len() as int / 2].freq
}

/// The subtrack that a run makes of a signal. `confidence` is the mean of its
/// frames'.
pub fn subtrack_of(frames: &Vec<FramePitch>, run: Run, confidence: u32, len: usize) -> (r: Subtrack)
    requires
        run.count > 0,
        run.first + run.count <= frames@.len(),
        frames@.len() * HOP + FRAME <= usize::MAX,
        forall|i: int|
            run.first <= i < run.first + run.count ==> !not_a_number((#[trigger] frames@[i]).freq),
    ensures
        r.start == run.first * HOP,
        r.end == (if (run.first + run.count - 1) * HOP + FRAME <= len {
            (run.first + run.count - 1) * HOP + FRAME
        } else {
            len as int
        }),
        r.confidence == confidence,
        r.base_freq == median(pitches(frames@, run)),
        r.pitch_track@.len() == run.count,
        forall|i: int|
            0 <= i < run.count ==> (#[trigger] r.pitch_track@[i]).0 == (run.first + i) * HOP
                + FRAME / 2 && r.pitch_track@[i].1 == frames@[run.first + i].freq,
        r.wf(),
{
    let mut freqs: Vec<Pitch> = Vec::new();
    let mut track: Vec<(usize, u32)> = Vec::new();
    let mut k: usize = 0;
    while k < run.count
        invariant
            k <= run.count,
            run.first + run.count <= frames@.len(),
            frames@.len() * HOP + FRAME <= usize::MAX,
            freqs@.len() == k,
            track@.len() == k,
            forall|i: int|
                0 <= i < k ==> (#[trigger] freqs@[i]).freq == frames@[run.first + i].freq,
            forall|i: int|
                0 <= i < k ==> (#[trigger] track@[i]).0 == (run.first + i) * HOP + FRAME / 2
                    && track@[i].1 == frames@[run.first + i].freq,
        decreases run.count - k,
    {
        let f: u32 = frames[run.first + k].freq;
        freqs.push(Pitch { freq: f });
        track.push(((run.first + k) * HOP + FRAME / 2, f));
        k += 1;
    }
    let sorted = put_in_order(&freqs);
    proof {
        assert(freqs@ =~= pitches(frames@, run));
        crate::order::law_ordering_keeps_everything(freqs@);
    }
    let base_freq: u32 = sorted[sorted.len() / 2].freq;
    let last: usize = (run.first + run.count - 1) * HOP + FRAME;
    Subtrack {
        start: run.first * HOP,
        end: if last <= len {
            last
        } else {
            len
        },
        base_freq,
        confidence,
        pitch_track: track,
    }
}

/// The middle pitch of a run is one of its frames', and no more than half of them
/// are above it and no more than half below.
pub proof fn law_the_median_is_in_the_middle(s: Seq<Pitch>)
    requires
        s.len() > 0,
        forall|i: int| 0 <= i < s.len() ==> !not_a_number((#[trigger] s[i]).freq),
    ensures
        s.contains(Pitch { freq: median(s) }),
        in_order(ordered(s)),
        ordered(s).len() == s.len(),
        ordered(s).to_multiset() == s.to_multiset(),
        forall|i: int|
            0 <= i < s.len() as int / 2 ==> no_less(median(s), (#[trigger] ordered(s)[i]).freq),
        forall|i: int|
            s.len() as int / 2 <= i < s.len() ==> no_less(
                (#[trigger] ordered(s)[i]).freq,
                median(s),
            ),
{
    broadcast use vstd::seq_lib::group_to_multiset_ensures;

    crate::order::law_ordering_keeps_everything(s);
    let o = ordered(s);
    let m = s.len() as int / 2;
    assert(o.to_multiset().count(o[m]) > 0) by {
        assert(o.contains(o[m]));
    }
    assert(s.contains(o[m]));
    assert(o[m] == Pitch { freq: median(s) });
    assert forall|i: int| 0 <= i < s.len() implies !not_a_number((#[trigger] o[i]).freq) by {
        assert(o.contains(o[i]));
        assert(o.to_multiset().count(o[i]) > 0);
        assert(s.contains(o[i]));
    }
    assert forall|i: int| 0 <= i < m implies no_less(median(s), (#[trigger] o[i]).freq) by {
        assert(rank_le(o[i].rank(), o[m].rank()));
    }
    assert forall|i: int| m <= i < s.len() implies no_less((#[trigger] o[i]).freq, median(s)) by {
        assert(rank_le(o[m].rank(), o[i].rank()));
    }
}

/// Where a sample falls in a pitch track.
#[derive(Clone, Copy, PartialEq, Eq, Debug, Structural)]
pub enum Bracket {
    /// There is no track: the fundamental of the whole subtrack.
    Base,
    /// The pitch at one place of the track.
    At { k: usize },
    /// Between a place and the one after it, `num` samples of `den` along.
    Between { k: usize, num: usize, den: usize },
}

impl Subtrack {
    /// The track is in the order of its samples.
    pub open spec fn wf(&self) -> bool {
        forall|i: int, j: int|
            0 <= i <= j < self.pitch_track@.len() ==> (#[trigger] self.pitch_track@[i]).0 <= (
            #[trigger] self.pitch_track@[j]).0
    }

    /// How many samples it takes.
    pub fn len(&self) -> (r: usize)
        ensures
            r == (if self.end > self.start {
                self.end - self.start
            } else {
                0
            }),
    {
        if self.end > self.start {
            self.end - self.start
        } else {
            0
        }
    }

    /// Where a sample falls in the track: what the fundamental there is
    /// interpolated from. Outside the track it is that of the nearer end.
    pub fn bracket(&self, sample_pos: usize) -> (r: Bracket)
        requires
            self.wf(),
        ensures
            ({
                let t = self.pitch_track@;
                let n = t.len() as int;
                match r {
                    Bracket::Base => n == 0,
                    Bracket::At { k } => n > 0 && ((k == 0 && (n == 1 || sample_pos <= t[0].0)) || (
                    n > 1 && k == n - 1 && sample_pos > t[0].0 && sample_pos >= t[n - 1].0)),
                    Bracket::Between { k, num, den } => {
                        &&& n > 1
                        &&& t[0].0 < sample_pos < t[n - 1].0
                        &&& k + 1 < n
                        &&& t[k as int].0 <= sample_pos < t[k + 1].0
                        &&& num == sample_pos - t[k as int].0
                        &&& den == t[k + 1].0 - t[k as int].0
                    },
                }
            }),
    {
        let t = &self.pitch_track;
        let n: usize = t.len();
        if n == 0 {
            return Bracket::Base;
        }
        if n == 1 || sample_pos <= t[0].0 {
            return Bracket::At { k: 0 };
        }
        if sample_pos >= t[n - 1].0 {
            return Bracket::At { k: n - 1 };
        }
        let mut lo: usize = 0;
        let mut hi: usize = n - 1;
        while hi - lo > 1
            invariant
                lo < hi < n,
                n == t@.len(),
                t@[lo as int].0 <= sample_pos < t@[hi as int].0,
            decreases hi - lo,
        {
            let mid: usize = lo + (hi - lo) / 2;
            if t[mid].0 <= sample_pos {
                lo = mid;
            } else {
                hi = mid;
            }
        }
        Bracket::Between { k: lo, num: sample_pos - t[lo].0, den: t[hi].0 - t[lo].0 }
    }

    /// Whether it is worth analysing: long enough to hold many periods, and
    /// strongly pitched on average. `periods` is how many it holds.
    pub fn is_reasonable(&self, periods: u32) -> (r: bool)
        ensures
            r == (no_less(self.confidence, REASONABLE_CONFIDENCE) && no_less(
                periods,
                REASONABLE_PERIODS,
            ) && greater(self.base_freq, ZERO)),
    {
        is_no_less(self.confidence, REASONABLE_CONFIDENCE) && is_no_less(
            periods,
            REASONABLE_PERIODS,
        ) && is_greater(self.base_freq, ZERO)
    }
}

/// Runs are as long as they can be: a run starts only where the frame before it is
/// not voiced, or where the pitch is not steady.
pub proof fn law_runs_are_as_long_as_they_can_be(s: Seq<FramePitch>, n: int)
    requires
        0 <= n <= s.len(),
        s.len() <= usize::MAX,
    ensures
        forall|i: int|
            0 <= i < runs_of(s, n).len() && (#[trigger] runs_of(s, n)[i]).first > 0 ==> !is_voiced(
                s[runs_of(s, n)[i].first - 1],
            ) || !s[runs_of(s, n)[i].first as int].steady,
    decreases n,
{
    if n > 0 {
        law_runs_are_as_long_as_they_can_be(s, n - 1);
        law_runs_take_in_every_voiced_frame(s, n - 1);
        let before = runs_of(s, n - 1);
        let all = runs_of(s, n);
        if n > 1 && is_voiced(s[n - 2]) {
            assert(in_run(before, n - 2));
            let i = choose|i: int|
                0 <= i < before.len() && (#[trigger] before[i]).first <= n - 2 < before[i].first
                    + before[i].count;
            let last = before.len() - 1;
            assert(before[last].count > 0 && before[last].first + before[last].count <= n - 1);
            if i < last {
                assert(before[i].first + before[i].count <= before[last].first);
            }
            assert(before.last().first + before.last().count == n - 1);
        }
        assert forall|i: int| 0 <= i < all.len() && (#[trigger] all[i]).first > 0 implies !is_voiced(
            s[all[i].first - 1],
        ) || !s[all[i].first as int].steady by {
            if i < before.len() {
                assert(all[i].first == before[i].first);
            }
        }
    }
}

/// A frame is voiced exactly when its fundamental lies from 50 to 1000 Hz and its
/// confidence is at least 0.4. The bits of numbers that are not negative are in the
/// order of the numbers.
pub proof fn law_what_is_voiced(f: FramePitch)
    requires
        f.freq <= 0x7f80_0000,
        f.confidence <= 0x7f80_0000,
    ensures
        is_voiced(f) <==> 0x4248_0000 <= f.freq <= 0x447a_0000 && f.confidence >= 0x3ecc_cccd,
{
}

/// The peak that is found is the first there is, no lag before it being one, and
/// none is found only where there is none.
pub proof fn law_the_first_peak_is_found(nac: Seq<u32>, threshold: u32, from: int, to: int)
    ensures
        match first_peak_from(nac, threshold, from, to) {
            Some(lag) => from <= lag < to && no_less(nac[lag], threshold) && no_less(
                nac[lag],
                nac[lag - 1],
            ) && no_less(nac[lag], nac[lag + 1]) && forall|k: int|
                from <= k < lag ==> !(#[trigger] no_less(nac[k], threshold) && no_less(
                    nac[k],
                    nac[k - 1],
                ) && no_less(nac[k], nac[k + 1])),
            None => forall|k: int|
                from <= k < to ==> !(#[trigger] no_less(nac[k], threshold) && no_less(
                    nac[k],
                    nac[k - 1],
                ) && no_less(nac[k], nac[k + 1])),
        },
    decreases to - from,
{
    if from < to {
        law_the_first_peak_is_found(nac, threshold, from + 1, to);
        let here = no_less(nac[from], threshold) && no_less(nac[from], nac[from - 1]) && no_less(
            nac[from],
            nac[from + 1],
        );
        assert(here ==> first_peak_from(nac, threshold, from, to) == Some(from));
        assert(!here ==> first_peak_from(nac, threshold, from, to) == first_peak_from(
            nac,
            threshold,
            from + 1,
            to,
        ));
    }
}

/// Frames are as many as fit: the last one ends within the signal, and one more
/// would not.
pub proof fn law_frames_are_as_many_as_fit(len: int)
    requires
        0 <= len,
    ensures
        FRAME == 2048 && HOP == 1024,
        frame_count(len) > 0 ==> (frame_count(len) - 1) * 1024 + 2048 <= len,
        frame_count(len) * 1024 + 2048 > len,
        frame_count(len) >= 0,
{
}

/// A run's pitches are those of its frames, in order.
pub proof fn law_a_run_has_the_pitches_of_its_frames(s: Seq<FramePitch>, run: Run)
    ensures
        pitches(s, run).len() == run.count,
        forall|i: int|
            0 <= i < run.count ==> (#[trigger] pitches(s, run)[i]).freq == s[run.first + i].freq,
{
}

} // verus!
