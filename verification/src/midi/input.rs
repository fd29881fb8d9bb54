//! What a keyboard sends, on its way in: the octave shift, the queue an open
//! editor plays from, and the taps that listen along.

use vstd::prelude::*;

use std::collections::VecDeque;

use super::message::{kind_of, presses};
use crate::text::{chars_of, contains, has_part, lowercase, to_lowercase};

verus! {

/// How far the keyboard may be moved, in octaves either way. Four covers a
/// 32-key controller reaching either end of a piano.
pub const MAX_OCTAVE_SHIFT: i32 = 4;

/// Cap on messages held in one tap. Past it the tap stops growing rather than
/// dropping its oldest: a recording with a hole in the middle is worse than one
/// that ends early.
pub const MAX_TAPPED_EVENTS: usize = 65_536;

/// Cap on buffered messages. Past it the oldest goes, which keeps at most a
/// brief burst for the next editor that opens.
pub const MAX_QUEUED_EVENTS: usize = 1024;

/// How many octaves the keyboard is transposed by on the way in.
#[derive(Clone, Copy, PartialEq, Eq, Debug, Structural)]
pub struct OctaveShift {
    pub octaves: i32,
}

/// No shift at all: the keyboard as it is played.
pub fn new_octave_shift() -> (r: OctaveShift)
    ensures
        r.octaves == 0,
{
    OctaveShift { octaves: 0 }
}

impl OctaveShift {
    /// Move the picker.
    pub fn store(&mut self, octaves: i32)
        ensures
            final(self).octaves == octaves,
    {
        self.octaves = octaves;
    }

    /// Where the picker stands.
    pub fn load(&self) -> (r: i32)
        ensures
            r == self.octaves,
    {
        self.octaves
    }
}

/// A shift in semitones, within what the keyboard may be moved by.
pub open spec fn semitones(octaves: int) -> int {
    if octaves < -MAX_OCTAVE_SHIFT {
        -12 * MAX_OCTAVE_SHIFT
    } else if octaves > MAX_OCTAVE_SHIFT {
        12 * MAX_OCTAVE_SHIFT
    } else {
        12 * octaves
    }
}

/// Whether a message names a key: a note on, a note off, or the aftertouch of
/// one key.
pub open spec fn names_a_key(m: Seq<u8>) -> bool {
    8 <= m[0] / 16 <= 10
}

/// The key that a message names.
pub open spec fn key_of(m: Seq<u8>) -> int {
    m[1] as int % 128
}

/// What each key that is down was transposed by, after a message: a key going
/// down takes the shift as it stands.
pub open spec fn held_after(m: Seq<u8>, octaves: int, held: Seq<i8>) -> Seq<i8> {
    if presses(m) {
        held.update(key_of(m), semitones(octaves) as i8)
    } else {
        held
    }
}

/// The message after the shift, or nothing where that would put it off the end
/// of MIDI.
pub open spec fn shifted(m: Seq<u8>, octaves: int, held: Seq<i8>) -> Option<Seq<u8>> {
    if !names_a_key(m) {
        Some(m)
    } else {
        let at = key_of(m) + held_after(m, octaves, held)[key_of(m)];
        if 0 <= at <= 127 {
            Some(m.update(1, at as u8))
        } else {
            None
        }
    }
}

/// Move a message by the current octave shift, or `None` if that would put it
/// off the end of MIDI.
///
/// Only the messages that name a key are moved. Everything else (the wheel, the
/// pedal, program changes) passes through untouched.
pub fn shift_octaves(msg: [u8; 3], octave_shift: &OctaveShift, held_shift: &mut [i8; 128]) -> (r:
    Option<[u8; 3]>)
    ensures
        final(held_shift)@ == held_after(msg@, octave_shift.octaves as int, old(held_shift)@),
        match r {
            Some(out) => shifted(msg@, octave_shift.octaves as int, old(held_shift)@) == Some(
                out@,
            ),
            None => shifted(msg@, octave_shift.octaves as int, old(held_shift)@) is None,
        },
        msg@[0] / 16 == 9 && msg@[2] > 0 && -4 <= octave_shift.octaves <= 4 ==> match r {
            Some(out) => out@[0] == msg@[0] && out@[1] == msg@[1] as int % 128 + 12
                * octave_shift.octaves && out@[2] == msg@[2],
            None => !(0 <= msg@[1] as int % 128 + 12 * octave_shift.octaves <= 127),
        },
{
    let status: u8 = kind_of(msg);
    if status != 0x80 && status != 0x90 && status != 0xA0 {
        return Some(msg);
    }
    let key: usize = (msg[1] % 128) as usize;
    let semitones: i32 = if status == 0x90 && msg[2] > 0 {
        let octaves: i32 = octave_shift.octaves;
        let clamped: i32 = if octaves < -MAX_OCTAVE_SHIFT {
            -MAX_OCTAVE_SHIFT
        } else if octaves > MAX_OCTAVE_SHIFT {
            MAX_OCTAVE_SHIFT
        } else {
            octaves
        };
        let shift: i32 = clamped * 12;
        held_shift[key] = shift as i8;
        shift
    } else {
        held_shift[key] as i32
    };
    let at: i32 = key as i32 + semitones;
    if at < 0 || at > 127 {
        return None;
    }
    let mut out: [u8; 3] = msg;
    out[1] = at as u8;
    assert(out@ =~= msg@.update(1, at as u8));
    Some(out)
}

/// What the keys hold after a run of messages, each with the shift as it stood
/// when it came.
pub open spec fn held_through(log: Seq<(Seq<u8>, int)>, held: Seq<i8>) -> Seq<i8>
    decreases log.len(),
{
    if log.len() == 0 {
        held
    } else {
        held_after(log.last().0, log.last().1, held_through(log.drop_last(), held))
    }
}

proof fn lemma_held_keeps(log: Seq<(Seq<u8>, int)>, held: Seq<i8>, key: int)
    requires
        held.len() == 128,
        0 <= key < 128,
        forall|i: int|
            0 <= i < log.len() ==> !(presses((#[trigger] log[i]).0) && key_of(log[i].0) == key),
    ensures
        held_through(log, held).len() == 128,
        held_through(log, held)[key] == held[key],
    decreases log.len(),
{
    if log.len() > 0 {
        let front = log.drop_last();
        assert forall|i: int| 0 <= i < front.len() implies !(presses((#[trigger] front[i]).0)
            && key_of(front[i].0) == key) by {
            assert(front[i] == log[i]);
        }
        lemma_held_keeps(front, held, key);
        assert(log.last() == log[log.len() - 1]);
    }
}

/// Whatever is played and however the picker is moved between a press and the
/// release of the same key, the release goes to the note that the press went to;
/// and if the press went to none, so does the release. The same holds of the
/// aftertouch.
pub proof fn law_a_release_follows_its_press(
    press: Seq<u8>,
    octaves: int,
    between: Seq<(Seq<u8>, int)>,
    after: Seq<u8>,
    octaves_after: int,
    held: Seq<i8>,
)
    requires
        press.len() == 3,
        after.len() == 3,
        held.len() == 128,
        presses(press),
        names_a_key(after) && !presses(after),
        key_of(after) == key_of(press),
        forall|i: int|
            0 <= i < between.len() ==> !(presses((#[trigger] between[i]).0) && key_of(between[i].0)
                == key_of(press)),
    ensures
        ({
            let down = held_after(press, octaves, held);
            let then = held_through(between, down);
            match shifted(press, octaves, held) {
                Some(on) => shifted(after, octaves_after, then) matches Some(off) && off[1]
                    == on[1],
                None => shifted(after, octaves_after, then) is None,
            }
        }),
{
    let down = held_after(press, octaves, held);
    lemma_held_keeps(between, down, key_of(press));
}

/// A picker that stands at zero moves nothing, as long as no key is held from
/// before it was put there.
pub proof fn law_no_shift_moves_nothing(m: Seq<u8>, held: Seq<i8>)
    requires
        m.len() == 3,
        m[1] < 128,
        held.len() == 128,
        held[key_of(m)] == 0,
    ensures
        shifted(m, 0, held) == Some(m),
        held_after(m, 0, held) == held,
{
    assert(held.update(key_of(m), 0) =~= held);
    assert(m.update(1, m[1]) =~= m);
}

/// A queue of messages, for one audio engine to drain.
#[derive(Debug)]
pub struct MidiEventQueue {
    events: VecDeque<[u8; 3]>,
}

impl View for MidiEventQueue {
    type V = Seq<[u8; 3]>;

    closed spec fn view(&self) -> Seq<[u8; 3]> {
        self.events@
    }
}

/// A queue after one more message: full, it lost its oldest.
pub open spec fn queued(q: Seq<[u8; 3]>, msg: [u8; 3]) -> Seq<[u8; 3]> {
    if q.len() >= MAX_QUEUED_EVENTS {
        q.skip(1).push(msg)
    } else {
        q.push(msg)
    }
}

/// Create a new empty MIDI event queue.
pub fn new_midi_queue() -> (r: MidiEventQueue)
    ensures
        r@ == Seq::<[u8; 3]>::empty(),
{
    MidiEventQueue { events: VecDeque::new() }
}

impl MidiEventQueue {
    /// Put a message behind the others.
    pub fn push(&mut self, msg: [u8; 3])
        ensures
            final(self)@ == queued(old(self)@, msg),
    {
        if self.events.len() >= MAX_QUEUED_EVENTS {
            let _oldest = self.events.pop_front();
        }
        self.events.push_back(msg);
        assert(self.events@ =~= queued(old(self)@, msg));
    }

    /// Take everything out, oldest first.
    pub fn drain(&mut self) -> (r: Vec<[u8; 3]>)
        ensures
            r@ == old(self)@,
            final(self)@ == Seq::<[u8; 3]>::empty(),
    {
        let mut out: Vec<[u8; 3]> = Vec::new();
        let n: usize = self.events.len();
        let ghost all = self.events@;
        while out.len() < n
            invariant
                n == all.len(),
                out@.len() <= n,
                out@ == all.take(out@.len() as int),
                self.events@ == all.skip(out@.len() as int),
            decreases n - out@.len(),
        {
            let ghost k = out@.len() as int;
            if let Some(msg) = self.events.pop_front() {
                out.push(msg);
                assert(all.take(k).push(all[k]) =~= all.take(k + 1));
                assert(all.skip(k).skip(1) =~= all.skip(k + 1));
                assert(self.events@ =~= all.skip(k + 1));
            }
        }
        assert(out@ =~= all);
        assert(self.events@ =~= Seq::<[u8; 3]>::empty());
        out
    }
}

/// One message as a listener sees it: when it arrived, in microseconds, and what
/// it was.
pub type TimedMessage = (u64, [u8; 3]);

/// A listener on the keyboard: every message is copied here, stamped. It copies
/// and does not consume: the queue of an open editor still gets every note.
#[derive(Debug)]
pub struct MidiTap {
    id: u64,
    open: bool,
    events: Vec<TimedMessage>,
}

/// A listener, as the contracts see it.
pub ghost struct TapView {
    pub id: u64,
    /// Its owner is still there.
    pub open: bool,
    pub events: Seq<TimedMessage>,
}

impl View for MidiTap {
    type V = TapView;

    closed spec fn view(&self) -> TapView {
        TapView { id: self.id, open: self.open, events: self.events@ }
    }
}

/// The taps currently listening. A recorder that goes away closes its own, and
/// the next one to come sweeps the closed ones out.
#[derive(Debug)]
pub struct MidiTaps {
    taps: Vec<MidiTap>,
    next: u64,
}

/// Where the tap of an id stands, or how many there are.
pub open spec fn tap_place(s: Seq<TapView>, id: u64) -> int
    decreases s.len(),
{
    if s.len() == 0 || s[0].id == id {
        0
    } else {
        1 + tap_place(s.skip(1), id)
    }
}

/// The taps whose owners are still there.
pub open spec fn listening(s: Seq<TapView>) -> Seq<TapView> {
    s.filter(|t: TapView| t.open)
}

/// A tap after a message: past the cap it stays as it is.
pub open spec fn tapped(t: TapView, stamp: u64, msg: [u8; 3]) -> TapView {
    if t.open && t.events.len() < MAX_TAPPED_EVENTS {
        TapView { events: t.events.push((stamp, msg)), ..t }
    } else {
        t
    }
}

proof fn lemma_tap_place(s: Seq<TapView>, id: u64)
    ensures
        0 <= tap_place(s, id) <= s.len(),
        tap_place(s, id) < s.len() ==> s[tap_place(s, id)].id == id,
        forall|k: int| 0 <= k < tap_place(s, id) ==> (#[trigger] s[k]).id != id,
    decreases s.len(),
{
    if s.len() > 0 && s[0].id != id {
        lemma_tap_place(s.skip(1), id);
        assert forall|k: int| 0 <= k < tap_place(s, id) implies (#[trigger] s[k]).id != id by {
            if k > 0 {
                assert(s[k] == s.skip(1)[k - 1]);
            }
        }
    }
}

impl MidiTaps {
    /// The taps, in the order they came.
    pub closed spec fn view(&self) -> Seq<TapView> {
        self.taps@.map_values(|t: MidiTap| t@)
    }

    /// The id of the next tap.
    pub closed spec fn next(&self) -> u64 {
        self.next
    }

    /// No two taps share an id, and the next one is nobody's.
    pub open spec fn wf(&self) -> bool {
        &&& forall|a: int, b: int|
            0 <= a < b < self@.len() ==> (#[trigger] self@[a]).id != (#[trigger] self@[b]).id
        &&& forall|a: int| 0 <= a < self@.len() ==> (#[trigger] self@[a]).id < self.next()
    }
}

/// A fresh, empty tap list: nothing is listening yet.
pub fn new_midi_taps() -> (r: MidiTaps)
    ensures
        r.wf(),
        r@.len() == 0,
        r.next() == 0,
{
    MidiTaps { taps: Vec::new(), next: 0 }
}

/// Start listening. The new tap fills with everything the keyboard sends
/// (alongside, not instead of, the main queue) until it is closed. The taps
/// whose owners have gone are swept out on the way.
pub fn add_midi_tap(taps: &mut MidiTaps) -> (r: u64)
    requires
        old(taps).wf(),
        old(taps).next() < u64::MAX,
    ensures
        r == old(taps).next(),
        final(taps).wf(),
        final(taps).next() == old(taps).next() + 1,
        final(taps)@ == listening(old(taps)@).push(
            TapView { id: r, open: true, events: Seq::empty() },
        ),
{
    let ghost all = taps@;
    let mut kept: Vec<MidiTap> = Vec::new();
    let n: usize = taps.taps.len();
    let mut left: Vec<MidiTap> = Vec::new();
    std::mem::swap(&mut left, &mut taps.taps);
    let ghost from = left@;
    let mut k: usize = 0;
    proof {
        assert(from.map_values(|t: MidiTap| t@) =~= all);
        assert(all.take(0).filter(|t: TapView| t.open) =~= Seq::empty()) by {
            reveal(Seq::filter);
        }
    }
    while k < n
        invariant
            k <= n,
            n == from.len(),
            left@ == from.skip(k as int),
            all == from.map_values(|t: MidiTap| t@),
            kept@.map_values(|t: MidiTap| t@) == listening(all.take(k as int)),
            taps.next == old(taps).next(),
        decreases n - k,
    {
        let ghost before = kept@;
        let tap = left.remove(0);
        proof {
            assert(tap == from[k as int]);
            assert(left@ =~= from.skip(k + 1));
            let part = all.take(k + 1);
            assert(part.drop_last() =~= all.take(k as int));
            assert(part.last() == tap@);
            reveal(Seq::filter);
        }
        if tap.open {
            kept.push(tap);
            assert(kept@.map_values(|t: MidiTap| t@) =~= before.map_values(|t: MidiTap| t@).push(
                tap@,
            ));
        }
        k += 1;
    }
    assert(all.take(n as int) =~= all);
    let id: u64 = taps.next;
    kept.push(MidiTap { id, open: true, events: Vec::new() });
    taps.taps = kept;
    taps.next = id + 1;
    proof {
        let now = taps@;
        let live = listening(all);
        assert(now =~= live.push(TapView { id, open: true, events: Seq::empty() }));
        lemma_filtered_apart(all, id);
    }
    id
}

proof fn lemma_filtered_apart(s: Seq<TapView>, next: u64)
    requires
        forall|a: int, b: int|
            0 <= a < b < s.len() ==> (#[trigger] s[a]).id != (#[trigger] s[b]).id,
        forall|a: int| 0 <= a < s.len() ==> (#[trigger] s[a]).id < next,
    ensures
        forall|a: int, b: int|
            0 <= a < b < listening(s).len() ==> (#[trigger] listening(s)[a]).id != (
            #[trigger] listening(s)[b]).id,
        forall|a: int| 0 <= a < listening(s).len() ==> (#[trigger] listening(s)[a]).id < next,
        forall|a: int| 0 <= a < listening(s).len() ==> s.contains(#[trigger] listening(s)[a]),
    decreases s.len(),
{
    reveal(Seq::filter);
    if s.len() > 0 {
        let front = s.drop_last();
        assert forall|a: int, b: int| 0 <= a < b < front.len() implies (#[trigger] front[a]).id != (
        #[trigger] front[b]).id by {
            assert(front[a] == s[a] && front[b] == s[b]);
        }
        assert forall|a: int| 0 <= a < front.len() implies (#[trigger] front[a]).id < next by {
            assert(front[a] == s[a]);
        }
        lemma_filtered_apart(front, next);
        let kept = listening(front);
        assert forall|a: int| 0 <= a < kept.len() implies (#[trigger] kept[a]).id != s.last().id
            && s.contains(kept[a]) by {
            let i = choose|i: int| 0 <= i < front.len() && front[i] == kept[a];
            assert(front[i] == s[i]);
            assert(s[i].id != s[s.len() - 1].id);
        }
        assert(s[s.len() - 1] == s.last());
    }
}

/// Copy one message to every listening recorder.
pub fn tap(taps: &mut MidiTaps, stamp: u64, msg: [u8; 3])
    requires
        old(taps).wf(),
    ensures
        final(taps).wf(),
        final(taps).next() == old(taps).next(),
        final(taps)@ == old(taps)@.map_values(|t: TapView| tapped(t, stamp, msg)),
{
    let ghost was = taps.taps@;
    let n: usize = taps.taps.len();
    let mut k: usize = 0;
    while k < n
        invariant
            k <= n,
            n == was.len(),
            taps.taps@.len() == n,
            taps.next == old(taps).next,
            forall|i: int| k <= i < n ==> taps.taps@[i] == was[i],
            forall|i: int|
                0 <= i < k ==> (#[trigger] taps.taps@[i])@ == tapped(was[i]@, stamp, msg),
        decreases n - k,
    {
        let ghost before = taps.taps@;
        if taps.taps[k].open && taps.taps[k].events.len() < MAX_TAPPED_EVENTS {
            taps.taps[k].events.push((stamp, msg));
            assert(forall|i: int| 0 <= i < n && i != k ==> taps.taps@[i] == before[i]);
        }
        assert(taps.taps@[k as int]@ == tapped(was[k as int]@, stamp, msg));
        k += 1;
    }
    proof {
        assert(taps@ =~= old(taps)@.map_values(|t: TapView| tapped(t, stamp, msg)));
        assert forall|a: int| 0 <= a < taps@.len() implies (#[trigger] taps@[a]).id
            == old(taps)@[a].id by {}
    }
}

impl MidiTaps {
    /// Whether there is an id for one more tap.
    pub fn has_room(&self) -> (r: bool)
        ensures
            r == (self.next() < u64::MAX),
    {
        self.next < u64::MAX
    }

    /// Where the tap of an id stands, or how many there are.
    fn place(&self, id: u64) -> (r: usize)
        ensures
            r == tap_place(self@, id),
            self@.len() == self.taps@.len(),
            forall|i: int| 0 <= i < self@.len() ==> self@[i] == (#[trigger] self.taps@[i])@,
    {
        let ghost all = self@;
        let n: usize = self.taps.len();
        let mut k: usize = 0;
        proof {
            lemma_tap_place(all, id);
        }
        while k < n && self.taps[k].id != id
            invariant
                k <= n,
                n == self.taps@.len(),
                all == self@,
                forall|i: int| 0 <= i < k ==> (#[trigger] all[i]).id != id,
            decreases n - k,
        {
            assert(all[k as int] == self.taps@[k as int]@);
            k += 1;
        }
        proof {
            if k < n {
                assert(all[k as int] == self.taps@[k as int]@);
            }
        }
        k
    }

    /// Stop listening: everything a tap heard, and the tap is closed. `None` if
    /// there is no such tap.
    pub fn take(&mut self, id: u64) -> (r: Option<Vec<TimedMessage>>)
        requires
            old(self).wf(),
        ensures
            final(self).wf(),
            final(self).next() == old(self).next(),
            ({
                let k = tap_place(old(self)@, id);
                if 0 <= k < old(self)@.len() {
                    &&& r matches Some(events) && events@ == old(self)@[k].events
                    &&& final(self)@ == old(self)@.update(
                        k,
                        TapView { id, open: false, events: Seq::empty() },
                    )
                } else {
                    r is None && final(self)@ == old(self)@
                }
            }),
    {
        let ghost all = self@;
        let k: usize = self.place(id);
        if k >= self.taps.len() {
            return None;
        }
        let mut events: Vec<TimedMessage> = Vec::new();
        std::mem::swap(&mut events, &mut self.taps[k].events);
        self.taps[k].open = false;
        proof {
            lemma_tap_place(all, id);
            assert(self@ =~= all.update(
                k as int,
                TapView { id, open: false, events: Seq::empty() },
            ));
            assert forall|a: int| 0 <= a < self@.len() implies (#[trigger] self@[a]).id
                == all[a].id by {}
        }
        Some(events)
    }

    /// Forget what a tap has heard so far: it goes on listening.
    pub fn forget(&mut self, id: u64)
        requires
            old(self).wf(),
        ensures
            final(self).wf(),
            final(self).next() == old(self).next(),
            ({
                let k = tap_place(old(self)@, id);
                final(self)@ == (if 0 <= k < old(self)@.len() {
                    old(self)@.update(k, TapView { events: Seq::empty(), ..old(self)@[k] })
                } else {
                    old(self)@
                })
            }),
    {
        let ghost all = self@;
        let k: usize = self.place(id);
        if k < self.taps.len() {
            self.taps[k].events = Vec::new();
            proof {
                assert(self@ =~= all.update(
                    k as int,
                    TapView { events: Seq::empty(), ..all[k as int] },
                ));
                assert forall|a: int| 0 <= a < self@.len() implies (#[trigger] self@[a]).id
                    == all[a].id by {}
            }
        }
    }

    /// The messages a tap has heard so far, in order.
    pub fn heard(&self, id: u64) -> (r: Vec<[u8; 3]>)
        ensures
            ({
                let k = tap_place(self@, id);
                r@ == (if 0 <= k < self@.len() {
                    self@[k].events.map_values(|e: TimedMessage| e.1)
                } else {
                    Seq::empty()
                })
            }),
    {
        let k: usize = self.place(id);
        let mut out: Vec<[u8; 3]> = Vec::new();
        if k < self.taps.len() {
            let events = &self.taps[k].events;
            let n: usize = events.len();
            let mut i: usize = 0;
            while i < n
                invariant
                    i <= n,
                    n == events@.len(),
                    out@ == events@.take(i as int).map_values(|e: TimedMessage| e.1),
                decreases n - i,
            {
                out.push(events[i].1);
                i += 1;
                assert(out@ =~= events@.take(i as int).map_values(|e: TimedMessage| e.1));
            }
            assert(events@.take(n as int) =~= events@);
        }
        out
    }
}

/// What a tap has heard after a run of stamped messages.
pub open spec fn tapped_through(t: TapView, log: Seq<TimedMessage>) -> TapView
    decreases log.len(),
{
    if log.len() == 0 {
        t
    } else {
        tapped(tapped_through(t, log.drop_last()), log.last().0, log.last().1)
    }
}

/// A tap that was just opened has heard every message since, in order, up to its
/// cap: it has no hole in it.
pub proof fn law_a_tap_has_no_hole(t: TapView, log: Seq<TimedMessage>)
    requires
        t.open,
        t.events.len() == 0,
    ensures
        tapped_through(t, log).open,
        tapped_through(t, log).events == log.take(
            if log.len() < MAX_TAPPED_EVENTS {
                log.len() as int
            } else {
                MAX_TAPPED_EVENTS as int
            },
        ),
    decreases log.len(),
{
    if log.len() > 0 {
        law_a_tap_has_no_hole(t, log.drop_last());
        let before = tapped_through(t, log.drop_last()).events;
        if log.len() <= MAX_TAPPED_EVENTS {
            assert(log.drop_last().take(log.len() - 1) =~= log.drop_last());
            assert(before.push(log.last()) =~= log);
            assert(log.take(log.len() as int) =~= log);
        } else {
            assert(log.drop_last().take(MAX_TAPPED_EVENTS as int) =~= log.take(
                MAX_TAPPED_EVENTS as int,
            ));
        }
    } else {
        assert(log.take(0) =~= t.events);
    }
}

/// Whether a port's name suggests a hardware keyboard: it is not one of those
/// that only pass messages between programs.
pub open spec fn looks_like_a_keyboard(name: Seq<char>) -> bool {
    let lower = lowercase(name);
    !contains(lower, "through"@) && !contains(lower, "virtual"@) && !contains(lower, "rtpmidi"@)
}

/// Whether a port, by its name in lower case, passes messages between programs
/// only.
pub fn is_software_port(lower: &str) -> (r: bool)
    ensures
        r == (contains(lower@, "through"@) || contains(lower@, "virtual"@) || contains(
            lower@,
            "rtpmidi"@,
        )),
{
    let v = chars_of(lower);
    has_part(&v, "through") || has_part(&v, "virtual") || has_part(&v, "rtpmidi")
}

/// The names of the ports that are keyboards, in order.
pub open spec fn keyboards(names: Seq<Seq<char>>) -> Seq<Seq<char>> {
    names.filter(|n: Seq<char>| looks_like_a_keyboard(n))
}

/// The MIDI input ports that look like USB MIDI keyboards, out of all there are.
/// Filters out virtual and software ports; what remains is typically hardware.
pub fn list_usb_midi_keyboards(all: &[String]) -> (r: Vec<String>)
    ensures
        r@.map_values(|s: String| s@) == keyboards(all@.map_values(|s: String| s@)),
{
    let ghost names = all@.map_values(|s: String| s@);
    let mut out: Vec<String> = Vec::new();
    let n: usize = all.len();
    let mut k: usize = 0;
    proof {
        reveal(Seq::filter);
        assert(keyboards(names.take(0)) =~= Seq::empty());
    }
    while k < n
        invariant
            k <= n,
            n == all@.len(),
            names == all@.map_values(|s: String| s@),
            out@.map_values(|s: String| s@) == keyboards(names.take(k as int)),
        decreases n - k,
    {
        let ghost before = out@;
        let lower = to_lowercase(all[k].as_str());
        proof {
            reveal(Seq::filter);
            let part = names.take(k + 1);
            assert(part.drop_last() =~= names.take(k as int));
            assert(part.last() == all@[k as int]@);
        }
        if !is_software_port(lower.as_str()) {
            let name = all[k].as_str().to_owned();
            out.push(name);
            assert(out@.map_values(|s: String| s@) =~= before.map_values(|s: String| s@).push(
                all@[k as int]@,
            ));
        }
        k += 1;
    }
    assert(names.take(n as int) =~= names);
    out
}

/// The first of the names that holds a text, or how many there are.
pub open spec fn first_holding(names: Seq<String>, part: Seq<char>) -> int
    decreases names.len(),
{
    if names.len() == 0 || contains(names[0]@, part) {
        0
    } else {
        1 + first_holding(names.skip(1), part)
    }
}

proof fn lemma_first_holding(names: Seq<String>, part: Seq<char>, k: int)
    requires
        0 <= k <= names.len(),
        k < names.len() ==> contains(names[k]@, part),
        forall|i: int| 0 <= i < k ==> !contains((#[trigger] names[i])@, part),
    ensures
        first_holding(names, part) == k,
    decreases k,
{
    if k > 0 {
        assert(!contains(names[0]@, part));
        let rest = names.skip(1);
        assert forall|i: int| 0 <= i < k - 1 implies !contains((#[trigger] rest[i])@, part) by {
            assert(rest[i] == names[i + 1]);
        }
        if k < names.len() {
            assert(rest[k - 1] == names[k]);
        }
        lemma_first_holding(rest, part, k - 1);
    }
}

/// The port to connect to: the first whose name holds the filter, or the first
/// there is. `None` where there is none at all.
pub fn select_port(names: &[String], filter: Option<&str>) -> (r: Option<usize>)
    ensures
        match r {
            None => names@.len() == 0,
            Some(k) => names@.len() > 0 && k == (match filter {
                Some(f) => if first_holding(names@, f@) < names@.len() {
                    first_holding(names@, f@)
                } else {
                    0
                },
                None => 0,
            }),
        },
{
    let n: usize = names.len();
    if n == 0 {
        return None;
    }
    let f = match filter {
        Some(f) => f,
        None => {
            return Some(0);
        },
    };
    let mut k: usize = 0;
    while k < n
        invariant
            k <= n,
            n == names@.len(),
            filter == Some(f),
            n > 0,
            forall|i: int| 0 <= i < k ==> !contains((#[trigger] names@[i])@, f@),
        decreases n - k,
    {
        let v = chars_of(names[k].as_str());
        if has_part(&v, f) {
            proof {
                lemma_first_holding(names@, f@, k as int);
            }
            return Some(k);
        }
        k += 1;
    }
    proof {
        lemma_first_holding(names@, f@, n as int);
    }
    Some(0)
}

/// What a message does to a queue and the taps once it has been shifted. Shorter
/// messages than three bytes are nobody's, and so are notes shifted off the end.
pub open spec fn arrived(bytes: Seq<u8>, octaves: int, held: Seq<i8>) -> Option<Seq<u8>> {
    if bytes.len() < 3 {
        None
    } else {
        shifted(bytes.take(3), octaves, held)
    }
}

/// The message that a keyboard's bytes make, with the octave shift applied.
pub fn arrive(bytes: &[u8], octave_shift: &OctaveShift, held_shift: &mut [i8; 128]) -> (r: Option<
    [u8; 3],
>)
    ensures
        final(held_shift)@ == (if bytes@.len() < 3 {
            old(held_shift)@
        } else {
            held_after(bytes@.take(3), octave_shift.octaves as int, old(held_shift)@)
        }),
        match r {
            Some(msg) => arrived(bytes@, octave_shift.octaves as int, old(held_shift)@) == Some(
                msg@,
            ),
            None => arrived(bytes@, octave_shift.octaves as int, old(held_shift)@) is None,
        },
{
    if bytes.len() < 3 {
        return None;
    }
    let msg: [u8; 3] = [bytes[0], bytes[1], bytes[2]];
    assert(msg@ =~= bytes@.take(3));
    shift_octaves(msg, octave_shift, held_shift)
}

/// One message of the keyboard: the queue and every listening tap get it. Returns
/// whether it was a message at all.
pub fn take_in(
    bytes: &[u8],
    octave_shift: &OctaveShift,
    held_shift: &mut [i8; 128],
    queue: &mut MidiEventQueue,
    taps: &mut MidiTaps,
    stamp: u64,
) -> (r: Option<[u8; 3]>)
    requires
        old(taps).wf(),
    ensures
        final(taps).wf(),
        final(taps).next() == old(taps).next(),
        final(held_shift)@ == (if bytes@.len() < 3 {
            old(held_shift)@
        } else {
            held_after(bytes@.take(3), octave_shift.octaves as int, old(held_shift)@)
        }),
        match r {
            Some(msg) => {
                &&& arrived(bytes@, octave_shift.octaves as int, old(held_shift)@) == Some(msg@)
                &&& final(queue)@ == queued(old(queue)@, msg)
                &&& final(taps)@ == old(taps)@.map_values(|t: TapView| tapped(t, stamp, msg))
            },
            None => {
                &&& arrived(bytes@, octave_shift.octaves as int, old(held_shift)@) is None
                &&& final(queue)@ == old(queue)@
                &&& final(taps)@ == old(taps)@
            },
        },
{
    match arrive(bytes, octave_shift, held_shift) {
        Some(msg) => {
            queue.push(msg);
            tap(taps, stamp, msg);
            Some(msg)
        },
        None => None,
    }
}

/// A key that goes down comes out twelve semitones further along for every octave
/// that the picker stands at, up to four either way, and not at all where that is
/// off the end of MIDI. A picker that stands further out counts as four. The
/// status and the velocity stay as they were.
pub proof fn law_a_press_moves_by_octaves(m: Seq<u8>, octaves: int, held: Seq<i8>)
    requires
        m.len() == 3,
        m[0] / 16 == 9,
        m[2] > 0,
        held.len() == 128,
    ensures
        MAX_OCTAVE_SHIFT == 4,
        -4 <= octaves <= 4 && 0 <= m[1] as int % 128 + 12 * octaves <= 127 ==> shifted(
            m,
            octaves,
            held,
        ) == Some(seq![m[0], (m[1] as int % 128 + 12 * octaves) as u8, m[2]]),
        -4 <= octaves <= 4 && !(0 <= m[1] as int % 128 + 12 * octaves <= 127) ==> shifted(
            m,
            octaves,
            held,
        ) is None,
        octaves > 4 ==> shifted(m, octaves, held) == shifted(m, 4, held),
        octaves < -4 ==> shifted(m, octaves, held) == shifted(m, -4, held),
{
    if let Some(out) = shifted(m, octaves, held) {
        assert(out =~= seq![m[0], out[1], m[2]]);
    }
}

/// A key that goes up, or whose pressure changes, comes out as far along as its
/// press did: by what the key holds, wherever the picker stands now.
pub proof fn law_other_key_messages_move_by_what_is_held(m: Seq<u8>, octaves: int, held: Seq<i8>)
    requires
        m.len() == 3,
        m[0] / 16 == 8 || m[0] / 16 == 10 || (m[0] / 16 == 9 && m[2] == 0),
        held.len() == 128,
    ensures
        ({
            let to = m[1] as int % 128 + held[m[1] as int % 128];
            if 0 <= to <= 127 {
                shifted(m, octaves, held) == Some(seq![m[0], to as u8, m[2]])
            } else {
                shifted(m, octaves, held) is None
            }
        }),
        held_after(m, octaves, held) == held,
{
    if let Some(out) = shifted(m, octaves, held) {
        assert(out =~= seq![m[0], out[1], m[2]]);
    }
}

/// What names no key passes as it is, and no key holds anything else after it.
pub proof fn law_what_names_no_key_passes(m: Seq<u8>, octaves: int, held: Seq<i8>)
    requires
        m.len() == 3,
        held.len() == 128,
        m[0] < 0x80 || m[0] >= 0xB0,
    ensures
        shifted(m, octaves, held) == Some(m),
        held_after(m, octaves, held) == held,
{
}

/// A press is remembered for its own key and changes what no other key holds.
pub proof fn law_a_press_is_remembered_for_its_key(m: Seq<u8>, octaves: int, held: Seq<i8>)
    requires
        m.len() == 3,
        m[0] / 16 == 9,
        m[2] > 0,
        held.len() == 128,
    ensures
        held_after(m, octaves, held).len() == 128,
        -4 <= octaves <= 4 ==> held_after(m, octaves, held)[m[1] as int % 128] == 12 * octaves,
        forall|k: int|
            0 <= k < 128 && k != m[1] as int % 128 ==> #[trigger] held_after(m, octaves, held)[k]
                == held[k],
{
}

/// What a queue holds after a run of messages.
pub open spec fn queued_through(q: Seq<[u8; 3]>, log: Seq<[u8; 3]>) -> Seq<[u8; 3]>
    decreases log.len(),
{
    if log.len() == 0 {
        q
    } else {
        queued(queued_through(q, log.drop_last()), log.last())
    }
}

/// A queue that was empty holds every message since, in order, or the newest 1024
/// of them.
pub proof fn law_a_queue_holds_the_newest(log: Seq<[u8; 3]>)
    ensures
        queued_through(Seq::empty(), log) == log.skip(
            if log.len() <= 1024 {
                0
            } else {
                log.len() - 1024
            },
        ),
    decreases log.len(),
{
    if log.len() > 0 {
        let front = log.drop_last();
        law_a_queue_holds_the_newest(front);
        let before = queued_through(Seq::empty(), front);
        if log.len() <= 1024 {
            assert(front.skip(0) =~= front);
            assert(queued(before, log.last()) =~= log.skip(0));
        } else {
            let k = log.len() - 1024;
            assert(before.len() == (if front.len() <= 1024 {
                front.len() as int
            } else {
                1024
            }));
            assert(queued(before, log.last()) =~= log.skip(k));
        }
    } else {
        assert(log.skip(0) =~= Seq::empty());
    }
}

/// A message reaches every tap that is listening and has room, and no other; what
/// a tap heard before stays, and no tap is opened, closed or named anew by it.
pub proof fn law_a_message_reaches_every_listener(t: TapView, stamp: u64, msg: [u8; 3])
    ensures
        MAX_TAPPED_EVENTS == 65_536,
        tapped(t, stamp, msg).id == t.id,
        tapped(t, stamp, msg).open == t.open,
        t.open && t.events.len() < 65_536 ==> tapped(t, stamp, msg).events == t.events.push(
            (stamp, msg),
        ),
        !t.open || t.events.len() >= 65_536 ==> tapped(t, stamp, msg).events == t.events,
{
}

/// The place of an id is that of the tap that has it: taps differ in their ids, so
/// there is one at most. An id that no tap has is past the end.
pub proof fn law_a_tap_is_found_by_its_id(s: Seq<TapView>, id: u64)
    ensures
        0 <= tap_place(s, id) <= s.len(),
        (exists|k: int| 0 <= k < s.len() && (#[trigger] s[k]).id == id) <==> tap_place(s, id)
            < s.len(),
        tap_place(s, id) < s.len() ==> s[tap_place(s, id)].id == id,
        forall|k: int|
            0 <= k < s.len() && (#[trigger] s[k]).id == id ==> tap_place(s, id) <= k,
{
    lemma_tap_place(s, id);
}

/// Sweeping keeps every tap whose owner is there, and only those, in order.
pub proof fn law_sweeping_keeps_who_listens(s: Seq<TapView>)
    ensures
        forall|t: TapView| #[trigger] listening(s).contains(t) <==> s.contains(t) && t.open,
        (forall|k: int| 0 <= k < s.len() ==> (#[trigger] s[k]).open) ==> listening(s) == s,
{
    crate::order::lemma_filter(s, |t: TapView| t.open);
    if forall|k: int| 0 <= k < s.len() ==> (#[trigger] s[k]).open {
        lemma_all_listen(s);
    }
}

proof fn lemma_all_listen(s: Seq<TapView>)
    requires
        forall|k: int| 0 <= k < s.len() ==> (#[trigger] s[k]).open,
    ensures
        listening(s) == s,
    decreases s.len(),
{
    reveal(Seq::filter);
    if s.len() > 0 {
        let front = s.drop_last();
        assert forall|k: int| 0 <= k < front.len() implies (#[trigger] front[k]).open by {
            assert(front[k] == s[k]);
        }
        lemma_all_listen(front);
        assert(s.last() == s[s.len() - 1]);
        assert(front.push(s.last()) =~= s);
    } else {
        assert(listening(s) =~= s);
    }
}

/// A port is listed exactly when it is there and its name, in lower case, holds
/// none of the words by which a software port is known.
pub proof fn law_only_software_ports_are_left_out(names: Seq<Seq<char>>, name: Seq<char>)
    ensures
        keyboards(names).contains(name) <==> names.contains(name) && !contains(
            lowercase(name),
            "through"@,
        ) && !contains(lowercase(name), "virtual"@) && !contains(lowercase(name), "rtpmidi"@),
        keyboards(names).len() <= names.len(),
{
    crate::order::lemma_filter(names, |n: Seq<char>| looks_like_a_keyboard(n));
}

/// The port that is meant is the first whose name holds the text; there is one
/// exactly where the place is not past the end.
pub proof fn law_the_first_port_that_holds_the_text(names: Seq<String>, part: Seq<char>)
    ensures
        0 <= first_holding(names, part) <= names.len(),
        first_holding(names, part) < names.len() ==> contains(
            names[first_holding(names, part)]@,
            part,
        ),
        forall|i: int|
            0 <= i < names.len() && contains((#[trigger] names[i])@, part) ==> first_holding(
                names,
                part,
            ) <= i,
    decreases names.len(),
{
    if names.len() > 0 && !contains(names[0]@, part) {
        let rest = names.skip(1);
        law_the_first_port_that_holds_the_text(rest, part);
        assert forall|i: int| 0 <= i < names.len() && contains(
            (#[trigger] names[i])@,
            part,
        ) implies first_holding(names, part) <= i by {
            if i > 0 {
                assert(rest[i - 1] == names[i]);
            }
        }
    }
}

/// What a keyboard's bytes make of a message is what their first three make; fewer
/// make none.
pub proof fn law_three_bytes_make_a_message(bytes: Seq<u8>, octaves: int, held: Seq<i8>)
    ensures
        bytes.len() < 3 ==> arrived(bytes, octaves, held) is None,
        bytes.len() >= 3 ==> arrived(bytes, octaves, held) == shifted(
            seq![bytes[0], bytes[1], bytes[2]],
            octaves,
            held,
        ),
{
    if bytes.len() >= 3 {
        assert(bytes.take(3) =~= seq![bytes[0], bytes[1], bytes[2]]);
    }
}

} // verus!
