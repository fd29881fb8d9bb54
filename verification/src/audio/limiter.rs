//! The stream of the limiter: chunks cut out of what comes in, and what is due
//! to go out, a fixed delay behind.
//!
//! A chunk is held until the peak of the one after it is known, and then played
//! out under a gain; what the gain is, is worked out elsewhere. The stream is
//! primed with two chunks of silence, and that is its delay.

use vstd::prelude::*;

use std::collections::VecDeque;

verus! {

/// A stream cut into chunks. Samples are interleaved, as the bits of the numbers.
#[derive(Debug)]
pub struct Lookahead {
    channels: usize,
    /// Frames per chunk.
    chunk: usize,
    /// Input not yet forming a whole chunk.
    pending: Vec<u32>,
    /// The chunk waiting for the one after it.
    held: Option<Vec<u32>>,
    /// Output waiting to be handed back.
    out: VecDeque<u32>,
}

/// The stream, as the contracts see it.
pub ghost struct StreamView {
    /// Samples per chunk.
    pub span: int,
    pub pending: Seq<u32>,
    pub held: Option<Seq<u32>>,
    pub out: Seq<u32>,
}

/// How many samples a stream holds.
pub open spec fn balance(v: StreamView) -> int {
    v.out.len() + v.pending.len() + match v.held {
        Some(h) => h.len() as int,
        None => 0,
    }
}

/// What stays true of a stream while it is fed: no chunk is left whole, and what
/// is held is one.
pub open spec fn stream_wf(v: StreamView) -> bool {
    &&& v.span > 0
    &&& v.pending.len() < v.span
    &&& v.held matches Some(h) ==> h.len() == v.span
}

/// The chunks that a run of samples completes behind what is pending.
pub open spec fn chunks_of(pending: Seq<u32>, data: Seq<u32>, span: int) -> Seq<Seq<u32>>
    decreases data.len(),
{
    if data.len() == 0 {
        Seq::empty()
    } else {
        let front = chunks_of(pending, data.drop_last(), span);
        let rest = rest_of(pending, data.drop_last(), span);
        if rest.len() + 1 == span {
            front.push(rest.push(data.last()))
        } else {
            front
        }
    }
}

/// What is pending behind the last whole chunk.
pub open spec fn rest_of(pending: Seq<u32>, data: Seq<u32>, span: int) -> Seq<u32>
    decreases data.len(),
{
    if data.len() == 0 {
        pending
    } else {
        let rest = rest_of(pending, data.drop_last(), span);
        if rest.len() + 1 == span {
            Seq::empty()
        } else {
            rest.push(data.last())
        }
    }
}

/// What chunks hold.
pub open spec fn chunks_view(s: Seq<Vec<u32>>) -> Seq<Seq<u32>> {
    s.map_values(|c: Vec<u32>| c@)
}

impl Lookahead {
    /// What the stream holds.
    pub closed spec fn view(&self) -> StreamView {
        StreamView {
            span: self.chunk * self.channels,
            pending: self.pending@,
            held: match self.held {
                Some(h) => Some(h@),
                None => None,
            },
            out: self.out@,
        }
    }

    /// How many frames a chunk has.
    pub closed spec fn chunk_frames(&self) -> usize {
        self.chunk
    }

    /// Its own limits hold.
    pub closed spec fn wf(&self) -> bool {
        self.chunk * self.channels <= usize::MAX / 2 && stream_wf(self@)
    }

    /// A stream of `channels` channels in chunks of `chunk` frames, primed with
    /// its delay in silence.
    pub fn new(channels: usize, chunk: usize) -> (r: Lookahead)
        requires
            (if chunk == 0 {
                1
            } else {
                chunk as int
            }) * (if channels == 0 {
                1
            } else {
                channels as int
            }) <= usize::MAX / 2,
        ensures
            r.wf(),
            stream_wf(r@),
            r.chunk_frames() == (if chunk == 0 {
                1
            } else {
                chunk
            }),
            r@.span == r.chunk_frames() * (if channels == 0 {
                1
            } else {
                channels as int
            }),
            r@.pending.len() == 0,
            r@.held is None,
            r@.out == Seq::new((2 * r@.span) as nat, |i: int| 0u32),
    {
        let channels: usize = if channels == 0 {
            1
        } else {
            channels
        };
        let chunk: usize = if chunk == 0 {
            1
        } else {
            chunk
        };
        let span: usize = chunk * channels;
        assert(span > 0) by (nonlinear_arith)
            requires
                span == chunk * channels,
                chunk > 0,
                channels > 0,
        ;
        let mut out: VecDeque<u32> = VecDeque::new();
        let mut k: usize = 0;
        while k < 2 * span
            invariant
                k <= 2 * span,
                span <= usize::MAX / 2,
                out@ == Seq::new(k as nat, |i: int| 0u32),
            decreases 2 * span - k,
        {
            out.push_back(0);
            k += 1;
            assert(out@ =~= Seq::new(k as nat, |i: int| 0u32));
        }
        Lookahead { channels, chunk, pending: Vec::new(), held: None, out }
    }

    /// How far behind its input the output runs, in frames.
    pub fn latency_frames(&self) -> (r: usize)
        requires
            self.wf(),
        ensures
            r == 2 * self.chunk_frames(),
    {
        assert(self.chunk <= self.chunk * self.channels) by (nonlinear_arith)
            requires
                self.chunk * self.channels > 0,
        ;
        2 * self.chunk
    }

    /// Take samples in: the chunks they complete, in order.
    pub fn feed(&mut self, data: &[u32]) -> (r: Vec<Vec<u32>>)
        requires
            old(self).wf(),
        ensures
            final(self).wf(),
            stream_wf(old(self)@),
            chunks_view(r@) == chunks_of(old(self)@.pending, data@, old(self)@.span),
            final(self)@ == (StreamView {
                pending: rest_of(old(self)@.pending, data@, old(self)@.span),
                ..old(self)@
            }),
            final(self).chunk_frames() == old(self).chunk_frames(),
    {
        let ghost p = self.pending@;
        let span: usize = self.chunk * self.channels;
        let n: usize = data.len();
        let mut chunks: Vec<Vec<u32>> = Vec::new();
        let mut k: usize = 0;
        assert(chunks_view(chunks@) =~= chunks_of(p, data@.take(0), span as int));
        while k < n
            invariant
                k <= n,
                n == data@.len(),
                span == self.chunk * self.channels,
                0 < span <= usize::MAX / 2,
                self.chunk == old(self).chunk,
                self.channels == old(self).channels,
                self.held == old(self).held,
                self.out == old(self).out,
                self.pending@.len() < span,
                self.pending@ == rest_of(p, data@.take(k as int), span as int),
                chunks_view(chunks@) == chunks_of(p, data@.take(k as int), span as int),
            decreases n - k,
        {
            let ghost before = chunks_view(chunks@);
            proof {
                let t = data@.take(k + 1);
                assert(t.drop_last() =~= data@.take(k as int));
                assert(t.last() == data@[k as int]);
            }
            self.pending.push(data[k]);
            if self.pending.len() == span {
                let mut whole: Vec<u32> = Vec::new();
                std::mem::swap(&mut whole, &mut self.pending);
                let ghost w = whole@;
                chunks.push(whole);
                assert(chunks_view(chunks@) =~= before.push(w));
                assert(self.pending@ =~= Seq::<u32>::empty());
            }
            k += 1;
        }
        assert(data@.take(n as int) =~= data@);
        chunks
    }

    /// Hold a chunk, and give back the one that was held: it is due.
    pub fn hold(&mut self, chunk: Vec<u32>) -> (r: Option<Vec<u32>>)
        requires
            old(self).wf(),
            chunk@.len() == old(self)@.span,
        ensures
            final(self).wf(),
            final(self)@ == (StreamView { held: Some(chunk@), ..old(self)@ }),
            final(self).chunk_frames() == old(self).chunk_frames(),
            match (r, old(self)@.held) {
                (Some(c), Some(h)) => c@ == h,
                (None, None) => true,
                _ => false,
            },
    {
        let mut due: Option<Vec<u32>> = Some(chunk);
        std::mem::swap(&mut due, &mut self.held);
        due
    }

    /// Queue a chunk that has been played out under its gain.
    pub fn play_out(&mut self, samples: &Vec<u32>)
        requires
            old(self).wf(),
        ensures
            final(self).wf(),
            final(self)@ == (StreamView { out: old(self)@.out + samples@, ..old(self)@ }),
            final(self).chunk_frames() == old(self).chunk_frames(),
    {
        let ghost was = self.out@;
        let n: usize = samples.len();
        let mut k: usize = 0;
        assert(was + samples@.take(0) =~= was);
        while k < n
            invariant
                k <= n,
                n == samples@.len(),
                self.chunk == old(self).chunk,
                self.channels == old(self).channels,
                self.held == old(self).held,
                self.pending == old(self).pending,
                self.out@ == was + samples@.take(k as int),
            decreases n - k,
        {
            self.out.push_back(samples[k]);
            assert(samples@.take(k + 1) =~= samples@.take(k as int).push(samples@[k as int]));
            assert(self.out@ =~= was + samples@.take(k + 1));
            k += 1;
        }
        assert(samples@.take(n as int) =~= samples@);
    }

    /// How many samples are due.
    pub fn ready(&self) -> (r: usize)
        ensures
            r == self@.out.len(),
    {
        self.out.len()
    }

    /// Hand back the next samples due.
    pub fn take_out(&mut self, n: usize) -> (r: Vec<u32>)
        requires
            old(self).wf(),
            n <= old(self)@.out.len(),
        ensures
            final(self).wf(),
            r@ == old(self)@.out.take(n as int),
            final(self)@ == (StreamView { out: old(self)@.out.skip(n as int), ..old(self)@ }),
            final(self).chunk_frames() == old(self).chunk_frames(),
    {
        let ghost all = self.out@;
        let mut out: Vec<u32> = Vec::new();
        while out.len() < n
            invariant
                n <= all.len(),
                out@.len() <= n,
                self.chunk == old(self).chunk,
                self.channels == old(self).channels,
                self.held == old(self).held,
                self.pending == old(self).pending,
                out@ == all.take(out@.len() as int),
                self.out@ == all.skip(out@.len() as int),
            decreases n - out@.len(),
        {
            let ghost k = out@.len() as int;
            if let Some(s) = self.out.pop_front() {
                out.push(s);
                assert(all.take(k + 1) =~= all.take(k).push(all[k]));
                assert(all.skip(k).skip(1) =~= all.skip(k + 1));
                assert(self.out@ =~= all.skip(k + 1));
            }
        }
        out
    }
}

proof fn lemma_cut(pending: Seq<u32>, data: Seq<u32>, span: int)
    requires
        pending.len() < span,
    ensures
        rest_of(pending, data, span).len() < span,
        forall|i: int|
            0 <= i < chunks_of(pending, data, span).len() ==> (#[trigger] chunks_of(
                pending,
                data,
                span,
            )[i]).len() == span,
        chunks_of(pending, data, span).len() * span + rest_of(pending, data, span).len()
            == pending.len() + data.len(),
    decreases data.len(),
{
    if data.len() > 0 {
        lemma_cut(pending, data.drop_last(), span);
        let k = chunks_of(pending, data.drop_last(), span).len() as int;
        assert((k + 1) * span == k * span + span) by (nonlinear_arith);
    }
}

/// How a stream is cut up does not depend on the blocks it comes in: two blocks
/// one after the other make the chunks, and leave the rest, that one block of
/// both makes and leaves.
pub proof fn law_blocks_do_not_matter(pending: Seq<u32>, a: Seq<u32>, b: Seq<u32>, span: int)
    ensures
        chunks_of(pending, a + b, span) == chunks_of(pending, a, span) + chunks_of(
            rest_of(pending, a, span),
            b,
            span,
        ),
        rest_of(pending, a + b, span) == rest_of(rest_of(pending, a, span), b, span),
    decreases b.len(),
{
    if b.len() == 0 {
        assert(a + b =~= a);
        assert(chunks_of(pending, a, span) + Seq::<Seq<u32>>::empty() =~= chunks_of(
            pending,
            a,
            span,
        ));
    } else {
        assert((a + b).drop_last() =~= a + b.drop_last());
        law_blocks_do_not_matter(pending, a, b.drop_last(), span);
        let first = chunks_of(pending, a, span);
        let rest = rest_of(pending, a, span);
        let second = chunks_of(rest, b.drop_last(), span);
        let last = rest_of(rest, b.drop_last(), span).push(b.last());
        assert((first + second).push(last) =~= first + second.push(last));
    }
}

/// A stream after a chunk has been held and the one that was held before it, if
/// there was one, has been played out as `played`.
pub open spec fn passed_on(v: StreamView, chunk: Seq<u32>, played: Seq<u32>) -> StreamView {
    StreamView {
        held: Some(chunk),
        out: if v.held is Some {
            v.out + played
        } else {
            v.out
        },
        ..v
    }
}

/// A stream after chunks have been passed on one by one.
pub open spec fn all_passed_on(
    v: StreamView,
    chunks: Seq<Seq<u32>>,
    played: Seq<Seq<u32>>,
) -> StreamView
    decreases chunks.len(),
{
    if chunks.len() == 0 {
        v
    } else {
        passed_on(
            all_passed_on(v, chunks.drop_last(), played.drop_last()),
            chunks.last(),
            played.last(),
        )
    }
}

/// A stream after a block has been fed to it and every chunk that it completed
/// has been passed on, whatever gain each was played out under.
pub open spec fn processed(v: StreamView, data: Seq<u32>, played: Seq<Seq<u32>>) -> StreamView {
    all_passed_on(
        StreamView { pending: rest_of(v.pending, data, v.span), ..v },
        chunks_of(v.pending, data, v.span),
        played,
    )
}

/// Whether there is something to play out for every chunk that a block
/// completes, as many samples as a chunk has.
pub open spec fn plays_all(v: StreamView, data: Seq<u32>, played: Seq<Seq<u32>>) -> bool {
    &&& played.len() == chunks_of(v.pending, data, v.span).len()
    &&& forall|i: int| 0 <= i < played.len() ==> (#[trigger] played[i]).len() == v.span
}

/// A stream after a block has been taken in: what came in is held, pending or
/// due, sample for sample.
pub open spec fn taken_in(v: StreamView, data: Seq<u32>, after: StreamView) -> bool {
    &&& after.span == v.span
    &&& after.pending == rest_of(v.pending, data, v.span)
    &&& stream_wf(after)
    &&& balance(after) == balance(v) + data.len()
}

proof fn lemma_all_passed_on(v: StreamView, chunks: Seq<Seq<u32>>, played: Seq<Seq<u32>>)
    requires
        stream_wf(v),
        played.len() == chunks.len(),
        forall|i: int| 0 <= i < chunks.len() ==> (#[trigger] chunks[i]).len() == v.span,
        forall|i: int| 0 <= i < played.len() ==> (#[trigger] played[i]).len() == v.span,
    ensures
        ({
            let after = all_passed_on(v, chunks, played);
            &&& after.span == v.span
            &&& after.pending == v.pending
            &&& stream_wf(after)
            &&& balance(after) == balance(v) + chunks.len() * v.span
        }),
    decreases chunks.len(),
{
    if chunks.len() > 0 {
        let c = chunks.drop_last();
        let p = played.drop_last();
        assert(forall|i: int| 0 <= i < c.len() ==> #[trigger] c[i] == chunks[i]);
        assert(forall|i: int| 0 <= i < p.len() ==> #[trigger] p[i] == played[i]);
        lemma_all_passed_on(v, c, p);
        assert(chunks[chunks.len() - 1].len() == v.span);
        assert(played[played.len() - 1].len() == v.span);
        assert(chunks.len() * v.span == c.len() * v.span + v.span) by (nonlinear_arith)
            requires
                chunks.len() == c.len() + 1,
        ;
    }
}

/// A block that is fed to a stream and passed on, chunk by chunk, is taken in
/// sample for sample.
pub proof fn law_a_block_is_taken_in(v: StreamView, data: Seq<u32>, played: Seq<Seq<u32>>)
    requires
        stream_wf(v),
        plays_all(v, data, played),
    ensures
        taken_in(v, data, processed(v, data, played)),
{
    lemma_cut(v.pending, data, v.span);
    let fed = StreamView { pending: rest_of(v.pending, data, v.span), ..v };
    lemma_all_passed_on(fed, chunks_of(v.pending, data, v.span), played);
}

/// A stream that holds its delay is never short: once a block has been fed to it
/// and passed on, as many samples are due as came in, and it holds its delay again
/// when they have been handed back.
pub proof fn law_the_stream_is_never_short(v: StreamView, data: Seq<u32>, played: Seq<Seq<u32>>)
    requires
        stream_wf(v),
        balance(v) == 2 * v.span,
        plays_all(v, data, played),
    ensures
        ({
            let after = processed(v, data, played);
            &&& after.out.len() >= data.len()
            &&& stream_wf(after)
            &&& balance(StreamView { out: after.out.skip(data.len() as int), ..after }) == 2
                * v.span
        }),
{
    law_a_block_is_taken_in(v, data, played);
}

/// Holding a chunk and playing out the one before it keeps every sample.
pub proof fn law_a_chunk_is_neither_lost_nor_doubled(
    v: StreamView,
    chunk: Seq<u32>,
    played: Seq<u32>,
)
    requires
        stream_wf(v),
        chunk.len() == v.span,
        played.len() == v.span,
    ensures
        stream_wf(passed_on(v, chunk, played)),
        balance(passed_on(v, chunk, played)) == balance(v) + v.span,
{
}

/// The chunks that a block completes and what it leaves pending are as many
/// samples as were pending and came in.
pub proof fn law_cutting_keeps_every_sample(pending: Seq<u32>, data: Seq<u32>, span: int)
    requires
        pending.len() < span,
    ensures
        rest_of(pending, data, span).len() < span,
        chunks_of(pending, data, span).len() * span + rest_of(pending, data, span).len()
            == pending.len() + data.len(),
{
    lemma_cut(pending, data, span);
}

/// Cutting changes no sample and no order: the chunks one after the other, and then
/// what is left, are what was pending and then what came. Every chunk is whole.
pub proof fn law_cutting_changes_no_sample(pending: Seq<u32>, data: Seq<u32>, span: int)
    requires
        pending.len() < span,
    ensures
        chunks_of(pending, data, span).flatten() + rest_of(pending, data, span) == pending + data,
        forall|k: int|
            0 <= k < chunks_of(pending, data, span).len() ==> (#[trigger] chunks_of(
                pending,
                data,
                span,
            )[k]).len() == span,
        rest_of(pending, data, span).len() < span,
    decreases data.len(),
{
    if data.len() == 0 {
        assert(chunks_of(pending, data, span).flatten() =~= Seq::<u32>::empty());
        assert(Seq::<u32>::empty() + pending =~= pending + data);
    } else {
        let init = data.drop_last();
        law_cutting_changes_no_sample(pending, init, span);
        let front = chunks_of(pending, init, span);
        let rest = rest_of(pending, init, span);
        assert(pending + data =~= (pending + init).push(data.last()));
        if rest.len() + 1 == span {
            front.lemma_flatten_push(rest.push(data.last()));
            assert(chunks_of(pending, data, span).flatten() + Seq::<u32>::empty() =~= (
            front.flatten() + rest).push(data.last()));
        } else {
            assert(front.flatten() + rest.push(data.last()) =~= (front.flatten() + rest).push(
                data.last(),
            ));
        }
    }
}

/// Of chunks that are passed on, the last is held, and what is played of the others
/// goes out behind what was there, in order: each chunk lets the one before it go, so
/// the first lets none go where none was held.
pub proof fn law_each_chunk_lets_the_one_before_go(
    v: StreamView,
    chunks: Seq<Seq<u32>>,
    played: Seq<Seq<u32>>,
)
    requires
        chunks.len() == played.len(),
    ensures
        all_passed_on(v, chunks, played).held == (if chunks.len() > 0 {
            Some(chunks.last())
        } else {
            v.held
        }),
        all_passed_on(v, chunks, played).out == v.out + (if v.held is Some || chunks.len() == 0 {
            played
        } else {
            played.skip(1)
        }).flatten(),
        all_passed_on(v, chunks, played).pending == v.pending,
        all_passed_on(v, chunks, played).span == v.span,
    decreases chunks.len(),
{
    if chunks.len() == 0 {
        assert(played.flatten() =~= Seq::empty());
        assert(v.out + played.flatten() =~= v.out);
    } else {
        let c = chunks.drop_last();
        let p = played.drop_last();
        law_each_chunk_lets_the_one_before_go(v, c, p);
        let w = all_passed_on(v, c, p);
        if v.held is Some {
            assert(played =~= p.push(played.last()));
            p.lemma_flatten_push(played.last());
            assert((v.out + p.flatten()) + played.last() =~= v.out + (p.flatten()
                + played.last()));
        } else if c.len() == 0 {
            assert(played.skip(1) =~= Seq::empty());
            assert(p =~= Seq::empty());
            assert(v.out + Seq::<Seq<u32>>::empty().flatten() =~= v.out);
        } else {
            assert(played.skip(1) =~= p.skip(1).push(played.last()));
            p.skip(1).lemma_flatten_push(played.last());
            assert((v.out + p.skip(1).flatten()) + played.last() =~= v.out + (p.skip(1).flatten()
                + played.last()));
        }
    }
}

/// What is in hand is what waits to be played, what waits for a chunk and what is
/// held, together.
pub proof fn law_what_is_in_hand(v: StreamView)
    ensures
        v.held is Some ==> balance(v) == v.out.len() + v.pending.len() + (v.held->0).len(),
        v.held is None ==> balance(v) == v.out.len() + v.pending.len(),
{
}

} // verus!
