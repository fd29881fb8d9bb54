//! Decoding an audio file into one mono stream: which track of the file is
//! taken, which of its packets, and when the stream ends.

use vstd::prelude::*;

verus! {

/// The rate of a track that does not say.
pub const PLAIN_RATE: u32 = 44_100;

/// What a file says of one of its tracks.
#[derive(Clone, Copy, PartialEq, Eq, Debug, Structural)]
pub struct MediaTrack {
    pub id: u32,
    /// Whether it names a codec at all.
    pub coded: bool,
    pub rate: Option<u32>,
}

/// A decoded clip, mixed down to one channel.
#[derive(Clone, Debug)]
pub struct DecodedAudio {
    /// The bits of each sample.
    pub samples: Vec<u32>,
    pub sample_rate: u32,
}

/// Why a file could not be decoded.
#[derive(Clone, Copy, PartialEq, Eq, Debug, Structural)]
pub enum DecodeError {
    /// No track names a codec.
    NoTrack,
    /// Nothing came out of it.
    NoSamples,
}

/// What a failure reads like, given how the file's path is written.
pub open spec fn decode_text(e: DecodeError, path: Seq<char>) -> Seq<char> {
    match e {
        DecodeError::NoTrack => "No decodable audio track found"@,
        DecodeError::NoSamples => "Decoded zero samples from "@ + path,
    }
}

impl DecodeError {
    /// What it reads like, given how the file's path is written.
    pub fn message(&self, path: &str) -> (r: String)
        ensures
            r@ == decode_text(*self, path@),
    {
        match self {
            DecodeError::NoTrack => "No decodable audio track found".to_owned(),
            DecodeError::NoSamples => {
                let mut out = "Decoded zero samples from ".to_owned();
                out.append(path);
                out
            },
        }
    }
}

/// What came of asking a file for its next packet.
#[derive(Clone, Copy, PartialEq, Eq, Debug, Structural)]
pub enum Packet {
    /// There is none: the stream has ended.
    End,
    /// One of the track with this id.
    Of { track: u32 },
}

/// What to do with it.
#[derive(Clone, Copy, PartialEq, Eq, Debug, Structural)]
pub enum Step {
    Stop,
    Skip,
    Decode,
}

/// What came of decoding a packet.
#[derive(Clone, Debug)]
pub enum Outcome {
    /// A sample for each of its frames, as bits, and the rate it runs at.
    Samples { rate: u32, mono: Vec<u32> },
    /// The packet is damaged.
    Damaged,
    /// Nothing more can be had from the decoder.
    Failed,
}

/// Where the first track with a codec stands, or how many tracks there are.
pub open spec fn coded_place(tracks: Seq<MediaTrack>) -> int
    decreases tracks.len(),
{
    if tracks.len() == 0 || tracks[0].coded {
        0
    } else {
        1 + coded_place(tracks.skip(1))
    }
}

/// The samples of the packets decoded so far, in order.
pub open spec fn stream_of(outcomes: Seq<Outcome>) -> Seq<u32>
    decreases outcomes.len(),
{
    if outcomes.len() == 0 {
        Seq::empty()
    } else {
        match outcomes.last() {
            Outcome::Samples { mono, .. } => stream_of(outcomes.drop_last()) + mono@,
            _ => stream_of(outcomes.drop_last()),
        }
    }
}

/// The rate of the last packet that could be decoded, or `first` before any.
pub open spec fn rate_of(first: u32, outcomes: Seq<Outcome>) -> u32
    decreases outcomes.len(),
{
    if outcomes.len() == 0 {
        first
    } else {
        match outcomes.last() {
            Outcome::Samples { rate, .. } => rate,
            _ => rate_of(first, outcomes.drop_last()),
        }
    }
}

/// A file while it is being decoded.
#[derive(Clone, Debug)]
pub struct Decoding {
    pub track: u32,
    pub sample_rate: u32,
    pub mono: Vec<u32>,
}

impl Decoding {
    /// Start on the first track with a codec. Gives where it stands, too.
    pub fn new(tracks: &Vec<MediaTrack>) -> (r: Result<(usize, Decoding), DecodeError>)
        ensures
            match r {
                Ok((k, d)) => {
                    &&& k == coded_place(tracks@) < tracks@.len()
                    &&& d.track == tracks@[k as int].id
                    &&& d.sample_rate == (match tracks@[k as int].rate {
                        Some(rate) => rate,
                        None => PLAIN_RATE,
                    })
                    &&& d.mono@ == Seq::<u32>::empty()
                },
                Err(e) => e == DecodeError::NoTrack && coded_place(tracks@) == tracks@.len(),
            },
    {
        let n: usize = tracks.len();
        let mut k: usize = 0;
        assert(tracks@.skip(0) =~= tracks@);
        while k < n
            invariant
                k <= n,
                n == tracks@.len(),
                coded_place(tracks@) == k + coded_place(tracks@.skip(k as int)),
            decreases n - k,
        {
            assert(tracks@.skip(k as int)[0] == tracks@[k as int]);
            if tracks[k].coded {
                let rate: u32 = match tracks[k].rate {
                    Some(rate) => rate,
                    None => PLAIN_RATE,
                };
                return Ok(
                    (k, Decoding { track: tracks[k].id, sample_rate: rate, mono: Vec::new() }),
                );
            }
            assert(tracks@.skip(k as int).skip(1) =~= tracks@.skip(k + 1));
            k += 1;
        }
        Err(DecodeError::NoTrack)
    }

    /// What to do with the next packet: the other tracks' are passed over.
    pub fn on_packet(&self, packet: Packet) -> (r: Step)
        ensures
            r == (match packet {
                Packet::End => Step::Stop,
                Packet::Of { track } => if track == self.track {
                    Step::Decode
                } else {
                    Step::Skip
                },
            }),
    {
        match packet {
            Packet::End => Step::Stop,
            Packet::Of { track } => if track == self.track {
                Step::Decode
            } else {
                Step::Skip
            },
        }
    }

    /// Take in what came of decoding a packet, and say whether to go on: a
    /// damaged packet is passed over, and any other failure ends the stream.
    pub fn on_decoded(&mut self, outcome: Outcome) -> (r: bool)
        ensures
            r == !(outcome is Failed),
            final(self).track == old(self).track,
            final(self).sample_rate == rate_of(old(self).sample_rate, seq![outcome]),
            final(self).mono@ == old(self).mono@ + stream_of(seq![outcome]),
    {
        let ghost one = seq![outcome];
        proof {
            assert(one.last() == outcome);
            assert(one.drop_last() =~= Seq::empty());
            assert(stream_of(one.drop_last()) =~= Seq::empty());
            assert(rate_of(self.sample_rate, one.drop_last()) == self.sample_rate);
        }
        match outcome {
            Outcome::Samples { rate, mono } => {
                let mut mono = mono;
                self.sample_rate = rate;
                assert(stream_of(one) =~= mono@);
                self.mono.append(&mut mono);
                true
            },
            Outcome::Damaged => {
                assert(self.mono@ + stream_of(one) =~= self.mono@);
                true
            },
            Outcome::Failed => {
                assert(self.mono@ + stream_of(one) =~= self.mono@);
                false
            },
        }
    }

    /// The stream, when it has ended.
    pub fn finish(self) -> (r: Result<DecodedAudio, DecodeError>)
        ensures
            match r {
                Ok(a) => {
                    &&& self.mono@.len() > 0
                    &&& a.samples@ == self.mono@
                    &&& a.sample_rate == self.sample_rate
                },
                Err(e) => e == DecodeError::NoSamples && self.mono@.len() == 0,
            },
    {
        if self.mono.len() == 0 {
            Err(DecodeError::NoSamples)
        } else {
            Ok(DecodedAudio { samples: self.mono, sample_rate: self.sample_rate })
        }
    }
}

/// However the packets come, the stream is what the good ones held, one behind
/// the other: a damaged packet leaves no gap in it and no trace of itself.
pub proof fn law_a_damaged_packet_leaves_no_trace(before: Seq<Outcome>, after: Seq<Outcome>)
    ensures
        stream_of(before.push(Outcome::Damaged) + after) == stream_of(before + after),
    decreases after.len(),
{
    let with = before.push(Outcome::Damaged) + after;
    let without = before + after;
    if after.len() == 0 {
        assert(with =~= before.push(Outcome::Damaged));
        assert(without =~= before);
        assert(with.drop_last() =~= before);
    } else {
        law_a_damaged_packet_leaves_no_trace(before, after.drop_last());
        assert(with.drop_last() =~= before.push(Outcome::Damaged) + after.drop_last());
        assert(without.drop_last() =~= before + after.drop_last());
        assert(with.last() == after.last());
        assert(without.last() == after.last());
    }
}

/// The track that is decoded is the first that names a codec, and there is none only
/// where none does.
pub proof fn law_the_first_coded_track_is_decoded(tracks: Seq<MediaTrack>)
    ensures
        0 <= coded_place(tracks) <= tracks.len(),
        coded_place(tracks) < tracks.len() ==> tracks[coded_place(tracks)].coded,
        forall|k: int|
            0 <= k < tracks.len() && (#[trigger] tracks[k]).coded ==> coded_place(tracks) <= k,
        PLAIN_RATE == 44_100,
    decreases tracks.len(),
{
    if tracks.len() > 0 && !tracks[0].coded {
        let rest = tracks.skip(1);
        law_the_first_coded_track_is_decoded(rest);
        assert forall|k: int| 0 <= k < tracks.len() && (
        #[trigger] tracks[k]).coded implies coded_place(tracks) <= k by {
            if k > 0 {
                assert(rest[k - 1] == tracks[k]);
            }
        }
    }
}

/// A stream is the samples of its packets, one packet after the other, and a packet
/// without samples adds none.
pub proof fn law_a_stream_is_its_packets_in_order(outcomes: Seq<Outcome>)
    ensures
        stream_of(outcomes) == outcomes.map_values(
            |o: Outcome|
                match o {
                    Outcome::Samples { rate, mono } => mono@,
                    Outcome::Damaged => Seq::empty(),
                    Outcome::Failed => Seq::empty(),
                },
        ).flatten(),
    decreases outcomes.len(),
{
    let f = |o: Outcome|
        match o {
            Outcome::Samples { rate, mono } => mono@,
            Outcome::Damaged => Seq::empty(),
            Outcome::Failed => Seq::empty(),
        };
    let all = outcomes.map_values(f);
    all.lemma_flatten_and_flatten_alt_are_equivalent();
    if outcomes.len() > 0 {
        let init = outcomes.drop_last();
        law_a_stream_is_its_packets_in_order(init);
        init.map_values(f).lemma_flatten_and_flatten_alt_are_equivalent();
        assert(all.drop_last() =~= init.map_values(f));
        assert(all.last() == f(outcomes.last()));
        assert(stream_of(outcomes) =~= stream_of(init) + f(outcomes.last()));
    }
}

/// A stream runs at the rate of its last packet with samples, or at the rate it was
/// announced with where there is none.
pub proof fn law_a_stream_runs_at_its_last_rate(first: u32, outcomes: Seq<Outcome>, k: int)
    requires
        0 <= k < outcomes.len(),
        outcomes[k] is Samples,
        forall|i: int| k < i < outcomes.len() ==> !((#[trigger] outcomes[i]) is Samples),
    ensures
        rate_of(first, outcomes) == outcomes[k]->rate,
        rate_of(first, Seq::empty()) == first,
    decreases outcomes.len(),
{
    if k < outcomes.len() - 1 {
        let init = outcomes.drop_last();
        assert(!(outcomes[outcomes.len() - 1] is Samples));
        assert forall|i: int| k < i < init.len() implies !((#[trigger] init[i]) is Samples) by {
            assert(init[i] == outcomes[i]);
        }
        law_a_stream_runs_at_its_last_rate(first, init, k);
    }
}

/// Where no packet has samples a stream is empty and runs at the rate it was
/// announced with.
pub proof fn law_a_stream_without_samples(first: u32, outcomes: Seq<Outcome>)
    requires
        forall|i: int| 0 <= i < outcomes.len() ==> !((#[trigger] outcomes[i]) is Samples),
    ensures
        rate_of(first, outcomes) == first,
        stream_of(outcomes).len() == 0,
    decreases outcomes.len(),
{
    if outcomes.len() > 0 {
        let init = outcomes.drop_last();
        assert(!(outcomes[outcomes.len() - 1] is Samples));
        assert forall|i: int| 0 <= i < init.len() implies !((#[trigger] init[i]) is Samples) by {
            assert(init[i] == outcomes[i]);
        }
        law_a_stream_without_samples(first, init);
    }
}

/// What is said of a file that cannot be decoded.
pub proof fn law_how_a_failure_reads(path: Seq<char>)
    ensures
        decode_text(DecodeError::NoTrack, path) == "No decodable audio track found"@,
        decode_text(DecodeError::NoSamples, path) == "Decoded zero samples from "@ + path,
{
}

} // verus!
