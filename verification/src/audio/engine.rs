//! What an audio stream asks of a plugin, block by block.

use vstd::prelude::*;

use crate::midi::message::kind_of;

verus! {

/// Upper bound on the block size declared to a plugin. A device's range can top
/// out in the millions of frames, and a plugin sizes its buffers for the maximum
/// it is told.
pub const MAX_DECLARED_BLOCK: u32 = 16_384;

/// The block size where the device does not say.
pub const PLAIN_BLOCK: u32 = 512;

/// Slack past the block on every channel buffer: plugins that work in a fixed
/// internal block round the host's block up to it.
pub const PROCESS_OVERRUN_PAD: usize = 1024;

/// The block size to set a plugin up for, given the most the device says it can
/// deliver.
pub fn declared_block_size(max: Option<u32>) -> (r: u32)
    ensures
        r == (match max {
            Some(m) => if m <= MAX_DECLARED_BLOCK {
                m
            } else {
                MAX_DECLARED_BLOCK
            },
            None => PLAIN_BLOCK,
        }),
        r <= MAX_DECLARED_BLOCK,
{
    match max {
        Some(m) => if m <= MAX_DECLARED_BLOCK {
            m
        } else {
            MAX_DECLARED_BLOCK
        },
        None => PLAIN_BLOCK,
    }
}

/// A note, as a plugin is told of it. The velocity counts from 0 to 127.
#[derive(Clone, Copy, PartialEq, Eq, Debug, Structural)]
pub enum NoteEvent {
    On { channel: i16, pitch: i16, velocity: u8 },
    Off { channel: i16, pitch: i16, velocity: u8 },
}

/// What a message tells a plugin; nothing where it is not a note.
pub open spec fn event_of(m: Seq<u8>) -> Option<NoteEvent> {
    let channel = (m[0] % 16) as i16;
    let pitch = m[1] as i16;
    if m[0] / 16 == 9 && m[2] > 0 {
        Some(NoteEvent::On { channel, pitch, velocity: m[2] })
    } else if m[0] / 16 == 8 || m[0] / 16 == 9 {
        Some(NoteEvent::Off { channel, pitch, velocity: m[2] })
    } else {
        None
    }
}

/// Convert a message to a note event.
pub fn midi_to_event(msg: [u8; 3]) -> (r: Option<NoteEvent>)
    ensures
        r == event_of(msg@),
{
    let status: u8 = kind_of(msg);
    let channel: i16 = (msg[0] % 16) as i16;
    let pitch: i16 = msg[1] as i16;
    let velocity: u8 = msg[2];
    if status == 0x90 && velocity > 0 {
        Some(NoteEvent::On { channel, pitch, velocity })
    } else if status == 0x80 || status == 0x90 {
        Some(NoteEvent::Off { channel, pitch, velocity })
    } else {
        None
    }
}

/// The events of the first `n` messages.
pub open spec fn events_from(q: Seq<[u8; 3]>, n: int) -> Seq<NoteEvent>
    decreases n,
{
    if n <= 0 {
        Seq::empty()
    } else {
        let before = events_from(q, n - 1);
        match event_of(q[n - 1]@) {
            Some(e) => before.push(e),
            None => before,
        }
    }
}

/// The events a block is given: everything that waited in the queue, in order.
pub fn events_of(queue: &Vec<[u8; 3]>) -> (r: Vec<NoteEvent>)
    ensures
        r@ == events_from(queue@, queue@.len() as int),
{
    let mut out: Vec<NoteEvent> = Vec::new();
    let n: usize = queue.len();
    let mut k: usize = 0;
    while k < n
        invariant
            k <= n,
            n == queue@.len(),
            out@ == events_from(queue@, k as int),
        decreases n - k,
    {
        if let Some(e) = midi_to_event(queue[k]) {
            out.push(e);
        }
        k += 1;
    }
    out
}

/// How many channels the first `n` buses have.
pub open spec fn channels_of(buses: Seq<usize>, n: int) -> int
    decreases n,
{
    if n <= 0 {
        0
    } else {
        channels_of(buses, n - 1) + buses[n - 1]
    }
}

pub proof fn lemma_channels(buses: Seq<usize>, a: int, b: int)
    requires
        0 <= a <= b <= buses.len(),
    ensures
        0 <= channels_of(buses, a) <= channels_of(buses, b),
    decreases b,
{
    if b > 0 {
        if a < b {
            lemma_channels(buses, a, b - 1);
        } else {
            lemma_channels(buses, a - 1, b - 1);
        }
    }
}

/// How many channels some buses have.
pub open spec fn all_channels(buses: Seq<usize>) -> int {
    channels_of(buses, buses.len() as int)
}

/// A bus: where its channels start in the table of channels, and how many they
/// are.
#[derive(Clone, Copy, PartialEq, Eq, Debug, Structural)]
pub struct Bus {
    pub first: usize,
    pub channels: usize,
}

/// Lay buses out over a table of channels, from a place on.
pub fn lay_out_buses(buses: &Vec<usize>, from: usize) -> (r: Vec<Bus>)
    requires
        from + all_channels(buses@) <= usize::MAX,
    ensures
        r@.len() == buses@.len(),
        forall|i: int|
            0 <= i < r@.len() ==> (#[trigger] r@[i]).first == from + channels_of(buses@, i)
                && r@[i].channels == buses@[i],
{
    let mut out: Vec<Bus> = Vec::new();
    let n: usize = buses.len();
    let mut at: usize = from;
    let mut k: usize = 0;
    while k < n
        invariant
            k <= n,
            n == buses@.len(),
            from + channels_of(buses@, n as int) <= usize::MAX,
            at == from + channels_of(buses@, k as int),
            out@.len() == k,
            forall|i: int|
                0 <= i < k ==> (#[trigger] out@[i]).first == from + channels_of(buses@, i)
                    && out@[i].channels == buses@[i],
        decreases n - k,
    {
        proof {
            lemma_channels(buses@, k + 1, n as int);
        }
        out.push(Bus { first: at, channels: buses[k] });
        at = at + buses[k];
        k += 1;
    }
    out
}

/// No two buses share a channel: each ends before the next begins.
pub proof fn law_buses_do_not_overlap(buses: Seq<usize>, i: int, j: int)
    requires
        0 <= i < j < buses.len(),
    ensures
        channels_of(buses, i) + buses[i] <= channels_of(buses, j),
        channels_of(buses, j) + buses[j] <= channels_of(buses, buses.len() as int),
{
    lemma_channels(buses, i + 1, j);
    lemma_channels(buses, j + 1, buses.len() as int);
}

/// How a stream drives a plugin.
#[derive(Clone, Debug)]
pub struct StreamLayout {
    pub in_buses: Vec<Bus>,
    pub out_buses: Vec<Bus>,
    /// How many channels come before those of the outputs.
    pub in_channels: usize,
    /// How many buffers there are: at least one.
    pub buffers: usize,
    /// How many channels the main output has.
    pub main_out: usize,
    /// The most frames the plugin is ever asked for.
    pub max_block: usize,
}

/// The outputs of a plugin: one that declares none still has to be given one to
/// write into.
pub open spec fn outputs_given(outputs: Seq<usize>, channels: usize) -> Seq<usize> {
    if outputs.len() == 0 {
        seq![
            if channels == 0 {
                1usize
            } else {
                channels
            },
        ]
    } else {
        outputs
    }
}

/// Lay out what a plugin is handed: input channels first, then output. What the
/// plugin was set up for wins over what the device says now.
pub fn lay_out_stream(
    inputs: &Vec<usize>,
    outputs: &Vec<usize>,
    channels: usize,
    plugin_block: usize,
    device_block: u32,
) -> (r: StreamLayout)
    requires
        channels_of(inputs@, inputs@.len() as int) + channels_of(
            outputs_given(outputs@, channels),
            outputs_given(outputs@, channels).len() as int,
        ) <= usize::MAX,
    ensures
        ({
            let outs = outputs_given(outputs@, channels);
            let ins = channels_of(inputs@, inputs@.len() as int);
            let all = ins + channels_of(outs, outs.len() as int);
            &&& r.in_channels == ins
            &&& r.buffers == (if all == 0 {
                1
            } else {
                all
            })
            &&& r.main_out == outs[0]
            &&& r.max_block == (if plugin_block > 0 {
                plugin_block as int
            } else {
                device_block as int
            })
            &&& r.in_buses@.len() == inputs@.len()
            &&& r.out_buses@.len() == outs.len()
            &&& forall|i: int|
                0 <= i < r.in_buses@.len() ==> (#[trigger] r.in_buses@[i]).first == channels_of(
                    inputs@,
                    i,
                ) && r.in_buses@[i].channels == inputs@[i]
            &&& forall|i: int|
                0 <= i < r.out_buses@.len() ==> (#[trigger] r.out_buses@[i]).first == ins
                    + channels_of(outs, i) && r.out_buses@[i].channels == outs[i]
        }),
{
    let mut outs: Vec<usize> = Vec::new();
    let n: usize = outputs.len();
    if n == 0 {
        outs.push(
            if channels == 0 {
                1
            } else {
                channels
            },
        );
        assert(outs@ =~= outputs_given(outputs@, channels));
    } else {
        let mut k: usize = 0;
        while k < n
            invariant
                k <= n,
                n == outputs@.len(),
                outs@ == outputs@.take(k as int),
            decreases n - k,
        {
            outs.push(outputs[k]);
            assert(outputs@.take(k + 1) =~= outputs@.take(k as int).push(outputs@[k as int]));
            k += 1;
        }
        assert(outs@ =~= outputs@);
    }
    proof {
        lemma_channels(inputs@, 0, inputs@.len() as int);
        lemma_channels(outs@, 0, outs@.len() as int);
    }
    let in_channels: usize = count_channels(inputs);
    let out_channels: usize = count_channels(&outs);
    let all: usize = in_channels + out_channels;
    StreamLayout {
        in_buses: lay_out_buses(inputs, 0),
        out_buses: lay_out_buses(&outs, in_channels),
        in_channels,
        buffers: if all == 0 {
            1
        } else {
            all
        },
        main_out: outs[0],
        max_block: if plugin_block > 0 {
            plugin_block
        } else {
            device_block as usize
        },
    }
}

/// How many channels some buses have.
pub fn count_channels(buses: &Vec<usize>) -> (r: usize)
    requires
        all_channels(buses@) <= usize::MAX,
    ensures
        r == all_channels(buses@),
{
    let n: usize = buses.len();
    let mut sum: usize = 0;
    let mut k: usize = 0;
    while k < n
        invariant
            k <= n,
            n == buses@.len(),
            channels_of(buses@, n as int) <= usize::MAX,
            sum == channels_of(buses@, k as int),
        decreases n - k,
    {
        proof {
            lemma_channels(buses@, k + 1, n as int);
        }
        sum = sum + buses[k];
        k += 1;
    }
    sum
}

/// How many frames of a device's block a plugin is asked for, never more than it
/// was set up for, and whether the rest of the block is left silent.
pub fn block_frames(out_len: usize, channels: usize, max_block: usize) -> (r: (usize, bool))
    requires
        channels > 0,
    ensures
        r.0 == (if out_len as int / channels as int <= max_block {
            out_len as int / channels as int
        } else {
            max_block as int
        }),
        r.0 * channels <= out_len,
        r.1 == (r.0 * channels < out_len),
{
    let asked: usize = out_len / channels;
    let frames: usize = if asked <= max_block {
        asked
    } else {
        max_block
    };
    assert(frames * channels <= asked * channels) by (nonlinear_arith)
        requires
            frames <= asked,
    ;
    assert(asked * channels <= out_len) by {
        vstd::arithmetic::div_mod::lemma_fundamental_div_mod(out_len as int, channels as int);
        assert(asked * channels == channels as int * (out_len as int / channels as int))
            by (nonlinear_arith)
            requires
                asked == out_len as int / channels as int,
        ;
    }
    (frames, frames * channels < out_len)
}

/// What a place of the device's block holds: a mono plugin on a stereo device
/// repeats its last channel, a wider one has its extra channels dropped, and what
/// is beyond the plugin's block is silence.
pub open spec fn heard_sample(
    planar: Seq<Vec<u32>>,
    in_channels: int,
    main_out: int,
    channels: int,
    frames: int,
    at: int,
) -> u32 {
    if main_out == 0 || at >= frames * channels {
        0
    } else {
        let ch = at % channels;
        let src = if ch < main_out {
            in_channels + ch
        } else {
            in_channels + main_out - 1
        };
        planar[src]@[at / channels]
    }
}

/// The main output for the device, interleaved. Samples are the bits of the
/// numbers; `planar` are the plugin's channels.
pub fn interleave(
    planar: &Vec<Vec<u32>>,
    in_channels: usize,
    main_out: usize,
    channels: usize,
    frames: usize,
    out_len: usize,
) -> (r: Vec<u32>)
    requires
        channels > 0,
        in_channels + main_out <= planar@.len(),
        frames * channels <= out_len,
        forall|i: int|
            0 <= i < planar@.len() ==> (#[trigger] planar@[i])@.len() >= frames,
    ensures
        r@.len() == out_len,
        forall|at: int|
            0 <= at < out_len ==> #[trigger] r@[at] == heard_sample(
                planar@,
                in_channels as int,
                main_out as int,
                channels as int,
                frames as int,
                at,
            ),
{
    let live: usize = frames * channels;
    let planes: usize = planar.len();
    let mut out: Vec<u32> = Vec::new();
    let mut at: usize = 0;
    while at < out_len
        invariant
            at <= out_len,
            channels > 0,
            planes == planar@.len(),
            in_channels + main_out <= planes,
            live == frames * channels,
            forall|i: int|
                0 <= i < planar@.len() ==> (#[trigger] planar@[i])@.len() >= frames,
            out@.len() == at,
            forall|k: int|
                0 <= k < at ==> #[trigger] out@[k] == heard_sample(
                    planar@,
                    in_channels as int,
                    main_out as int,
                    channels as int,
                    frames as int,
                    k,
                ),
        decreases out_len - at,
    {
        if main_out == 0 || at >= live {
            out.push(0);
        } else {
            let ch: usize = at % channels;
            let frame: usize = at / channels;
            assert(frame < frames) by (nonlinear_arith)
                requires
                    frame == at as int / channels as int,
                    at < frames * channels,
                    channels > 0,
            ;
            let src: usize = if ch < main_out {
                in_channels + ch
            } else {
                in_channels + main_out - 1
            };
            assert(src < planes);
            assert(planar@[src as int]@.len() >= frames);
            out.push(planar[src][frame]);
        }
        at += 1;
    }
    out
}

/// A note-on with a velocity puts a note on, and without one it takes the note off,
/// as a note-off does; on the channel and the pitch that the message names. Nothing
/// else is a note.
pub proof fn law_what_a_message_plays(m: Seq<u8>)
    requires
        m.len() == 3,
    ensures
        0x90 <= m[0] < 0xA0 && m[2] > 0 ==> event_of(m) == Some(
            NoteEvent::On { channel: (m[0] - 0x90) as i16, pitch: m[1] as i16, velocity: m[2] },
        ),
        0x90 <= m[0] < 0xA0 && m[2] == 0 ==> event_of(m) == Some(
            NoteEvent::Off { channel: (m[0] - 0x90) as i16, pitch: m[1] as i16, velocity: 0 },
        ),
        0x80 <= m[0] < 0x90 ==> event_of(m) == Some(
            NoteEvent::Off { channel: (m[0] - 0x80) as i16, pitch: m[1] as i16, velocity: m[2] },
        ),
        m[0] < 0x80 || m[0] >= 0xA0 ==> event_of(m) is None,
{
}

/// Every message that plays a note gives its event, in the order of the messages, and
/// no other gives one: `at` is the message of each event.
pub proof fn law_every_note_message_is_an_event(q: Seq<[u8; 3]>, n: int) -> (at: Seq<int>)
    requires
        0 <= n <= q.len(),
    ensures
        at.len() == events_from(q, n).len(),
        forall|j: int, k: int| 0 <= j < k < at.len() ==> #[trigger] at[j] < #[trigger] at[k],
        forall|i: int| 0 <= i < n && event_of((#[trigger] q[i])@) is Some ==> at.contains(i),
        forall|k: int|
            0 <= k < at.len() ==> 0 <= #[trigger] at[k] < n && event_of(q[at[k]]@) == Some(
                events_from(q, n)[k],
            ),
    decreases n,
{
    if n <= 0 {
        Seq::empty()
    } else {
        let before = law_every_note_message_is_an_event(q, n - 1);
        let at = if event_of(q[n - 1]@) is Some {
            before.push(n - 1)
        } else {
            before
        };
        assert forall|i: int| 0 <= i < n && event_of(
            (#[trigger] q[i])@,
        ) is Some implies at.contains(i) by {
            if i < n - 1 {
                assert(before.contains(i));
                let k = choose|k: int| 0 <= k < before.len() && before[k] == i;
                assert(at[k] == i);
            } else {
                assert(at[before.len() as int] == i);
            }
        }
        at
    }
}

/// A bus starts where the one before it ends, the first at once, and the buses end
/// with the last.
pub proof fn law_a_bus_starts_behind_the_one_before(buses: Seq<usize>, i: int)
    requires
        0 <= i < buses.len(),
    ensures
        channels_of(buses, 0) == 0,
        channels_of(buses, i + 1) == channels_of(buses, i) + buses[i],
        all_channels(buses) == channels_of(buses, buses.len() as int),
{
}

/// A plugin without an output gets one with the channels of the device, at least one;
/// any other keeps its own.
pub proof fn law_a_stream_has_an_output(outputs: Seq<usize>, channels: usize)
    ensures
        outputs.len() > 0 ==> outputs_given(outputs, channels) == outputs,
        outputs.len() == 0 ==> outputs_given(outputs, channels).len() == 1 && outputs_given(
            outputs,
            channels,
        )[0] >= 1 && (channels > 0 ==> outputs_given(outputs, channels)[0] == channels),
        MAX_DECLARED_BLOCK == 16_384,
        PLAIN_BLOCK == 512,
{
}

/// A frame's sample for a channel of the device is the plugin's own on that channel;
/// a device with more channels repeats the plugin's last, and behind the frames there
/// is silence.
pub proof fn law_what_a_channel_hears(
    planar: Seq<Vec<u32>>,
    in_channels: int,
    main_out: int,
    channels: int,
    frames: int,
    frame: int,
    ch: int,
)
    requires
        0 < channels,
        0 <= ch < channels,
        0 <= frame,
        0 <= frames,
        0 <= main_out,
    ensures
        main_out > 0 && frame < frames && ch < main_out ==> heard_sample(
            planar,
            in_channels,
            main_out,
            channels,
            frames,
            frame * channels + ch,
        ) == planar[in_channels + ch]@[frame],
        main_out > 0 && frame < frames && ch >= main_out ==> heard_sample(
            planar,
            in_channels,
            main_out,
            channels,
            frames,
            frame * channels + ch,
        ) == planar[in_channels + main_out - 1]@[frame],
        main_out == 0 || frame >= frames ==> heard_sample(
            planar,
            in_channels,
            main_out,
            channels,
            frames,
            frame * channels + ch,
        ) == 0,
{
    let at = frame * channels + ch;
    assert(at / channels == frame && at % channels == ch) by {
        vstd::arithmetic::div_mod::lemma_fundamental_div_mod_converse(at, channels, frame, ch);
    }
    if frame < frames {
        assert(at < frames * channels) by (nonlinear_arith)
            requires
                at == frame * channels + ch,
                ch < channels,
                frame + 1 <= frames,
                channels > 0,
        ;
    } else {
        assert(at >= frames * channels) by (nonlinear_arith)
            requires
                at == frame * channels + ch,
                0 <= ch,
                frame >= frames,
                channels > 0,
        ;
    }
}

} // verus!
