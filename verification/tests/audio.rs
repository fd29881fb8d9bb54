use gemstone::audio::capture::{
    device_meant, input_device_names, recordings_dir, Moment, Recorder, Recording, Source,
    DEFAULT_INPUT,
};
use gemstone::audio::decode::{DecodeError, Decoding, MediaTrack, Outcome, Packet, Step};
use gemstone::audio::engine::{
    block_frames, declared_block_size, events_of, interleave, lay_out_buses, lay_out_stream,
    midi_to_event, Bus, NoteEvent, MAX_DECLARED_BLOCK, PLAIN_BLOCK,
};
use gemstone::audio::limiter::Lookahead;
use gemstone::audio::wav::{
    header, write_wav_f32, write_wav_i16, WAVE_FORMAT_IEEE_FLOAT, WAVE_FORMAT_PCM,
};

/// A take started so many milliseconds behind a fixed second.
fn at(millis: u32) -> Recording {
    Recording {
        samples: vec![],
        sample_rate: 48_000,
        channels: 2,
        started: Moment {
            year: 2026,
            month: 9,
            day: 6,
            hour: 1,
            minute: 42,
            second: 33,
            millis,
        },
        device: "test".to_string(),
        truncated: false,
    }
}

#[test]
fn two_takes_half_a_second_apart_are_two_files() {
    assert_eq!(at(0).file_name(), "recording_2026-09-06_01-42-33.000.wav");
    assert_ne!(at(0).file_name(), at(500).file_name());
    assert_ne!(at(500).file_name(), at(501).file_name());
    // Sorting the folder is sorting by when each take was started.
    let mut names = [at(700).file_name(), at(200).file_name(), at(500).file_name()];
    names.sort();
    assert_eq!(names[0], at(200).file_name());
    assert_eq!(names[2], at(700).file_name());
}

#[test]
fn the_name_is_safe_on_every_platform() {
    let name = at(123).file_name();
    assert!(
        name.chars().all(|c| c.is_ascii_alphanumeric() || "_-.".contains(c)),
        "{name} has a character a file name cannot carry"
    );
}

#[test]
fn the_device_list_always_offers_the_default() {
    for attached in [vec![], vec!["Mic".to_string()], vec![DEFAULT_INPUT.to_string()]] {
        let names = input_device_names(&attached);
        assert_eq!(names.first().map(String::as_str), Some(DEFAULT_INPUT));
        assert_eq!(
            names.iter().filter(|n| *n == DEFAULT_INPUT).count(),
            1,
            "the default is listed twice: {names:?}"
        );
    }
}

#[test]
fn a_chosen_device_is_found_again_or_is_gone() {
    let devices = vec!["Mic".to_string(), "Line".to_string()];
    assert_eq!(device_meant(None, &devices), Source::Default);
    assert_eq!(device_meant(Some(DEFAULT_INPUT), &devices), Source::Default);
    assert_eq!(device_meant(Some("Line"), &devices), Source::Device { k: 1 });
    assert_eq!(device_meant(Some("Lost"), &devices), Source::Gone);
    assert_eq!(recordings_dir("/home/me"), "/home/me/GemstoneRecordings");
}

#[test]
fn a_take_holds_what_was_played_into_it() {
    let mut rec = Recorder::new(48_000, 2, at(0).started, "Mic");
    rec.capture(&[1, 2, 3]);
    rec.capture(&[4]);
    let take = rec.finish();
    assert_eq!(take.samples, vec![1, 2, 3, 4]);
    assert_eq!(take.frames(), 2);
    assert!(!take.truncated);
    assert_eq!(take.device, "Mic");
}

#[test]
fn a_stereo_file_declares_what_it_contains() {
    let samples = vec![0i16, 16_383, -16_383, 32_767]; // 2 frames of stereo
    let bytes = write_wav_i16(&samples, 2, 48_000);

    assert_eq!(&bytes[0..4], b"RIFF");
    assert_eq!(&bytes[8..12], b"WAVE");
    assert_eq!(u16::from_le_bytes([bytes[20], bytes[21]]), WAVE_FORMAT_PCM);
    assert_eq!(u16::from_le_bytes([bytes[22], bytes[23]]), 2, "channels");
    assert_eq!(
        u32::from_le_bytes(bytes[24..28].try_into().unwrap()),
        48_000,
        "sample rate"
    );
    assert_eq!(u16::from_le_bytes([bytes[32], bytes[33]]), 4, "block align");
    assert_eq!(u16::from_le_bytes([bytes[34], bytes[35]]), 16, "bits");
    assert_eq!(
        u32::from_le_bytes(bytes[40..44].try_into().unwrap()) as usize,
        samples.len() * 2,
        "data length"
    );
    assert_eq!(bytes.len(), 44 + samples.len() * 2);
    assert_eq!(i16::from_le_bytes([bytes[48], bytes[49]]), -16_383);
    assert_eq!(header(2, 48_000, WAVE_FORMAT_PCM, 16, 8), bytes[..44].to_vec());
}

#[test]
fn the_float_writer_stores_the_sample_verbatim() {
    let s = 0.123_456_79f32;
    let bytes = write_wav_f32(&vec![s.to_bits()], 1, 44_100);
    assert_eq!(
        u16::from_le_bytes([bytes[20], bytes[21]]),
        WAVE_FORMAT_IEEE_FLOAT
    );
    assert_eq!(f32::from_le_bytes(bytes[44..48].try_into().unwrap()), s);
}

#[test]
fn a_note_message_becomes_an_event() {
    assert_eq!(
        midi_to_event([0x93, 60, 100]),
        Some(NoteEvent::On { channel: 3, pitch: 60, velocity: 100 })
    );
    assert_eq!(
        midi_to_event([0x90, 60, 0]),
        Some(NoteEvent::Off { channel: 0, pitch: 60, velocity: 0 })
    );
    assert_eq!(
        midi_to_event([0x80, 60, 9]),
        Some(NoteEvent::Off { channel: 0, pitch: 60, velocity: 9 })
    );
    assert_eq!(midi_to_event([0xB0, 1, 2]), None);
    assert_eq!(events_of(&vec![[0xB0, 1, 2], [0x90, 60, 1]]).len(), 1);
}

#[test]
fn the_block_a_device_declares_is_held_to_sense() {
    assert_eq!(declared_block_size(None), PLAIN_BLOCK);
    assert_eq!(declared_block_size(Some(1024)), 1024);
    assert_eq!(declared_block_size(Some(u32::MAX)), MAX_DECLARED_BLOCK);
    assert_eq!(block_frames(512, 2, 512), (256, false));
    assert_eq!(block_frames(4096, 2, 512), (512, true));
}

#[test]
fn buses_stand_behind_one_another() {
    assert_eq!(
        lay_out_buses(&vec![2, 1], 3),
        vec![Bus { first: 3, channels: 2 }, Bus { first: 5, channels: 1 }]
    );
    let l = lay_out_stream(&vec![1], &vec![2], 2, 256, 512);
    assert_eq!(l.in_channels, 1);
    assert_eq!(l.out_buses, vec![Bus { first: 1, channels: 2 }]);
    assert_eq!(l.main_out, 2);
    assert_eq!(l.max_block, 256, "the plugin's own block where it names one");
    assert_eq!(lay_out_stream(&vec![1], &vec![2], 2, 0, 512).max_block, 512);
}

#[test]
fn planar_blocks_come_out_interleaved() {
    let planar = vec![vec![9, 9], vec![1, 2], vec![3, 4]];
    assert_eq!(interleave(&planar, 1, 2, 2, 2, 4), vec![1, 3, 2, 4]);
    // A mono plugin plays on both sides; what was not rendered is silence.
    assert_eq!(interleave(&planar, 1, 1, 2, 1, 4), vec![1, 1, 0, 0]);
}

/// Everything that comes out of a lookahead fed in pieces, and then played out.
fn through(pieces: &[&[u32]]) -> Vec<Vec<u32>> {
    let mut look = Lookahead::new(1, 4);
    let mut out = vec![];
    for p in pieces {
        for chunk in look.feed(p) {
            if let Some(done) = look.hold(chunk) {
                out.push(done);
            }
        }
    }
    out
}

#[test]
fn how_the_stream_is_cut_does_not_matter() {
    let all: Vec<u32> = (0..13).collect();
    let whole = through(&[&all]);
    assert_eq!(whole, vec![vec![0, 1, 2, 3], vec![4, 5, 6, 7]]);
    assert_eq!(through(&[&all[..1], &all[1..7], &all[7..]]), whole);
    let mut look = Lookahead::new(1, 2);
    assert_eq!(look.latency_frames(), 4);
    look.play_out(&vec![1, 2, 3]);
    // The latency comes first, in silence.
    assert_eq!(look.take_out(6), vec![0, 0, 0, 0, 1, 2]);
}

fn media(id: u32, coded: bool, rate: Option<u32>) -> MediaTrack {
    MediaTrack { id, coded, rate }
}

#[test]
fn one_track_of_a_file_is_decoded() {
    let tracks = vec![media(4, false, Some(1)), media(7, true, None), media(9, true, Some(2))];
    let (k, mut d) = Decoding::new(&tracks).unwrap();
    assert_eq!((k, d.track, d.sample_rate), (1, 7, 44_100));
    assert_eq!(d.on_packet(Packet::Of { track: 9 }), Step::Skip);
    assert_eq!(d.on_packet(Packet::Of { track: 7 }), Step::Decode);
    assert_eq!(d.on_packet(Packet::End), Step::Stop);
    assert!(d.on_decoded(Outcome::Samples { rate: 48_000, mono: vec![1, 2] }));
    assert!(d.on_decoded(Outcome::Damaged), "a damaged packet leaves no trace");
    assert!(d.on_decoded(Outcome::Samples { rate: 48_000, mono: vec![3] }));
    assert!(!d.on_decoded(Outcome::Failed));
    let audio = d.finish().unwrap();
    assert_eq!(audio.samples, vec![1, 2, 3]);
    assert_eq!(audio.sample_rate, 48_000);
}

#[test]
fn a_file_with_nothing_in_it_is_refused() {
    let none = Decoding::new(&vec![media(1, false, None)]).unwrap_err();
    assert_eq!(none, DecodeError::NoTrack);
    let (_, d) = Decoding::new(&vec![media(1, true, Some(8000))]).unwrap();
    let empty = d.finish().unwrap_err();
    assert_eq!(empty, DecodeError::NoSamples);
    assert_eq!(empty.message("\"a.wav\""), "Decoded zero samples from \"a.wav\"");
}
