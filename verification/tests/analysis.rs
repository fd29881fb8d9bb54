use gemstone::analysis::segmentation::{
    first_peak, frame_starts, merge_frames, subtrack_of, voiced, Bracket, FramePitch, Run, Subtrack,
    FRAME, HOP, MIN_CONFIDENCE, REASONABLE_CONFIDENCE, REASONABLE_PERIODS,
};

/// The pitch at a place, by where it lies between the measured ones.
fn freq_at(sub: &Subtrack, pos: usize) -> f32 {
    let f = |k: usize| f32::from_bits(sub.pitch_track[k].1);
    match sub.bracket(pos) {
        Bracket::Base => f32::from_bits(sub.base_freq),
        Bracket::At { k } => f(k),
        Bracket::Between { k, num, den } => f(k) + (f(k + 1) - f(k)) * (num as f32 / den as f32),
    }
}

#[test]
fn freq_at_interpolates_and_clamps() {
    let sub = Subtrack {
        start: 0,
        end: 400,
        base_freq: 200.0f32.to_bits(),
        confidence: 1.0f32.to_bits(),
        pitch_track: vec![(100, 200.0f32.to_bits()), (300, 240.0f32.to_bits())],
    };
    // Clamped below/above the track span.
    assert_eq!(freq_at(&sub, 0), 200.0);
    assert_eq!(freq_at(&sub, 1000), 240.0);
    // Midpoint interpolates linearly.
    assert!((freq_at(&sub, 200) - 220.0).abs() < 1e-3);
    assert_eq!(sub.len(), 400);
}

#[test]
fn freq_at_empty_track_falls_back_to_base() {
    let sub = Subtrack {
        start: 0,
        end: 10,
        base_freq: 123.0f32.to_bits(),
        confidence: 0.0f32.to_bits(),
        pitch_track: Vec::new(),
    };
    assert_eq!(freq_at(&sub, 5), 123.0);
}

#[test]
fn frames_cover_the_file_a_hop_apart() {
    assert_eq!(frame_starts(FRAME - 1), Vec::<usize>::new());
    assert_eq!(frame_starts(FRAME), vec![0]);
    assert_eq!(frame_starts(FRAME + HOP), vec![0, HOP]);
}

fn frame(freq: f32, confidence: f32, steady: bool) -> FramePitch {
    FramePitch { freq: freq.to_bits(), confidence: confidence.to_bits(), steady }
}

#[test]
fn voiced_frames_that_hold_together_are_one_note() {
    let frames = vec![
        frame(0.0, 0.0, false),
        frame(220.0, 0.9, false),
        frame(221.0, 0.9, true),
        frame(0.0, 0.1, true),
        frame(440.0, 0.9, false),
    ];
    assert!(voiced(&frames[1]) && !voiced(&frames[3]));
    let runs = merge_frames(&frames);
    assert_eq!(runs, vec![Run { first: 1, count: 2 }, Run { first: 4, count: 1 }]);
    let sub = subtrack_of(&frames, runs[0], 0.9f32.to_bits(), 100_000);
    assert_eq!(sub.start, HOP);
    assert_eq!(sub.end, 2 * HOP + FRAME);
    assert_eq!(sub.pitch_track.len(), 2);
    assert!([220.0, 221.0].contains(&f32::from_bits(sub.base_freq)));
    // A file that ends earlier ends the note.
    assert_eq!(subtrack_of(&frames, runs[0], 0, 2000).end, 2000);
    assert_eq!(f32::from_bits(MIN_CONFIDENCE), 0.4);
}

#[test]
fn a_note_worth_keeping_is_sure_and_long_enough() {
    let sub = |confidence: f32| Subtrack {
        start: 0,
        end: 10,
        base_freq: 220.0f32.to_bits(),
        confidence: confidence.to_bits(),
        pitch_track: vec![],
    };
    let reasonable = f32::from_bits(REASONABLE_CONFIDENCE);
    assert!(sub(reasonable).is_reasonable(REASONABLE_PERIODS));
    assert!(!sub(reasonable - 0.01).is_reasonable(REASONABLE_PERIODS));
    assert!(!sub(1.0).is_reasonable(19.9f32.to_bits()));
    let mut unpitched = sub(1.0);
    unpitched.base_freq = 0;
    assert!(!unpitched.is_reasonable(REASONABLE_PERIODS));
}

#[test]
fn the_first_peak_over_the_threshold_is_the_period() {
    let nac: Vec<u32> =
        [0.0f32, 0.1, 0.5, 0.2, 0.9, 0.3, 0.0].iter().map(|x| x.to_bits()).collect();
    assert_eq!(first_peak(&nac, 0.8f32.to_bits(), 1, 5), Some(4));
    assert_eq!(first_peak(&nac, 0.4f32.to_bits(), 1, 5), Some(2));
    assert_eq!(first_peak(&nac, 0.95f32.to_bits(), 1, 5), None);
}
