use gemstone::track_format::{TrackError, TrackState, HEADER_V1_LEN, HEADER_V2_LEN};

fn bits(v: &[f32]) -> Vec<u32> {
    v.iter().map(|x| x.to_bits()).collect()
}

fn sample_state() -> TrackState {
    let (nh, nb) = (3usize, 4usize);
    let amplitude: Vec<f32> = (0..nh * nb).map(|i| i as f32 * 0.01).collect();
    let phase: Vec<f32> = (0..nh * nb).map(|i| (i as f32).sin()).collect();
    TrackState {
        num_harmonics: nh,
        num_buckets: nb,
        base_freq: 220.0f32.to_bits(),
        duration_secs: 0.75f32.to_bits(),
        sample_rate: 44_100.0f32.to_bits(),
        display_gain: 15.4f32.to_bits(),
        amplitude: bits(&amplitude),
        phase: bits(&phase),
        pitch_ratio: bits(&[1.0, 1.01, 0.99, 1.0]),
        bucket_lengths: vec![200, 198, 202, 200],
        dc: bits(&[0.01, -0.02, 0.03, 0.0]),
        nyquist: bits(&[0.001, 0.0, -0.002, 0.0]),
        // Harmonic 2's amplitude and harmonic 1's phase switched off.
        amp_enabled: vec![true, false, true],
        phase_enabled: vec![false, true, true],
    }
}

#[test]
fn bytes_round_trip() {
    let s = sample_state();
    let parsed = TrackState::from_bytes(&s.to_bytes()).expect("parse");
    assert_eq!(parsed, s);
    s.validate().unwrap();
}

/// Build an older-version file from the current writer's output: same header
/// minus the fields that version predates, and payload minus the tail.
fn downgrade(s: &TrackState, version: u32) -> Vec<u8> {
    let cur = s.to_bytes();
    let flags = s.num_harmonics * 2;
    let exact = s.num_buckets * 3 * 4;
    let drop_tail = match version {
        0..=2 => flags + exact,
        3 => flags,
        _ => 0,
    };
    let body = &cur[HEADER_V2_LEN..cur.len() - drop_tail];
    let mut out = Vec::new();
    out.extend_from_slice(&cur[..4]); // magic
    out.extend_from_slice(&version.to_le_bytes());
    out.extend_from_slice(&cur[8..HEADER_V1_LEN]); // dims..sample_rate
    if version >= 2 {
        out.extend_from_slice(&cur[HEADER_V1_LEN..HEADER_V2_LEN]); // display_gain
    }
    out.extend_from_slice(body);
    out
}

#[test]
fn reads_version_1_without_a_display_gain() {
    let s = sample_state();
    let parsed = TrackState::from_bytes(&downgrade(&s, 1)).expect("v1 parses");
    assert_eq!(f32::from_bits(parsed.display_gain), 0.0, "unknown, not invented");
    assert_eq!(
        TrackState {
            display_gain: 0.0f32.to_bits(),
            bucket_lengths: Vec::new(),
            dc: Vec::new(),
            nyquist: Vec::new(),
            amp_enabled: Vec::new(),
            phase_enabled: Vec::new(),
            ..s
        },
        parsed,
        "everything else must survive"
    );
}

#[test]
fn reads_version_2_without_the_exact_inverse() {
    let s = sample_state();
    let parsed = TrackState::from_bytes(&downgrade(&s, 2)).expect("v2 parses");
    assert_eq!(parsed.display_gain, s.display_gain, "v2 does carry the gain");
    assert!(parsed.bucket_lengths.is_empty());
    assert!(parsed.dc.is_empty());
    assert!(parsed.nyquist.is_empty());
    assert!(
        !parsed.supports_exact_inverse(),
        "a v2 track must not claim an exact inverse it has no data for"
    );
    assert_eq!(parsed.amplitude, s.amplitude);
    assert_eq!(parsed.pitch_ratio, s.pitch_ratio);
}

#[test]
fn reads_version_3_without_the_enable_flags() {
    let s = sample_state();
    let parsed = TrackState::from_bytes(&downgrade(&s, 3)).expect("v3 parses");
    assert!(parsed.amp_enabled.is_empty());
    assert!(parsed.phase_enabled.is_empty());
    assert_eq!(parsed.bucket_lengths, s.bucket_lengths, "v3 does carry these");
}

#[test]
fn version_4_carries_the_enable_flags() {
    let s = sample_state();
    let back = TrackState::from_bytes(&s.to_bytes()).expect("parses");
    assert_eq!(back.amp_enabled, s.amp_enabled);
    assert_eq!(back.phase_enabled, s.phase_enabled);
}

#[test]
fn an_all_enabled_selection_round_trips_as_the_default() {
    let s = TrackState {
        amp_enabled: Vec::new(),
        phase_enabled: vec![true; 3],
        ..sample_state()
    };
    let back = TrackState::from_bytes(&s.to_bytes()).expect("parses");
    assert!(back.amp_enabled.is_empty());
    assert!(back.phase_enabled.is_empty(), "all-true collapses to the default");
}

#[test]
fn validate_rejects_partial_enable_flags() {
    let s = TrackState { amp_enabled: vec![true, false], ..sample_state() };
    assert!(s.validate().is_err());
    assert_eq!(s.validate(), Err(TrackError::PartialFlags));
}

#[test]
fn a_grid_without_an_exact_inverse_round_trips_as_such() {
    let s = TrackState {
        bucket_lengths: Vec::new(),
        dc: Vec::new(),
        nyquist: Vec::new(),
        ..sample_state()
    };
    assert!(!s.supports_exact_inverse());
    let back = TrackState::from_bytes(&s.to_bytes()).expect("parses");
    assert_eq!(back, s);
    assert!(!back.supports_exact_inverse());
}

#[test]
fn version_3_carries_the_exact_inverse() {
    let s = sample_state();
    assert!(s.supports_exact_inverse());
    let back = TrackState::from_bytes(&s.to_bytes()).expect("parses");
    assert_eq!(back.bucket_lengths, s.bucket_lengths);
    assert_eq!(back.dc, s.dc);
    assert_eq!(back.nyquist, s.nyquist);
    assert!(back.supports_exact_inverse());
}

#[test]
fn validate_rejects_a_partial_exact_inverse() {
    let s = TrackState { dc: Vec::new(), ..sample_state() };
    assert!(s.validate().is_err());
    assert_eq!(s.validate(), Err(TrackError::PartialInverse));
}

#[test]
fn rejects_bad_magic() {
    let mut bytes = sample_state().to_bytes();
    bytes[0] = b'X';
    assert!(TrackState::from_bytes(&bytes).is_err());
    assert!(matches!(TrackState::from_bytes(&bytes), Err(TrackError::BadMagic)));
}

#[test]
fn rejects_truncated() {
    let bytes = sample_state().to_bytes();
    assert!(TrackState::from_bytes(&bytes[..bytes.len() - 8]).is_err());
    assert!(TrackState::from_bytes(&bytes[..3]).is_err());
}

#[test]
fn rejects_wrong_declared_size() {
    // Tamper num_buckets so the declared payload no longer matches the bytes.
    let mut bytes = sample_state().to_bytes();
    bytes[12..16].copy_from_slice(&999u32.to_le_bytes()); // num_buckets field
    assert!(TrackState::from_bytes(&bytes).is_err());
}

#[test]
fn each_fault_of_a_file_is_told_apart() {
    let good = sample_state().to_bytes();
    let err = |bytes: &[u8]| TrackState::from_bytes(bytes).unwrap_err();
    assert!(matches!(err(&good[..3]), TrackError::TooShort));
    assert!(matches!(err(&good[..HEADER_V1_LEN]), TrackError::TruncatedHeader));
    let mut newer = good.clone();
    newer[4..8].copy_from_slice(&9u32.to_le_bytes());
    assert!(matches!(err(&newer), TrackError::Version { version: 9 }));
    let cut = &good[..good.len() - 8];
    assert!(
        matches!(err(cut), TrackError::Corrupt { expected, got } if expected == got + 8),
        "{:?}",
        err(cut)
    );
    let mut huge = good.clone();
    huge[8..16].copy_from_slice(&[0xff; 8]);
    assert!(!err(&huge).message().is_empty());
    let s = TrackState { amplitude: vec![], ..sample_state() };
    assert_eq!(s.validate(), Err(TrackError::GridMismatch));
    let s = TrackState { pitch_ratio: vec![], ..sample_state() };
    assert_eq!(s.validate(), Err(TrackError::PitchMismatch));
}

#[test]
fn a_header_is_laid_out_as_documented() {
    let bytes = sample_state().to_bytes();
    assert_eq!(&bytes[..4], b"LSFT");
    assert_eq!(&bytes[4..8], &4u32.to_le_bytes());
    assert_eq!(&bytes[8..12], &3u32.to_le_bytes());
    assert_eq!(&bytes[12..16], &4u32.to_le_bytes());
    assert_eq!(&bytes[16..20], &220.0f32.to_le_bytes());
    assert_eq!(&bytes[28..32], &15.4f32.to_le_bytes());
    assert_eq!(bytes.len(), 32 + 4 * (12 + 12 + 4) + 3 * 16 + 6);
}

#[test]
fn a_copy_is_the_same_grid() {
    let s = sample_state();
    assert!(s.duplicate().same_as(&s));
    let other = TrackState { base_freq: 440.0f32.to_bits(), ..sample_state() };
    assert!(!other.same_as(&s));
    // Numbers are compared as numbers: the two zeros are one.
    let minus = TrackState { display_gain: (-0.0f32).to_bits(), ..sample_state() };
    let plus = TrackState { display_gain: 0.0f32.to_bits(), ..sample_state() };
    assert!(minus.same_as(&plus));
}
