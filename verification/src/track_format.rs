//! `.lsft`, the file of a LeSynth track.
//!
//! A saved track is the full harmonic grid from a LeSynth editor: the amplitude
//! and the phase of every harmonic in every bucket, the pitch of every bucket
//! and the frequency it is relative to.
//!
//! Little-endian, in this order:
//!
//! ```text
//! "LSFT" (4) | version u32 | num_harmonics u32 | num_buckets u32 |
//! base_freq f32 | duration_secs f32 | sample_rate f32 |
//! display_gain f32                                          (from version 2) |
//! amplitude[nh*nb] f32 | phase[nh*nb] f32 | pitch_ratio[nb] f32 |
//! bucket_lengths[nb] u32 | dc[nb] f32 | nyquist[nb] f32     (from version 3) |
//! amp_enabled[nh] u8 | phase_enabled[nh] u8                 (from version 4)
//! ```
//!
//! Numbers are carried as their bits throughout; see [`crate::number`].

use vstd::prelude::*;

use crate::bytes::{
    lemma_words_bytes_add, lemma_words_bytes_len, lemma_words_read_back, push_words, push_zeros,
    read_word, read_words, word_at, words_at, words_bytes,
};
use crate::number::{equal_numbers, equal_rows, same_number, same_numbers, ZERO};
use crate::text::{decimal, push_decimal};

verus! {

/// The version that is written.
pub const VERSION: u32 = 4;

/// The fields every version has, up to the sample rate.
pub const HEADER_V1_LEN: usize = 28;

/// The same with the display gain, from version 2 on.
pub const HEADER_V2_LEN: usize = 32;

/// The full state of one LeSynth track.
#[derive(Clone, Debug)]
pub struct TrackState {
    pub num_harmonics: usize,
    pub num_buckets: usize,
    /// Reference fundamental in Hz.
    pub base_freq: u32,
    /// How long a note renders for, in seconds.
    pub duration_secs: u32,
    /// The rate the audio was analysed at, in Hz.
    pub sample_rate: u32,
    /// The gain that was applied when the grid was analysed; zero if unknown.
    pub display_gain: u32,
    /// Row by row: harmonic, then bucket.
    pub amplitude: Vec<u32>,
    /// Row by row: harmonic, then bucket.
    pub phase: Vec<u32>,
    /// The pitch of each bucket, relative to the reference.
    pub pitch_ratio: Vec<u32>,
    /// The length of each bucket in samples, or empty when the grid cannot be
    /// inverted exactly.
    pub bucket_lengths: Vec<u32>,
    /// What is no harmonic in each bucket. Empty exactly when the lengths are.
    pub dc: Vec<u32>,
    pub nyquist: Vec<u32>,
    /// The harmonics whose amplitude is switched on, or empty for all of them.
    pub amp_enabled: Vec<bool>,
    /// The harmonics whose phase is switched on, or empty for all of them.
    pub phase_enabled: Vec<bool>,
}

/// A track's state.
pub struct StateView {
    pub num_harmonics: nat,
    pub num_buckets: nat,
    pub base_freq: u32,
    pub duration_secs: u32,
    pub sample_rate: u32,
    pub display_gain: u32,
    pub amplitude: Seq<u32>,
    pub phase: Seq<u32>,
    pub pitch_ratio: Seq<u32>,
    pub bucket_lengths: Seq<u32>,
    pub dc: Seq<u32>,
    pub nyquist: Seq<u32>,
    pub amp_enabled: Seq<bool>,
    pub phase_enabled: Seq<bool>,
}

impl View for TrackState {
    type V = StateView;

    open spec fn view(&self) -> StateView {
        StateView {
            num_harmonics: self.num_harmonics as nat,
            num_buckets: self.num_buckets as nat,
            base_freq: self.base_freq,
            duration_secs: self.duration_secs,
            sample_rate: self.sample_rate,
            display_gain: self.display_gain,
            amplitude: self.amplitude@,
            phase: self.phase@,
            pitch_ratio: self.pitch_ratio@,
            bucket_lengths: self.bucket_lengths@,
            dc: self.dc@,
            nyquist: self.nyquist@,
            amp_enabled: self.amp_enabled@,
            phase_enabled: self.phase_enabled@,
        }
    }
}

/// Whether every length can be inverted.
pub open spec fn all_long(lengths: Seq<u32>) -> bool {
    forall|i: int| 0 <= i < lengths.len() ==> #[trigger] lengths[i] >= 2
}

/// Whether a track carries all it takes to reproduce its source exactly.
pub open spec fn invertible(s: StateView) -> bool {
    &&& s.bucket_lengths.len() == s.num_buckets
    &&& s.dc.len() == s.num_buckets
    &&& s.nyquist.len() == s.num_buckets
    &&& all_long(s.bucket_lengths)
}

/// Whether two states are equal, number by number.
pub open spec fn same_state(a: StateView, b: StateView) -> bool {
    &&& a.num_harmonics == b.num_harmonics
    &&& a.num_buckets == b.num_buckets
    &&& equal_numbers(a.base_freq, b.base_freq)
    &&& equal_numbers(a.duration_secs, b.duration_secs)
    &&& equal_numbers(a.sample_rate, b.sample_rate)
    &&& equal_numbers(a.display_gain, b.display_gain)
    &&& equal_rows(a.amplitude, b.amplitude)
    &&& equal_rows(a.phase, b.phase)
    &&& equal_rows(a.pitch_ratio, b.pitch_ratio)
    &&& a.bucket_lengths == b.bucket_lengths
    &&& equal_rows(a.dc, b.dc)
    &&& equal_rows(a.nyquist, b.nyquist)
    &&& a.amp_enabled == b.amp_enabled
    &&& a.phase_enabled == b.phase_enabled
}

// ── writing ─────────────────────────────────────────────────────────────────

/// The four bytes a track's file starts with.
pub open spec fn magic() -> Seq<u8> {
    seq![0x4c, 0x53, 0x46, 0x54]
}

/// The words of a row of so many, or zeros where there are none to trust.
pub open spec fn row_or_zeros(s: StateView, row: Seq<u32>) -> Seq<u32> {
    if invertible(s) {
        row
    } else {
        Seq::new(s.num_buckets, |i: int| 0u32)
    }
}

/// The fixed fields as words.
pub open spec fn header_words(s: StateView) -> Seq<u32> {
    seq![
        VERSION,
        (s.num_harmonics % 0x1_0000_0000) as u32,
        (s.num_buckets % 0x1_0000_0000) as u32,
        s.base_freq,
        s.duration_secs,
        s.sample_rate,
        s.display_gain,
    ]
}

/// Everything between the magic and the flags, as words.
pub open spec fn track_words(s: StateView) -> Seq<u32> {
    header_words(s) + s.amplitude + s.phase + s.pitch_ratio + row_or_zeros(s, s.bucket_lengths)
        + row_or_zeros(s, s.dc) + row_or_zeros(s, s.nyquist)
}

/// Whether a harmonic is switched on: where nothing is said, it is.
pub open spec fn switched_on(flags: Seq<bool>, h: int) -> bool {
    h >= flags.len() || flags[h]
}

/// The switches of `n` harmonics, one byte each.
pub open spec fn flag_bytes(flags: Seq<bool>, n: nat) -> Seq<u8> {
    Seq::new(
        n,
        |h: int|
            if switched_on(flags, h) {
                1u8
            } else {
                0u8
            },
    )
}

/// A track as a file.
pub open spec fn track_bytes(s: StateView) -> Seq<u8> {
    magic() + words_bytes(track_words(s)) + flag_bytes(s.amp_enabled, s.num_harmonics) + flag_bytes(
        s.phase_enabled,
        s.num_harmonics,
    )
}

fn low_word(n: usize) -> (r: u32)
    ensures
        r == (n as nat % 0x1_0000_0000) as u32,
{
    (n as u64 % 0x1_0000_0000) as u32
}

fn push_flags(out: &mut Vec<u8>, flags: &Vec<bool>, n: usize)
    ensures
        final(out)@ == old(out)@ + flag_bytes(flags@, n as nat),
{
    let mut h: usize = 0;
    while h < n
        invariant
            h <= n,
            out@ == old(out)@ + flag_bytes(flags@, h as nat),
        decreases n - h,
    {
        if h >= flags.len() || flags[h] {
            out.push(1);
        } else {
            out.push(0);
        }
        h += 1;
        assert(out@ =~= old(out)@ + flag_bytes(flags@, h as nat));
    }
    assert(out@ =~= old(out)@ + flag_bytes(flags@, n as nat));
}

impl TrackState {
    /// Whether this track carries everything needed to reproduce its source
    /// exactly.
    pub fn supports_exact_inverse(&self) -> (r: bool)
        ensures
            r == invertible(self@),
    {
        if self.bucket_lengths.len() != self.num_buckets || self.dc.len() != self.num_buckets
            || self.nyquist.len() != self.num_buckets {
            return false;
        }
        all_invert(&self.bucket_lengths)
    }

    /// Serialize to the `.lsft` layout. The tails are always written: zeros
    /// where there is no exact inverse, and on where no switch is known.
    pub fn to_bytes(&self) -> (r: Vec<u8>)
        ensures
            r@ == track_bytes(self@),
    {
        let mut out: Vec<u8> = Vec::new();
        out.push(0x4c);
        out.push(0x53);
        out.push(0x46);
        out.push(0x54);
        assert(out@ =~= magic());
        let mut head: Vec<u32> = Vec::new();
        head.push(VERSION);
        head.push(low_word(self.num_harmonics));
        head.push(low_word(self.num_buckets));
        head.push(self.base_freq);
        head.push(self.duration_secs);
        head.push(self.sample_rate);
        head.push(self.display_gain);
        assert(head@ =~= header_words(self@));
        push_words(&mut out, &head);
        push_words(&mut out, &self.amplitude);
        push_words(&mut out, &self.phase);
        push_words(&mut out, &self.pitch_ratio);
        if self.supports_exact_inverse() {
            push_words(&mut out, &self.bucket_lengths);
            push_words(&mut out, &self.dc);
            push_words(&mut out, &self.nyquist);
        } else {
            push_zeros(&mut out, self.num_buckets);
            push_zeros(&mut out, self.num_buckets);
            push_zeros(&mut out, self.num_buckets);
        }
        proof {
            lemma_track_words(self@);
            assert(out@ =~= magic() + words_bytes(track_words(self@)));
        }
        push_flags(&mut out, &self.amp_enabled, self.num_harmonics);
        push_flags(&mut out, &self.phase_enabled, self.num_harmonics);
        out
    }
}

proof fn lemma_track_words(s: StateView)
    ensures
        words_bytes(track_words(s)) == words_bytes(header_words(s)) + words_bytes(s.amplitude)
            + words_bytes(s.phase) + words_bytes(s.pitch_ratio) + words_bytes(
            row_or_zeros(s, s.bucket_lengths),
        ) + words_bytes(row_or_zeros(s, s.dc)) + words_bytes(row_or_zeros(s, s.nyquist)),
{
    let h = header_words(s);
    let l = row_or_zeros(s, s.bucket_lengths);
    let d = row_or_zeros(s, s.dc);
    let n = row_or_zeros(s, s.nyquist);
    lemma_words_bytes_add(h, s.amplitude);
    lemma_words_bytes_add(h + s.amplitude, s.phase);
    lemma_words_bytes_add(h + s.amplitude + s.phase, s.pitch_ratio);
    lemma_words_bytes_add(h + s.amplitude + s.phase + s.pitch_ratio, l);
    lemma_words_bytes_add(h + s.amplitude + s.phase + s.pitch_ratio + l, d);
    lemma_words_bytes_add(h + s.amplitude + s.phase + s.pitch_ratio + l + d, n);
}

/// Whether every length can be inverted.
fn all_invert(lengths: &Vec<u32>) -> (r: bool)
    ensures
        r == all_long(lengths@),
{
    let mut i: usize = 0;
    while i < lengths.len()
        invariant
            i <= lengths.len(),
            forall|k: int| 0 <= k < i ==> #[trigger] lengths@[k] >= 2,
        decreases lengths.len() - i,
    {
        if lengths[i] < 2 {
            assert(!all_long(lengths@)) by {
                assert(lengths@[i as int] < 2);
            }
            return false;
        }
        i += 1;
    }
    true
}

// ── reading ─────────────────────────────────────────────────────────────────

/// Why a file is not read as a track, or a state is refused.
#[derive(Clone, Copy, PartialEq, Eq, Debug, Structural)]
pub enum TrackError {
    /// It is shorter than any header.
    TooShort,
    /// It does not start with the magic.
    BadMagic,
    /// There is no such version.
    Version { version: u32 },
    /// It ends inside its header.
    TruncatedHeader,
    /// The grid it declares is larger than can be counted.
    GridOverflow,
    /// So is what it declares to follow.
    PayloadOverflow,
    /// So are its switches.
    FlagOverflow,
    /// It is not as long as what it declares.
    Corrupt { expected: usize, got: usize },
    /// The rows of the grid are not as long as it declares.
    GridMismatch,
    /// Not every bucket has a pitch.
    PitchMismatch,
    /// Some of the exact inverse is there, but not all.
    PartialInverse,
    /// Some of the switches are there, but not all.
    PartialFlags,
}

/// The message of an error.
pub open spec fn error_text(e: TrackError) -> Seq<char> {
    match e {
        TrackError::TooShort => "file too short to be a LeSynth track"@,
        TrackError::BadMagic => "not a LeSynth track (bad magic)"@,
        TrackError::Version { version } => "unsupported .lsft version "@ + decimal(version as nat),
        TrackError::TruncatedHeader => "truncated .lsft header"@,
        TrackError::GridOverflow => "grid size overflow"@,
        TrackError::PayloadOverflow => "payload size overflow"@,
        TrackError::FlagOverflow => "flag size overflow"@,
        TrackError::Corrupt { expected, got } => "corrupt .lsft: expected "@ + decimal(
            expected as nat,
        ) + " bytes, got "@ + decimal(got as nat),
        TrackError::GridMismatch => "grid length mismatch"@,
        TrackError::PitchMismatch => "pitch_ratio length mismatch"@,
        TrackError::PartialInverse =>
            "bucket_lengths/dc/nyquist must all be empty or all num_buckets long"@,
        TrackError::PartialFlags =>
            "harmonic enable flags must be empty or num_harmonics long"@,
    }
}

impl TrackError {
    /// The message to show.
    pub fn message(&self) -> (r: String)
        ensures
            r@ == error_text(*self),
    {
        match *self {
            TrackError::TooShort => "file too short to be a LeSynth track".to_owned(),
            TrackError::BadMagic => "not a LeSynth track (bad magic)".to_owned(),
            TrackError::Version { version } => {
                let mut out = "unsupported .lsft version ".to_owned();
                push_decimal(&mut out, version as u64);
                out
            },
            TrackError::TruncatedHeader => "truncated .lsft header".to_owned(),
            TrackError::GridOverflow => "grid size overflow".to_owned(),
            TrackError::PayloadOverflow => "payload size overflow".to_owned(),
            TrackError::FlagOverflow => "flag size overflow".to_owned(),
            TrackError::Corrupt { expected, got } => {
                let mut out = "corrupt .lsft: expected ".to_owned();
                push_decimal(&mut out, expected as u64);
                out.append(" bytes, got ");
                push_decimal(&mut out, got as u64);
                out
            },
            TrackError::GridMismatch => "grid length mismatch".to_owned(),
            TrackError::PitchMismatch => "pitch_ratio length mismatch".to_owned(),
            TrackError::PartialInverse =>
                "bucket_lengths/dc/nyquist must all be empty or all num_buckets long".to_owned(),
            TrackError::PartialFlags =>
                "harmonic enable flags must be empty or num_harmonics long".to_owned(),
        }
    }
}

/// How long a version's header is.
pub open spec fn header_len(version: int) -> int {
    if version >= 2 {
        HEADER_V2_LEN as int
    } else {
        HEADER_V1_LEN as int
    }
}

/// How many words follow a version's header.
pub open spec fn payload_words(version: int, nh: int, nb: int) -> int {
    2 * (nh * nb) + nb * (if version >= 3 {
        4int
    } else {
        1
    })
}

/// How many switches follow them.
pub open spec fn flags_len(version: int, nh: int) -> int {
    if version >= 4 {
        2 * nh
    } else {
        0
    }
}

/// How long a file is.
pub open spec fn file_len(version: int, nh: int, nb: int) -> int {
    header_len(version) + 4 * payload_words(version, nh, nb) + flags_len(version, nh)
}

/// What is wrong with a file, if anything.
pub open spec fn file_fault(b: Seq<u8>) -> Option<TrackError> {
    let version = word_at(b, 4);
    let nh = word_at(b, 8) as int;
    let nb = word_at(b, 12) as int;
    if b.len() < HEADER_V1_LEN {
        Some(TrackError::TooShort)
    } else if b.take(4) != magic() {
        Some(TrackError::BadMagic)
    } else if !(1 <= version <= VERSION) {
        Some(TrackError::Version { version })
    } else if version >= 2 && b.len() < HEADER_V2_LEN {
        Some(TrackError::TruncatedHeader)
    } else if nh * nb > usize::MAX {
        Some(TrackError::GridOverflow)
    } else if payload_words(version as int, nh, nb) > usize::MAX {
        Some(TrackError::PayloadOverflow)
    } else if flags_len(version as int, nh) > usize::MAX {
        Some(TrackError::FlagOverflow)
    } else if file_len(version as int, nh, nb) > usize::MAX {
        Some(TrackError::PayloadOverflow)
    } else if b.len() != file_len(version as int, nh, nb) {
        Some(
            TrackError::Corrupt {
                expected: file_len(version as int, nh, nb) as usize,
                got: b.len() as usize,
            },
        )
    } else {
        None
    }
}

/// The switches in a file: none said where every one of them is on.
pub open spec fn flags_of(b: Seq<u8>, from: int, n: nat) -> Seq<bool> {
    if forall|h: int| 0 <= h < n ==> #[trigger] b[from + h] != 0 {
        Seq::empty()
    } else {
        Seq::new(n, |h: int| b[from + h] != 0)
    }
}

/// The state in a file that has nothing wrong with it.
pub open spec fn state_in(b: Seq<u8>) -> StateView {
    let version = word_at(b, 4) as int;
    let nh = word_at(b, 8) as nat;
    let nb = word_at(b, 12) as nat;
    let grid = nh * nb;
    let amplitude = header_len(version);
    let phase = amplitude + 4 * grid;
    let pitch = phase + 4 * grid;
    let lengths = pitch + 4 * nb;
    let dc = lengths + 4 * nb;
    let nyquist = dc + 4 * nb;
    let flags = nyquist + 4 * nb;
    let exact = version >= 3 && all_long(words_at(b, lengths, nb));
    StateView {
        num_harmonics: nh,
        num_buckets: nb,
        base_freq: word_at(b, 16),
        duration_secs: word_at(b, 20),
        sample_rate: word_at(b, 24),
        display_gain: if version >= 2 {
            word_at(b, 28)
        } else {
            ZERO
        },
        amplitude: words_at(b, amplitude, grid),
        phase: words_at(b, phase, grid),
        pitch_ratio: words_at(b, pitch, nb),
        bucket_lengths: if exact {
            words_at(b, lengths, nb)
        } else {
            Seq::empty()
        },
        dc: if exact {
            words_at(b, dc, nb)
        } else {
            Seq::empty()
        },
        nyquist: if exact {
            words_at(b, nyquist, nb)
        } else {
            Seq::empty()
        },
        amp_enabled: if version >= 4 {
            flags_of(b, flags, nh)
        } else {
            Seq::empty()
        },
        phase_enabled: if version >= 4 {
            flags_of(b, flags + nh, nh)
        } else {
            Seq::empty()
        },
    }
}

/// Read the switches of `n` harmonics.
fn read_flags(bytes: &[u8], from: usize, n: usize) -> (r: Vec<bool>)
    requires
        from + n <= bytes@.len(),
    ensures
        r@ == flags_of(bytes@, from as int, n as nat),
{
    let len: usize = bytes.len();
    let mut out: Vec<bool> = Vec::new();
    let mut all = true;
    let mut h: usize = 0;
    while h < n
        invariant
            h <= n,
            from + n <= len,
            bytes@.len() == len,
            out@ == Seq::new(h as nat, |h: int| bytes@[from + h] != 0),
            all == (forall|k: int| 0 <= k < h ==> #[trigger] bytes@[from + k] != 0),
        decreases n - h,
    {
        let on = bytes[from + h] != 0;
        assert(on == (bytes@[from + h] != 0));
        if !on {
            all = false;
        }
        out.push(on);
        h += 1;
        assert(out@ =~= Seq::new(h as nat, |h: int| bytes@[from + h] != 0));
    }
    if all {
        let none: Vec<bool> = Vec::new();
        assert(none@ =~= Seq::<bool>::empty());
        return none;
    }
    out
}

/// How long a file of a version with these dimensions has to be, or what is too
/// large to count.
fn expected_len(version: u32, nh: u32, nb: u32) -> (r: Result<usize, TrackError>)
    requires
        1 <= version <= VERSION,
    ensures
        match r {
            Ok(n) => {
                &&& n == file_len(version as int, nh as int, nb as int)
                &&& nh * nb <= usize::MAX
                &&& payload_words(version as int, nh as int, nb as int) <= usize::MAX
                &&& flags_len(version as int, nh as int) <= usize::MAX
            },
            Err(TrackError::GridOverflow) => nh * nb > usize::MAX,
            Err(TrackError::PayloadOverflow) => {
                &&& nh * nb <= usize::MAX
                &&& payload_words(version as int, nh as int, nb as int) > usize::MAX || (flags_len(
                    version as int,
                    nh as int,
                ) <= usize::MAX && file_len(version as int, nh as int, nb as int) > usize::MAX)
            },
            Err(TrackError::FlagOverflow) => {
                &&& nh * nb <= usize::MAX
                &&& payload_words(version as int, nh as int, nb as int) <= usize::MAX
                &&& flags_len(version as int, nh as int) > usize::MAX
            },
            Err(_) => false,
        },
{
    let limit: u128 = usize::MAX as u128;
    let h: u128 = nh as u128;
    let b: u128 = nb as u128;
    assert(h * b <= 0xFFFF_FFFF * 0xFFFF_FFFF) by (nonlinear_arith)
        requires
            h <= 0xFFFF_FFFF,
            b <= 0xFFFF_FFFF,
    ;
    let grid: u128 = h * b;
    if grid > limit {
        return Err(TrackError::GridOverflow);
    }
    let per_bucket: u128 = if version >= 3 {
        4
    } else {
        1
    };
    assert(b * per_bucket == b * (if version >= 3 {
        4int
    } else {
        1
    }));
    assert(b * per_bucket <= 4 * 0xFFFF_FFFF) by (nonlinear_arith)
        requires
            b <= 0xFFFF_FFFF,
            per_bucket <= 4,
    ;
    let words: u128 = 2 * grid + b * per_bucket;
    if words > limit {
        return Err(TrackError::PayloadOverflow);
    }
    let flags: u128 = if version >= 4 {
        2 * h
    } else {
        0
    };
    if flags > limit {
        return Err(TrackError::FlagOverflow);
    }
    let header: u128 = if version >= 2 {
        HEADER_V2_LEN as u128
    } else {
        HEADER_V1_LEN as u128
    };
    let total: u128 = header + 4 * words + flags;
    if total > limit {
        return Err(TrackError::PayloadOverflow);
    }
    Ok(total as usize)
}

/// Read the switches of one kind, where a version has them.
fn read_switches(bytes: &[u8], version: u32, from: usize, n: usize) -> (r: Vec<bool>)
    requires
        version >= 4 ==> from + n <= bytes@.len(),
    ensures
        r@ == (if version >= 4 {
            flags_of(bytes@, from as int, n as nat)
        } else {
            Seq::empty()
        }),
{
    if version >= 4 {
        read_flags(bytes, from, n)
    } else {
        let none: Vec<bool> = Vec::new();
        assert(none@ =~= Seq::<bool>::empty());
        none
    }
}

fn starts_with_magic(bytes: &[u8]) -> (r: bool)
    requires
        bytes@.len() >= 4,
    ensures
        r == (bytes@.take(4) == magic()),
{
    let ok = bytes[0] == 0x4c && bytes[1] == 0x53 && bytes[2] == 0x46 && bytes[3] == 0x54;
    proof {
        let t = bytes@.take(4);
        if ok {
            assert(t =~= magic());
        } else if t == magic() {
            assert(t[0] == 0x4c && t[1] == 0x53 && t[2] == 0x46 && t[3] == 0x54);
        }
    }
    ok
}

impl TrackState {
    /// Parse from the `.lsft` layout. What the file declares has to be exactly
    /// as long as the file.
    pub fn from_bytes(bytes: &[u8]) -> (r: Result<TrackState, TrackError>)
        ensures
            match r {
                Ok(s) => file_fault(bytes@) is None && s@ == state_in(bytes@),
                Err(e) => file_fault(bytes@) == Some(e),
            },
    {
        let len: usize = bytes.len();
        if len < HEADER_V1_LEN {
            return Err(TrackError::TooShort);
        }
        if !starts_with_magic(bytes) {
            return Err(TrackError::BadMagic);
        }
        let version: u32 = read_word(bytes, 4);
        if version < 1 || version > VERSION {
            return Err(TrackError::Version { version });
        }
        let nh: u32 = read_word(bytes, 8);
        let nb: u32 = read_word(bytes, 12);
        if version >= 2 && len < HEADER_V2_LEN {
            return Err(TrackError::TruncatedHeader);
        }
        let expected: usize = match expected_len(version, nh, nb) {
            Ok(n) => n,
            Err(e) => {
                return Err(e);
            },
        };
        if len != expected {
            return Err(TrackError::Corrupt { expected, got: len });
        }
        let buckets: usize = nb as usize;
        let harmonics: usize = nh as usize;
        let grid: usize = (nh as u64 * nb as u64) as usize;
        let state = TrackState::read_grid(bytes, version, harmonics, buckets, grid);
        Ok(state)
    }

    /// Read what follows a header that says how long it is.
    fn read_grid(bytes: &[u8], version: u32, nh: usize, nb: usize, grid: usize) -> (r: TrackState)
        requires
            1 <= version <= VERSION,
            version == word_at(bytes@, 4),
            nh == word_at(bytes@, 8),
            nb == word_at(bytes@, 12),
            grid == nh * nb,
            bytes@.len() == file_len(version as int, nh as int, nb as int),
            bytes@.len() <= usize::MAX,
        ensures
            r@ == state_in(bytes@),
    {
        let amplitude: usize = if version >= 2 {
            HEADER_V2_LEN
        } else {
            HEADER_V1_LEN
        };
        assert(payload_words(version as int, nh as int, nb as int) == 2 * grid + (if version >= 3 {
            4 * nb
        } else {
            nb as int
        }));
        let phase: usize = amplitude + 4 * grid;
        let pitch: usize = phase + 4 * grid;
        let lengths: usize = pitch + 4 * nb;
        let display_gain: u32 = if version >= 2 {
            read_word(bytes, 28)
        } else {
            ZERO
        };
        let mut bucket_lengths: Vec<u32> = Vec::new();
        let mut dc: Vec<u32> = Vec::new();
        let mut nyquist: Vec<u32> = Vec::new();
        let mut flags: usize = lengths;
        if version >= 3 {
            let stored = read_words(bytes, lengths, nb);
            flags = lengths + 12 * nb;
            if all_invert(&stored) {
                bucket_lengths = stored;
                dc = read_words(bytes, lengths + 4 * nb, nb);
                nyquist = read_words(bytes, lengths + 8 * nb, nb);
            }
        }
        assert(version >= 4 ==> flags + 2 * nh <= bytes@.len());
        let second: usize = if version >= 4 {
            flags + nh
        } else {
            flags
        };
        TrackState {
            num_harmonics: nh,
            num_buckets: nb,
            base_freq: read_word(bytes, 16),
            duration_secs: read_word(bytes, 20),
            sample_rate: read_word(bytes, 24),
            display_gain,
            amplitude: read_words(bytes, amplitude, grid),
            phase: read_words(bytes, phase, grid),
            pitch_ratio: read_words(bytes, pitch, nb),
            bucket_lengths,
            dc,
            nyquist,
            amp_enabled: read_switches(bytes, version, flags, nh),
            phase_enabled: read_switches(bytes, version, second, nh),
        }
    }
}

// ── shape and equality ──────────────────────────────────────────────────────

/// Whether a row of switches is empty or whole.
pub open spec fn flags_fit(flags: Seq<bool>, n: nat) -> bool {
    flags.len() == 0 || flags.len() == n
}

/// What is wrong with a state's shape, if anything.
pub open spec fn shape_fault(s: StateView) -> Option<TrackError> {
    let grid = s.num_harmonics * s.num_buckets;
    let none = s.bucket_lengths.len() == 0 && s.dc.len() == 0 && s.nyquist.len() == 0;
    let all = s.bucket_lengths.len() == s.num_buckets && s.dc.len() == s.num_buckets
        && s.nyquist.len() == s.num_buckets;
    if s.amplitude.len() != grid || s.phase.len() != grid {
        Some(TrackError::GridMismatch)
    } else if s.pitch_ratio.len() != s.num_buckets {
        Some(TrackError::PitchMismatch)
    } else if !none && !all {
        Some(TrackError::PartialInverse)
    } else if !flags_fit(s.amp_enabled, s.num_harmonics) || !flags_fit(
        s.phase_enabled,
        s.num_harmonics,
    ) {
        Some(TrackError::PartialFlags)
    } else {
        None
    }
}

fn same_words(a: &Vec<u32>, b: &Vec<u32>) -> (r: bool)
    ensures
        r == (a@ == b@),
{
    if a.len() != b.len() {
        return false;
    }
    let mut i: usize = 0;
    while i < a.len()
        invariant
            i <= a.len(),
            a.len() == b.len(),
            forall|k: int| 0 <= k < i ==> a@[k] == b@[k],
        decreases a.len() - i,
    {
        if a[i] != b[i] {
            return false;
        }
        i += 1;
    }
    assert(a@ =~= b@);
    true
}

fn same_flags(a: &Vec<bool>, b: &Vec<bool>) -> (r: bool)
    ensures
        r == (a@ == b@),
{
    if a.len() != b.len() {
        return false;
    }
    let mut i: usize = 0;
    while i < a.len()
        invariant
            i <= a.len(),
            a.len() == b.len(),
            forall|k: int| 0 <= k < i ==> a@[k] == b@[k],
        decreases a.len() - i,
    {
        if a[i] != b[i] {
            return false;
        }
        i += 1;
    }
    assert(a@ =~= b@);
    true
}

fn copy_words(v: &Vec<u32>) -> (r: Vec<u32>)
    ensures
        r@ == v@,
{
    let mut out: Vec<u32> = Vec::new();
    let mut i: usize = 0;
    while i < v.len()
        invariant
            i <= v.len(),
            out@ == v@.take(i as int),
        decreases v.len() - i,
    {
        out.push(v[i]);
        i += 1;
        assert(out@ =~= v@.take(i as int));
    }
    assert(out@ =~= v@);
    out
}

fn copy_flags(v: &Vec<bool>) -> (r: Vec<bool>)
    ensures
        r@ == v@,
{
    let mut out: Vec<bool> = Vec::new();
    let mut i: usize = 0;
    while i < v.len()
        invariant
            i <= v.len(),
            out@ == v@.take(i as int),
        decreases v.len() - i,
    {
        out.push(v[i]);
        i += 1;
        assert(out@ =~= v@.take(i as int));
    }
    assert(out@ =~= v@);
    out
}

impl TrackState {
    /// Whether the rows match the declared dimensions. The exact inverse is all
    /// or nothing, and so are the switches: a partial set would be silently
    /// misread rather than rejected.
    pub fn validate(&self) -> (r: Result<(), TrackError>)
        ensures
            match r {
                Ok(()) => shape_fault(self@) is None,
                Err(e) => shape_fault(self@) == Some(e),
            },
    {
        let h: u128 = self.num_harmonics as u128;
        let b: u128 = self.num_buckets as u128;
        assert(h * b <= u128::MAX) by (nonlinear_arith)
            requires
                h <= 0xFFFF_FFFF_FFFF_FFFF,
                b <= 0xFFFF_FFFF_FFFF_FFFF,
        ;
        let grid: u128 = h * b;
        if self.amplitude.len() as u128 != grid || self.phase.len() as u128 != grid {
            return Err(TrackError::GridMismatch);
        }
        let n: usize = self.num_buckets;
        if self.pitch_ratio.len() != n {
            return Err(TrackError::PitchMismatch);
        }
        let none = self.bucket_lengths.len() == 0 && self.dc.len() == 0 && self.nyquist.len() == 0;
        let all = self.bucket_lengths.len() == n && self.dc.len() == n && self.nyquist.len() == n;
        if !none && !all {
            return Err(TrackError::PartialInverse);
        }
        let amp: usize = self.amp_enabled.len();
        let phase: usize = self.phase_enabled.len();
        if (amp != 0 && amp != self.num_harmonics) || (phase != 0 && phase
            != self.num_harmonics) {
            return Err(TrackError::PartialFlags);
        }
        Ok(())
    }

    /// Whether two states are equal, number by number.
    pub fn same_as(&self, other: &TrackState) -> (r: bool)
        ensures
            r == same_state(self@, other@),
    {
        self.num_harmonics == other.num_harmonics && self.num_buckets == other.num_buckets
            && same_number(self.base_freq, other.base_freq) && same_number(
            self.duration_secs,
            other.duration_secs,
        ) && same_number(self.sample_rate, other.sample_rate) && same_number(
            self.display_gain,
            other.display_gain,
        ) && same_numbers(&self.amplitude, &other.amplitude) && same_numbers(
            &self.phase,
            &other.phase,
        ) && same_numbers(&self.pitch_ratio, &other.pitch_ratio) && same_words(
            &self.bucket_lengths,
            &other.bucket_lengths,
        ) && same_numbers(&self.dc, &other.dc) && same_numbers(&self.nyquist, &other.nyquist)
            && same_flags(&self.amp_enabled, &other.amp_enabled) && same_flags(
            &self.phase_enabled,
            &other.phase_enabled,
        )
    }

    /// The same state once more.
    pub fn duplicate(&self) -> (r: TrackState)
        ensures
            r@ == self@,
    {
        TrackState {
            num_harmonics: self.num_harmonics,
            num_buckets: self.num_buckets,
            base_freq: self.base_freq,
            duration_secs: self.duration_secs,
            sample_rate: self.sample_rate,
            display_gain: self.display_gain,
            amplitude: copy_words(&self.amplitude),
            phase: copy_words(&self.phase),
            pitch_ratio: copy_words(&self.pitch_ratio),
            bucket_lengths: copy_words(&self.bucket_lengths),
            dc: copy_words(&self.dc),
            nyquist: copy_words(&self.nyquist),
            amp_enabled: copy_flags(&self.amp_enabled),
            phase_enabled: copy_flags(&self.phase_enabled),
        }
    }
}

impl PartialEq for TrackState {
    fn eq(&self, other: &TrackState) -> (r: bool) {
        self.same_as(other)
    }
}

impl vstd::std_specs::cmp::PartialEqSpecImpl for TrackState {
    open spec fn obeys_eq_spec() -> bool {
        true
    }

    open spec fn eq_spec(&self, other: &TrackState) -> bool {
        same_state(self@, other@)
    }
}

// ── what comes back ─────────────────────────────────────────────────────────

/// Switches as they come back: whole, and none said where all are on.
pub open spec fn saved_flags(flags: Seq<bool>, n: nat) -> Seq<bool> {
    if forall|h: int| 0 <= h < n ==> #[trigger] switched_on(flags, h) {
        Seq::empty()
    } else {
        Seq::new(n, |h: int| switched_on(flags, h))
    }
}

/// A state as it comes back.
pub open spec fn saved_state(s: StateView) -> StateView {
    StateView {
        bucket_lengths: if invertible(s) {
            s.bucket_lengths
        } else {
            Seq::empty()
        },
        dc: if invertible(s) {
            s.dc
        } else {
            Seq::empty()
        },
        nyquist: if invertible(s) {
            s.nyquist
        } else {
            Seq::empty()
        },
        amp_enabled: saved_flags(s.amp_enabled, s.num_harmonics),
        phase_enabled: saved_flags(s.phase_enabled, s.num_harmonics),
        ..s
    }
}

/// Whether a state can be written: its rows are as it declares, and its
/// dimensions and its file can be counted.
pub open spec fn writable(s: StateView) -> bool {
    &&& s.num_harmonics <= u32::MAX
    &&& s.num_buckets <= u32::MAX
    &&& s.amplitude.len() == s.num_harmonics * s.num_buckets
    &&& s.phase.len() == s.num_harmonics * s.num_buckets
    &&& s.pitch_ratio.len() == s.num_buckets
    &&& file_len(VERSION as int, s.num_harmonics as int, s.num_buckets as int) <= usize::MAX
}

proof fn lemma_flags_read_back(a: Seq<u8>, flags: Seq<bool>, n: nat, b: Seq<u8>)
    ensures
        flags_of(a + flag_bytes(flags, n) + b, a.len() as int, n) == saved_flags(flags, n),
{
    let f = flag_bytes(flags, n);
    let s = a + f + b;
    let i = a.len() as int;
    assert forall|h: int| 0 <= h < n implies (#[trigger] s[i + h] != 0) == switched_on(
        flags,
        h,
    ) by {
        assert(s[i + h] == f[h]);
    }
    if forall|h: int| 0 <= h < n ==> #[trigger] switched_on(flags, h) {
        assert forall|h: int| 0 <= h < n implies #[trigger] s[i + h] != 0 by {
            assert(switched_on(flags, h));
        }
    } else {
        let h = choose|h: int| 0 <= h < n && !#[trigger] switched_on(flags, h);
        assert(s[i + h] == 0);
        assert(flags_of(s, i, n) =~= saved_flags(flags, n));
    }
}

/// A row of words in the middle of a file reads back.
proof fn lemma_row_reads_back(
    front: Seq<u8>,
    before: Seq<u32>,
    row: Seq<u32>,
    after: Seq<u32>,
    tail: Seq<u8>,
)
    ensures
        words_at(
            front + words_bytes(before + row + after) + tail,
            front.len() + 4 * before.len() as int,
            row.len(),
        ) == row,
{
    lemma_words_bytes_add(before + row, after);
    lemma_words_bytes_add(before, row);
    lemma_words_bytes_len(before);
    let a = front + words_bytes(before);
    let b = words_bytes(after) + tail;
    assert(front + words_bytes(before + row + after) + tail =~= a + words_bytes(row) + b);
    lemma_words_read_back(a, row, b);
}

proof fn lemma_header_reads_back(s: StateView)
    ensures
        ({
            let b = track_bytes(s);
            let h = header_words(s);
            &&& b.take(4) == magic()
            &&& word_at(b, 4) == h[0]
            &&& word_at(b, 8) == h[1]
            &&& word_at(b, 12) == h[2]
            &&& word_at(b, 16) == h[3]
            &&& word_at(b, 20) == h[4]
            &&& word_at(b, 24) == h[5]
            &&& word_at(b, 28) == h[6]
        }),
{
    let h = header_words(s);
    let b = track_bytes(s);
    let rest = s.amplitude + s.phase + s.pitch_ratio + row_or_zeros(s, s.bucket_lengths)
        + row_or_zeros(s, s.dc) + row_or_zeros(s, s.nyquist);
    let tail = flag_bytes(s.amp_enabled, s.num_harmonics) + flag_bytes(
        s.phase_enabled,
        s.num_harmonics,
    );
    let none = Seq::<u32>::empty();
    assert(track_words(s) =~= none + h + rest);
    assert(b =~= magic() + words_bytes(none + h + rest) + tail);
    lemma_row_reads_back(magic(), none, h, rest, tail);
    let back = words_at(b, 4, h.len());
    assert(back == h);
    assert(back[0] == word_at(b, 4) && back[1] == word_at(b, 8) && back[2] == word_at(b, 12)
        && back[3] == word_at(b, 16) && back[4] == word_at(b, 20) && back[5] == word_at(b, 24)
        && back[6] == word_at(b, 28));
    assert(b.take(4) =~= magic());
}

/// A row of a state's words stands in its file where the words before it end.
proof fn lemma_row_of_a_file(s: StateView, before: Seq<u32>, row: Seq<u32>, after: Seq<u32>)
    requires
        track_words(s) == before + row + after,
    ensures
        words_at(track_bytes(s), 4 + 4 * before.len() as int, row.len()) == row,
{
    let tail = flag_bytes(s.amp_enabled, s.num_harmonics) + flag_bytes(
        s.phase_enabled,
        s.num_harmonics,
    );
    assert(track_bytes(s) =~= magic() + words_bytes(before + row + after) + tail);
    lemma_row_reads_back(magic(), before, row, after, tail);
}

/// The amplitudes stand behind the header.
proof fn lemma_amplitude_reads_back(s: StateView)
    requires
        writable(s),
    ensures
        words_at(track_bytes(s), 32, s.num_harmonics * s.num_buckets) == s.amplitude,
{
    let le = row_or_zeros(s, s.bucket_lengths);
    let dc = row_or_zeros(s, s.dc);
    let ny = row_or_zeros(s, s.nyquist);
    let before = header_words(s);
    let after = s.phase + s.pitch_ratio + le + dc + ny;
    assert(track_words(s) =~= before + s.amplitude + after);
    lemma_row_of_a_file(s, before, s.amplitude, after);
}

/// The phases stand behind the amplitudes.
proof fn lemma_phase_reads_back(s: StateView)
    requires
        writable(s),
    ensures
        words_at(
            track_bytes(s),
            32int + 4 * (s.num_harmonics * s.num_buckets),
            s.num_harmonics * s.num_buckets,
        ) == s.phase,
{
    let le = row_or_zeros(s, s.bucket_lengths);
    let dc = row_or_zeros(s, s.dc);
    let ny = row_or_zeros(s, s.nyquist);
    let before = header_words(s) + s.amplitude;
    let after = s.pitch_ratio + le + dc + ny;
    assert(track_words(s) =~= before + s.phase + after);
    lemma_row_of_a_file(s, before, s.phase, after);
}

/// The pitches stand behind the phases.
proof fn lemma_pitch_reads_back(s: StateView)
    requires
        writable(s),
    ensures
        words_at(
            track_bytes(s),
            32int + 8 * (s.num_harmonics * s.num_buckets),
            s.num_buckets,
        ) == s.pitch_ratio,
{
    let le = row_or_zeros(s, s.bucket_lengths);
    let dc = row_or_zeros(s, s.dc);
    let ny = row_or_zeros(s, s.nyquist);
    let before = header_words(s) + s.amplitude + s.phase;
    let after = le + dc + ny;
    assert(track_words(s) =~= before + s.pitch_ratio + after);
    lemma_row_of_a_file(s, before, s.pitch_ratio, after);
}

/// The lengths of the buckets stand behind the pitches.
proof fn lemma_lengths_read_back(s: StateView)
    requires
        writable(s),
    ensures
        words_at(
            track_bytes(s),
            32int + 8 * (s.num_harmonics * s.num_buckets) + 4 * s.num_buckets,
            s.num_buckets,
        ) == row_or_zeros(s, s.bucket_lengths),
{
    let le = row_or_zeros(s, s.bucket_lengths);
    let dc = row_or_zeros(s, s.dc);
    let ny = row_or_zeros(s, s.nyquist);
    let before = header_words(s) + s.amplitude + s.phase + s.pitch_ratio;
    let after = dc + ny;
    assert(track_words(s) =~= before + le + after);
    lemma_row_of_a_file(s, before, le, after);
}

/// What is no harmonic stands behind the lengths: first what is constant.
proof fn lemma_dc_reads_back(s: StateView)
    requires
        writable(s),
    ensures
        words_at(
            track_bytes(s),
            32int + 8 * (s.num_harmonics * s.num_buckets) + 8 * s.num_buckets,
            s.num_buckets,
        ) == row_or_zeros(s, s.dc),
{
    let le = row_or_zeros(s, s.bucket_lengths);
    let dc = row_or_zeros(s, s.dc);
    let ny = row_or_zeros(s, s.nyquist);
    let before = header_words(s) + s.amplitude + s.phase + s.pitch_ratio + le;
    let after = ny;
    assert(track_words(s) =~= before + dc + after);
    lemma_row_of_a_file(s, before, dc, after);
}

/// Then what is at half the rate.
proof fn lemma_nyquist_reads_back(s: StateView)
    requires
        writable(s),
    ensures
        words_at(
            track_bytes(s),
            32int + 8 * (s.num_harmonics * s.num_buckets) + 12 * s.num_buckets,
            s.num_buckets,
        ) == row_or_zeros(s, s.nyquist),
{
    let le = row_or_zeros(s, s.bucket_lengths);
    let dc = row_or_zeros(s, s.dc);
    let ny = row_or_zeros(s, s.nyquist);
    let before = header_words(s) + s.amplitude + s.phase + s.pitch_ratio + le + dc;
    let after = Seq::<u32>::empty();
    assert(track_words(s) =~= before + ny + after);
    lemma_row_of_a_file(s, before, ny, after);
}

/// How long the words of a file are.
proof fn lemma_words_len(s: StateView)
    requires
        writable(s),
    ensures
        words_bytes(track_words(s)).len() == 28 + 8 * (s.num_harmonics * s.num_buckets) + 16
            * s.num_buckets,
{
    lemma_words_bytes_len(track_words(s));
}

/// Whether bytes hold a state, part by part.
spec fn holds(b: Seq<u8>, s: StateView) -> bool {
    let nh = s.num_harmonics;
    let nb = s.num_buckets;
    let grid = nh * nb;
    let flags = 32 + 8 * grid + 16 * nb;
    &&& b.take(4) == magic()
    &&& word_at(b, 4) == 4
    &&& word_at(b, 8) == nh
    &&& word_at(b, 12) == nb
    &&& word_at(b, 16) == s.base_freq
    &&& word_at(b, 20) == s.duration_secs
    &&& word_at(b, 24) == s.sample_rate
    &&& word_at(b, 28) == s.display_gain
    &&& words_at(b, 32, grid) == s.amplitude
    &&& words_at(b, 32int + 4 * grid, grid) == s.phase
    &&& words_at(b, 32int + 8 * grid, nb) == s.pitch_ratio
    &&& words_at(b, 32int + 8 * grid + 4 * nb, nb) == row_or_zeros(s, s.bucket_lengths)
    &&& words_at(b, 32int + 8 * grid + 8 * nb, nb) == row_or_zeros(s, s.dc)
    &&& words_at(b, 32int + 8 * grid + 12 * nb, nb) == row_or_zeros(s, s.nyquist)
    &&& flags_of(b, flags as int, nh) == saved_flags(s.amp_enabled, nh)
    &&& flags_of(b, flags + nh as int, nh) == saved_flags(s.phase_enabled, nh)
    &&& b.len() == flags + 2 * nh
}

proof fn lemma_bytes_hold(s: StateView)
    requires
        writable(s),
    ensures
        holds(track_bytes(s), s),
{
    let b = track_bytes(s);
    let nh = s.num_harmonics;
    lemma_header_reads_back(s);
    lemma_amplitude_reads_back(s);
    lemma_phase_reads_back(s);
    lemma_pitch_reads_back(s);
    lemma_lengths_read_back(s);
    lemma_dc_reads_back(s);
    lemma_nyquist_reads_back(s);
    lemma_words_len(s);
    let words = magic() + words_bytes(track_words(s));
    let amp = flag_bytes(s.amp_enabled, nh);
    let phase = flag_bytes(s.phase_enabled, nh);
    assert(b =~= words + amp + phase);
    lemma_flags_read_back(words, s.amp_enabled, nh, phase);
    assert(b =~= (words + amp) + phase + Seq::<u8>::empty());
    lemma_flags_read_back(words + amp, s.phase_enabled, nh, Seq::empty());
}

proof fn lemma_no_fault(b: Seq<u8>, s: StateView)
    requires
        writable(s),
        holds(b, s),
    ensures
        file_fault(b) is None,
{
    let nh = s.num_harmonics as int;
    let nb = s.num_buckets as int;
    assert(nb * 4 == 4 * nb);
    assert(nh * nb >= 0) by (nonlinear_arith)
        requires
            nh >= 0,
            nb >= 0,
    ;
}

proof fn lemma_state_comes_back(b: Seq<u8>, s: StateView)
    requires
        writable(s),
        holds(b, s),
    ensures
        state_in(b) == saved_state(s),
{
    let nb = s.num_buckets;
    let grid = s.num_harmonics * nb;
    let lengths = words_at(b, 32int + 8 * grid + 4 * nb, nb);
    let dc = words_at(b, 32int + 8 * grid + 8 * nb, nb);
    let nyquist = words_at(b, 32int + 8 * grid + 12 * nb, nb);
    if !invertible(s) {
        if nb > 0 {
            assert(lengths[0] == 0);
            assert(!all_long(lengths));
        } else {
            assert(lengths =~= Seq::<u32>::empty());
            assert(dc =~= Seq::<u32>::empty());
            assert(nyquist =~= Seq::<u32>::empty());
        }
    }
    let t = state_in(b);
    assert(t.phase == s.phase);
    assert(t.pitch_ratio == s.pitch_ratio);
    assert(t.bucket_lengths == saved_state(s).bucket_lengths);
    assert(t.dc == saved_state(s).dc);
    assert(t.nyquist == saved_state(s).nyquist);
    assert(t.amp_enabled == saved_state(s).amp_enabled);
    assert(t.phase_enabled == saved_state(s).phase_enabled);
}

/// A track that was saved loads again: what the exact inverse needs survives,
/// and so does every switch.
pub proof fn law_a_saved_track_loads_again(s: StateView)
    requires
        writable(s),
    ensures
        file_fault(track_bytes(s)) is None,
        state_in(track_bytes(s)) == saved_state(s),
{
    lemma_bytes_hold(s);
    lemma_no_fault(track_bytes(s), s);
    lemma_state_comes_back(track_bytes(s), s);
}

/// Whether a state comes back exactly: its exact inverse is whole or not there,
/// and its switches too.
pub open spec fn tidy(s: StateView) -> bool {
    &&& writable(s)
    &&& invertible(s) || (s.bucket_lengths.len() == 0 && s.dc.len() == 0 && s.nyquist.len() == 0)
    &&& tidy_flags(s.amp_enabled, s.num_harmonics)
    &&& tidy_flags(s.phase_enabled, s.num_harmonics)
}

/// Whether switches say nothing, or say of every harmonic and switch one off.
pub open spec fn tidy_flags(flags: Seq<bool>, n: nat) -> bool {
    flags.len() == 0 || (flags.len() == n && exists|h: int| 0 <= h < n && !#[trigger] flags[h])
}

/// A tidy state loads exactly as it was saved.
pub proof fn law_a_tidy_track_loads_exactly(s: StateView)
    requires
        tidy(s),
    ensures
        state_in(track_bytes(s)) == s,
{
    law_a_saved_track_loads_again(s);
    lemma_tidy_flags(s.amp_enabled, s.num_harmonics);
    lemma_tidy_flags(s.phase_enabled, s.num_harmonics);
    assert(saved_state(s).bucket_lengths =~= s.bucket_lengths);
    assert(saved_state(s).dc =~= s.dc);
    assert(saved_state(s).nyquist =~= s.nyquist);
}

proof fn lemma_tidy_flags(flags: Seq<bool>, n: nat)
    requires
        tidy_flags(flags, n),
    ensures
        saved_flags(flags, n) == flags,
{
    if flags.len() > 0 {
        let h = choose|h: int| 0 <= h < n && !#[trigger] flags[h];
        assert(!switched_on(flags, h));
        assert(saved_flags(flags, n) =~= flags);
    } else {
        assert(saved_flags(flags, n) =~= flags);
    }
}

/// A file of an older version says nothing of what its version did not know: no
/// gain, no exact inverse, no switches.
pub proof fn law_an_older_track_claims_nothing_it_lacks(b: Seq<u8>)
    requires
        file_fault(b) is None,
    ensures
        word_at(b, 4) < 2 ==> state_in(b).display_gain == ZERO,
        word_at(b, 4) < 3 ==> state_in(b).bucket_lengths.len() == 0 && state_in(b).dc.len() == 0
            && state_in(b).nyquist.len() == 0 && (state_in(b).num_buckets > 0 ==> !invertible(
            state_in(b),
        )),
        word_at(b, 4) < 4 ==> state_in(b).amp_enabled.len() == 0 && state_in(
            b,
        ).phase_enabled.len() == 0,
{
}

/// What is read has the shape it declares.
pub proof fn law_a_read_track_is_valid(b: Seq<u8>)
    requires
        file_fault(b) is None,
    ensures
        shape_fault(state_in(b)) is None,
{
}

/// How a track is laid out in its file: the magic, the version, the size of the grid,
/// the numbers of the header, then the amplitudes, the phases, the pitches, and for
/// every bucket its length and what is no harmonic in it, zeros where those are not
/// known; and last a byte for every switch.
pub proof fn law_how_a_track_is_laid_out(s: StateView)
    requires
        writable(s),
    ensures
        ({
            let b = track_bytes(s);
            let nh = s.num_harmonics;
            let nb = s.num_buckets;
            let grid = nh * nb;
            &&& b.take(4) == seq![0x4cu8, 0x53, 0x46, 0x54]
            &&& word_at(b, 4) == 4 && word_at(b, 8) == nh && word_at(b, 12) == nb
            &&& word_at(b, 16) == s.base_freq && word_at(b, 20) == s.duration_secs
            &&& word_at(b, 24) == s.sample_rate && word_at(b, 28) == s.display_gain
            &&& words_at(b, 32, grid) == s.amplitude
            &&& words_at(b, 32int + 4 * grid, grid) == s.phase
            &&& words_at(b, 32int + 8 * grid, nb) == s.pitch_ratio
            &&& invertible(s) ==> words_at(b, 32int + 8 * grid + 4 * nb, nb) == s.bucket_lengths
                && words_at(b, 32int + 8 * grid + 8 * nb, nb) == s.dc && words_at(
                b,
                32int + 8 * grid + 12 * nb,
                nb,
            ) == s.nyquist
            &&& b.len() == 32 + 8 * grid + 16 * nb + 2 * nh
        }),
{
    lemma_bytes_hold(s);
}

/// Where a reader finds what a file holds, by its version: the first has a shorter
/// header and no gain, the first two no exact inverse, the first three no switches.
pub proof fn law_where_a_reader_finds_things(b: Seq<u8>)
    requires
        file_fault(b) is None,
    ensures
        ({
            let v = word_at(b, 4) as int;
            let nh = word_at(b, 8) as nat;
            let nb = word_at(b, 12) as nat;
            let grid = nh * nb;
            let head: int = if v >= 2 {
                32
            } else {
                28
            };
            let s = state_in(b);
            &&& s.num_harmonics == nh && s.num_buckets == nb
            &&& s.base_freq == word_at(b, 16) && s.duration_secs == word_at(b, 20)
            &&& s.sample_rate == word_at(b, 24)
            &&& v >= 2 ==> s.display_gain == word_at(b, 28)
            &&& s.amplitude == words_at(b, head, grid)
            &&& s.phase == words_at(b, head + 4 * grid, grid)
            &&& s.pitch_ratio == words_at(b, head + 8 * grid, nb)
            &&& v >= 3 && all_long(words_at(b, head + 8 * grid + 4 * nb, nb)) ==> s.bucket_lengths
                == words_at(b, head + 8 * grid + 4 * nb, nb) && s.dc == words_at(
                b,
                head + 8 * grid + 8 * nb,
                nb,
            ) && s.nyquist == words_at(b, head + 8 * grid + 12 * nb, nb)
            &&& v >= 3 && !all_long(words_at(b, head + 8 * grid + 4 * nb, nb))
                ==> s.bucket_lengths.len() == 0 && s.dc.len() == 0 && s.nyquist.len() == 0
            &&& v >= 4 ==> forall|h: int|
                0 <= h < nh ==> switched_on(s.amp_enabled, h) == (#[trigger] b[head + 8 * grid + 16
                    * nb + h] != 0)
        }),
{
    let v = word_at(b, 4) as int;
    let nh = word_at(b, 8) as nat;
    let nb = word_at(b, 12) as nat;
    let grid = nh * nb;
    let head: int = if v >= 2 {
        32
    } else {
        28
    };
    let flags = head + 8 * grid + 16 * nb;
    if v >= 4 {
        assert(state_in(b).amp_enabled == flags_of(b, flags, nh));
        assert forall|h: int| 0 <= h < nh implies switched_on(state_in(b).amp_enabled, h) == (
        #[trigger] b[flags + h] != 0) by {}
    }
}

/// A file is taken exactly where it starts with the magic, has a version from one to
/// four and is as long as it declares, the grid two words for each of its cells.
pub proof fn law_which_files_are_taken(b: Seq<u8>)
    requires
        b.len() <= usize::MAX,
    ensures
        file_fault(b) is None ==> b.len() >= 28 && b.take(4) == seq![0x4cu8, 0x53, 0x46, 0x54] && 1
            <= word_at(b, 4) <= 4,
        file_fault(b) is None ==> ({
            let v = word_at(b, 4);
            let nh = word_at(b, 8) as int;
            let nb = word_at(b, 12) as int;
            b.len() == (if v >= 2 {
                32int
            } else {
                28
            }) + 8 * (nh * nb) + (if v >= 3 {
                16 * nb
            } else {
                4 * nb
            }) + (if v >= 4 {
                2 * nh
            } else {
                0
            })
        }),
        b.len() < 28 ==> file_fault(b) == Some(TrackError::TooShort),
        b.len() >= 28 && b.take(4) != seq![0x4cu8, 0x53, 0x46, 0x54] ==> file_fault(b) == Some(
            TrackError::BadMagic,
        ),
        b.len() >= 28 && b.take(4) == seq![0x4cu8, 0x53, 0x46, 0x54] && !(1 <= word_at(b, 4) <= 4)
            ==> file_fault(b) == Some(TrackError::Version { version: word_at(b, 4) }),
{
}

/// A grid can be inverted exactly where every bucket has its length, two samples at
/// least, and what is no harmonic in it.
pub proof fn law_what_can_be_inverted(s: StateView)
    ensures
        invertible(s) <==> s.bucket_lengths.len() == s.num_buckets && s.dc.len() == s.num_buckets
            && s.nyquist.len() == s.num_buckets && forall|i: int|
            0 <= i < s.bucket_lengths.len() ==> #[trigger] s.bucket_lengths[i] >= 2,
{
}

/// A harmonic is on unless a switch says that it is off.
pub proof fn law_a_harmonic_is_on_unless_switched_off(flags: Seq<bool>, h: int)
    requires
        0 <= h,
    ensures
        h < flags.len() ==> switched_on(flags, h) == flags[h],
        h >= flags.len() ==> switched_on(flags, h),
{
}

/// Two states are one where every part of them is: the size, the numbers, the rows and
/// the switches.
pub proof fn law_what_one_state_is(a: StateView, b: StateView)
    ensures
        same_state(a, b) ==> a.num_harmonics == b.num_harmonics && a.num_buckets == b.num_buckets
            && equal_numbers(a.base_freq, b.base_freq) && equal_numbers(
            a.duration_secs,
            b.duration_secs,
        ) && equal_numbers(a.sample_rate, b.sample_rate) && equal_numbers(
            a.display_gain,
            b.display_gain,
        ),
        same_state(a, b) ==> equal_rows(a.amplitude, b.amplitude) && equal_rows(a.phase, b.phase)
            && equal_rows(a.pitch_ratio, b.pitch_ratio) && equal_rows(a.dc, b.dc) && equal_rows(
            a.nyquist,
            b.nyquist,
        ),
        same_state(a, b) ==> a.bucket_lengths == b.bucket_lengths && a.amp_enabled == b.amp_enabled
            && a.phase_enabled == b.phase_enabled,
        same_state(a, b) ==> same_state(b, a),
{
    if same_state(a, b) {
        lemma_equal_rows(a.amplitude, b.amplitude);
        lemma_equal_rows(a.phase, b.phase);
        lemma_equal_rows(a.pitch_ratio, b.pitch_ratio);
        lemma_equal_rows(a.dc, b.dc);
        lemma_equal_rows(a.nyquist, b.nyquist);
    }
}

proof fn lemma_equal_rows(a: Seq<u32>, b: Seq<u32>)
    requires
        equal_rows(a, b),
    ensures
        equal_rows(b, a),
{
    assert forall|i: int| 0 <= i < b.len() implies equal_numbers(#[trigger] b[i], a[i]) by {
        assert(equal_numbers(a[i], b[i]));
    }
}

/// A state is valid exactly where its rows are as long as its size says, and what may
/// be left out is there as a whole or not at all.
pub proof fn law_which_states_are_valid(s: StateView)
    ensures
        shape_fault(s) is None <==> {
            let grid = s.num_harmonics * s.num_buckets;
            &&& s.amplitude.len() == grid && s.phase.len() == grid
            &&& s.pitch_ratio.len() == s.num_buckets
            &&& {
                ||| s.bucket_lengths.len() == 0 && s.dc.len() == 0 && s.nyquist.len() == 0
                ||| s.bucket_lengths.len() == s.num_buckets && s.dc.len() == s.num_buckets
                    && s.nyquist.len() == s.num_buckets
            }
            &&& s.amp_enabled.len() == 0 || s.amp_enabled.len() == s.num_harmonics
            &&& s.phase_enabled.len() == 0 || s.phase_enabled.len() == s.num_harmonics
        },
{
}

/// The switches of the phases stand behind those of the amplitudes, a byte each, and a
/// harmonic is on where its byte is not zero.
pub proof fn law_where_the_switches_are(b: Seq<u8>, h: int)
    requires
        file_fault(b) is None,
        word_at(b, 4) == 4,
        0 <= h < word_at(b, 8),
    ensures
        ({
            let nh = word_at(b, 8) as int;
            let nb = word_at(b, 12) as int;
            let from = 32 + 8 * (nh * nb) + 16 * nb;
            &&& switched_on(state_in(b).amp_enabled, h) == (b[from + h] != 0)
            &&& switched_on(state_in(b).phase_enabled, h) == (b[from + nh + h] != 0)
        }),
{
    let nh = word_at(b, 8) as nat;
    let nb = word_at(b, 12) as nat;
    let from = 32 + 8 * (nh * nb) + 16 * nb;
    assert(state_in(b).amp_enabled == flags_of(b, from as int, nh));
    assert(state_in(b).phase_enabled == flags_of(b, from + nh as int, nh));
    assert(b[from + h] == b[from as int + h]);
    assert(b[from + nh + h] == b[(from + nh as int) + h]);
}

/// A switch is written as a byte: one where the harmonic is on.
pub proof fn law_how_switches_are_written(flags: Seq<bool>, n: nat, h: int)
    requires
        0 <= h < n,
    ensures
        flag_bytes(flags, n).len() == n,
        flag_bytes(flags, n)[h] == (if h >= flags.len() || flags[h] {
            1u8
        } else {
            0u8
        }),
{
}

/// How faults read: each by what was wrong, with the numbers that were found.
pub proof fn law_how_faults_read(version: u32, expected: usize, got: usize)
    ensures
        error_text(TrackError::TooShort) == "file too short to be a LeSynth track"@,
        error_text(TrackError::BadMagic) == "not a LeSynth track (bad magic)"@,
        error_text(TrackError::Version { version }) == "unsupported .lsft version "@ + decimal(
            version as nat,
        ),
        error_text(TrackError::TruncatedHeader) == "truncated .lsft header"@,
        error_text(TrackError::GridOverflow) == "grid size overflow"@,
        error_text(TrackError::PayloadOverflow) == "payload size overflow"@,
        error_text(TrackError::FlagOverflow) == "flag size overflow"@,
        error_text(TrackError::Corrupt { expected, got }) == "corrupt .lsft: expected "@ + decimal(
            expected as nat,
        ) + " bytes, got "@ + decimal(got as nat),
        error_text(TrackError::GridMismatch) == "grid length mismatch"@,
        error_text(TrackError::PitchMismatch) == "pitch_ratio length mismatch"@,
        error_text(TrackError::PartialInverse)
            == "bucket_lengths/dc/nyquist must all be empty or all num_buckets long"@,
        error_text(TrackError::PartialFlags)
            == "harmonic enable flags must be empty or num_harmonics long"@,
{
}

} // verus!
