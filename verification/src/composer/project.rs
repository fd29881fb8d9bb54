//! The project manifest.
//!
//! A saved project is a folder: the manifest, and beside it a file for every
//! sound a row plays. The manifest is line-oriented text, `key = value`, where
//! the value is the rest of the line, so that nothing in it needs escaping:
//!
//! ```text
//! gemstone-project 1
//! name = My Song
//! tempo = 120
//!
//! [row]
//! track = LeSynth Fourier 1
//! source = lesynth voice.lsft
//! gain = 1
//! lead = 0 none
//! autosave = 1
//! note = 60 0 1/4 0 1/8
//! ```
//!
//! Unknown keys are skipped, so a field added later loads in an older build. The
//! version line is checked, so a newer format is refused instead of half-read.
//!
//! Tempo and gains are carried as they are written.

use vstd::prelude::*;
use vstd::utf8::encode_utf8;

use super::length::{counted, fraction_denom, zero_length, Duration, Fraction, MAX_NUM};
use super::row::Item;
use crate::number::ZERO;
use crate::path::{is_same_path, join, joined, same_path};
use crate::registry::same_class;
use crate::text::{
    chars_of, decimal, find_char, part, push_decimal, quote, quoted, reads, same_str, split,
    split_chars, split_once, string_of, trim, trim_chars, unsigned_of, unsigned_value, words,
    words_of,
};

verus! {

/// What this writer produces. A reader accepts anything up to it.
pub const VERSION: u32 = 1;

/// Where a row's sound comes from, as recorded in the manifest.
#[derive(Clone, Debug, PartialEq)]
pub enum TrackSource {
    /// A grid saved beside the manifest, by a name relative to the project
    /// folder, so the folder stays portable.
    LeSynth { file: String },
    /// A LeSynth track carrying no grid: the plugin's own synth mode.
    LeSynthDefault,
    /// A recording, by the path of its file. It is the user's own, and stays
    /// where it is.
    Wav { path: String },
    /// A plugin, by absolute path, with the class to take from it and the file
    /// beside the manifest that its own state is saved in.
    Vst { path: String, class_id: Option<[i8; 16]>, state: Option<String> },
    /// The row had no track assigned when it was saved.
    NoTrack,
}

/// What a [`TrackSource`] says.
pub enum SourceView {
    LeSynth { file: Seq<char> },
    LeSynthDefault,
    Wav { path: Seq<char> },
    Vst { path: Seq<char>, class_id: Option<Seq<i8>>, state: Option<Seq<char>> },
    NoTrack,
}

/// Whether two sources are the same one.
pub open spec fn same_source(a: SourceView, b: SourceView) -> bool {
    match (a, b) {
        (SourceView::Wav { path: x }, SourceView::Wav { path: y }) => same_path(x, y),
        (
            SourceView::Vst { path: x, class_id: c, state: s },
            SourceView::Vst { path: y, class_id: d, state: t },
        ) => same_path(x, y) && c == d && s == t,
        _ => a == b,
    }
}

/// What an optional string says.
pub open spec fn text_view(s: Option<String>) -> Option<Seq<char>> {
    match s {
        Some(t) => Some(t@),
        None => None,
    }
}

/// What an optional class id holds.
pub open spec fn class_view(s: Option<[i8; 16]>) -> Option<Seq<i8>> {
    match s {
        Some(t) => Some(t@),
        None => None,
    }
}

impl View for TrackSource {
    type V = SourceView;

    open spec fn view(&self) -> SourceView {
        match *self {
            TrackSource::LeSynth { file } => SourceView::LeSynth { file: file@ },
            TrackSource::LeSynthDefault => SourceView::LeSynthDefault,
            TrackSource::Wav { path } => SourceView::Wav { path: path@ },
            TrackSource::Vst { path, class_id, state } => SourceView::Vst {
                path: path@,
                class_id: class_view(class_id),
                state: text_view(state),
            },
            TrackSource::NoTrack => SourceView::NoTrack,
        }
    }
}

/// What a source needs from the file system.
pub open spec fn needed_path(s: SourceView, dir: Seq<char>) -> Option<Seq<char>> {
    match s {
        SourceView::LeSynth { file } => Some(joined(dir, file)),
        SourceView::Wav { path } => Some(path),
        SourceView::Vst { path, .. } => Some(path),
        SourceView::LeSynthDefault => None,
        SourceView::NoTrack => None,
    }
}

/// How a source is named in a message.
pub open spec fn source_name(s: SourceView) -> Seq<char> {
    match s {
        SourceView::LeSynth { file } => file,
        SourceView::Wav { path } => path,
        SourceView::Vst { path, .. } => path,
        SourceView::LeSynthDefault => "LeSynth Fourier"@,
        SourceView::NoTrack => "no track"@,
    }
}

impl TrackSource {
    /// The same source again.
    pub fn duplicate(&self) -> (r: TrackSource)
        ensures
            r@ == self@,
    {
        match self {
            TrackSource::LeSynth { file } => TrackSource::LeSynth { file: file.clone() },
            TrackSource::LeSynthDefault => TrackSource::LeSynthDefault,
            TrackSource::Wav { path } => TrackSource::Wav { path: path.clone() },
            TrackSource::Vst { path, class_id, state } => TrackSource::Vst {
                path: path.clone(),
                class_id: *class_id,
                state: match state {
                    Some(file) => Some(file.clone()),
                    None => None,
                },
            },
            TrackSource::NoTrack => TrackSource::NoTrack,
        }
    }

    /// Whether two sources are the same one.
    pub fn same_as(&self, other: &TrackSource) -> (r: bool)
        ensures
            r == same_source(self@, other@),
    {
        match (self, other) {
            (TrackSource::LeSynth { file: x }, TrackSource::LeSynth { file: y }) => same_str(
                x.as_str(),
                y.as_str(),
            ),
            (TrackSource::LeSynthDefault, TrackSource::LeSynthDefault) => true,
            (TrackSource::Wav { path: x }, TrackSource::Wav { path: y }) => is_same_path(
                x.as_str(),
                y.as_str(),
            ),
            (
                TrackSource::Vst { path: x, class_id: c, state: s },
                TrackSource::Vst { path: y, class_id: d, state: t },
            ) => {
                let states = match (s, t) {
                    (None, None) => true,
                    (Some(a), Some(b)) => same_str(a.as_str(), b.as_str()),
                    _ => false,
                };
                is_same_path(x.as_str(), y.as_str()) && same_class(c, d) && states
            },
            (TrackSource::NoTrack, TrackSource::NoTrack) => true,
            _ => false,
        }
    }

    /// What this source needs from the file system, for the caller to check
    /// before trying to load it. A state file that has gone missing is not
    /// fatal, so it is not required here.
    pub fn required_path(&self, dir: &str) -> (r: Option<String>)
        ensures
            text_view(r) == needed_path(self@, dir@),
    {
        match self {
            TrackSource::LeSynth { file } => Some(join(dir, file.as_str())),
            TrackSource::Wav { path } => Some(path.clone()),
            TrackSource::Vst { path, .. } => Some(path.clone()),
            TrackSource::LeSynthDefault => None,
            TrackSource::NoTrack => None,
        }
    }

    /// How to name this source in a message when it cannot be found.
    pub fn describe(&self) -> (r: String)
        ensures
            r@ == source_name(self@),
    {
        match self {
            TrackSource::LeSynth { file } => file.clone(),
            TrackSource::Wav { path } => path.clone(),
            TrackSource::Vst { path, .. } => path.clone(),
            TrackSource::LeSynthDefault => "LeSynth Fourier".to_owned(),
            TrackSource::NoTrack => "no track".to_owned(),
        }
    }
}

/// One lane: which sound it plays, how loud, and the chain of frames on it.
#[derive(Clone, Debug, PartialEq)]
pub struct ProjectRow {
    /// Display name of the track, kept so a row whose source has gone missing
    /// can still say what it was looking for.
    pub track_name: String,
    pub source: TrackSource,
    /// The row's level, as it is written.
    pub gain: String,
    pub lead: Duration,
    pub autosave: bool,
    /// Not part of the manifest: a row that is read follows the transport.
    pub autoscroll: bool,
    pub items: Vec<Item>,
}

/// A whole composition, as it sits in the manifest.
#[derive(Clone, Debug, PartialEq)]
pub struct Project {
    pub name: String,
    /// The tempo, as it is written.
    pub tempo_bpm: String,
    pub rows: Vec<ProjectRow>,
}

/// What a [`ProjectRow`] says.
#[verifier::ext_equal]
pub struct RowView {
    pub track_name: Seq<char>,
    pub source: SourceView,
    pub gain: Seq<char>,
    pub lead: Duration,
    pub autosave: bool,
    pub autoscroll: bool,
    pub items: Seq<Item>,
}

/// What a [`Project`] says.
#[verifier::ext_equal]
pub struct ProjectView {
    pub name: Seq<char>,
    pub tempo_bpm: Seq<char>,
    pub rows: Seq<RowView>,
}

impl View for ProjectRow {
    type V = RowView;

    open spec fn view(&self) -> RowView {
        RowView {
            track_name: self.track_name@,
            source: self.source@,
            gain: self.gain@,
            lead: self.lead,
            autosave: self.autosave,
            autoscroll: self.autoscroll,
            items: self.items@,
        }
    }
}

/// What a list of rows says.
pub open spec fn rows_view(rows: Seq<ProjectRow>) -> Seq<RowView> {
    Seq::new(rows.len(), |i: int| rows[i]@)
}

impl View for Project {
    type V = ProjectView;

    open spec fn view(&self) -> ProjectView {
        ProjectView {
            name: self.name@,
            tempo_bpm: self.tempo_bpm@,
            rows: rows_view(self.rows@),
        }
    }
}

// ── field encodings ─────────────────────────────────────────────────────────

/// A character as it may stand inside a line.
pub open spec fn line_char(c: char) -> char {
    if c == '\n' || c == '\r' {
        ' '
    } else {
        c
    }
}

/// Text as one line: line breaks made spaces, and nothing around it.
pub open spec fn as_one_line(s: Seq<char>) -> Seq<char> {
    trim(s.map_values(|c: char| line_char(c)))
}

/// Trim a value to one line: the format's only real constraint on free text.
pub fn one_line(s: &str) -> (r: String)
    ensures
        r@ == as_one_line(s@),
{
    let v = chars_of(s);
    let mut out: Vec<char> = Vec::new();
    let mut i: usize = 0;
    while i < v.len()
        invariant
            i <= v.len(),
            v@ == s@,
            out@ == s@.take(i as int).map_values(|c: char| line_char(c)),
        decreases v.len() - i,
    {
        let c = v[i];
        out.push(if c == '\n' || c == '\r' {
            ' '
        } else {
            c
        });
        assert(out@ =~= s@.take(i + 1).map_values(|c: char| line_char(c)));
        i += 1;
    }
    assert(s@.take(i as int) =~= s@);
    string_of(&trim_chars(&out))
}

/// A text without any `c` at its end.
pub open spec fn without_trailing(s: Seq<char>, c: char) -> Seq<char>
    decreases s.len(),
{
    if s.len() > 0 && s.last() == c {
        without_trailing(s.drop_last(), c)
    } else {
        s
    }
}

/// How a number with four decimals is written: without the zeros at its end, or
/// the point that is left without any.
pub open spec fn number_text(fixed: Seq<char>) -> Seq<char> {
    let t = without_trailing(without_trailing(fixed, '0'), '.');
    if t.len() == 0 {
        "0"@
    } else {
        t
    }
}

/// Where the characters stop that are not a run of `c` at the end.
fn trailing_start(v: &[char], n: usize, c: char) -> (r: usize)
    requires
        n <= v.len(),
    ensures
        r <= n,
        v@.take(r as int) == without_trailing(v@.take(n as int), c),
{
    let mut k: usize = n;
    while k > 0 && v[k - 1] == c
        invariant
            k <= n <= v.len(),
            without_trailing(v@.take(n as int), c) == without_trailing(v@.take(k as int), c),
        decreases k,
    {
        assert(v@.take(k as int).drop_last() =~= v@.take(k - 1));
        k -= 1;
    }
    k
}

/// A number's text, compact: `fixed` is the number with four decimals.
pub fn num(fixed: &str) -> (r: String)
    ensures
        r@ == number_text(fixed@),
{
    let v = chars_of(fixed);
    assert(v@.take(v@.len() as int) =~= v@);
    let a: usize = trailing_start(&v, v.len(), '0');
    let b: usize = trailing_start(&v, a, '.');
    if b == 0 {
        return "0".to_owned();
    }
    assert(v@.subrange(0, b as int) =~= v@.take(b as int));
    string_of(&part(&v, 0, b))
}

/// The token of a fraction in the manifest.
pub open spec fn fraction_token(f: Fraction) -> Seq<char> {
    match f {
        Fraction::Zero => "none"@,
        Fraction::Half => "1/2"@,
        Fraction::Quarter => "1/4"@,
        Fraction::Eighth => "1/8"@,
        Fraction::Sixteenth => "1/16"@,
        Fraction::ThirtySecond => "1/32"@,
        Fraction::SixtyFourth => "1/64"@,
        Fraction::HundredTwentyEighth => "1/128"@,
        Fraction::TwoHundredFiftySixth => "1/256"@,
    }
}

/// A length in the manifest: the whole notes, then the fraction's token, or its
/// nominator and denominator where there is more than one of it.
pub open spec fn length_text(d: Duration) -> Seq<char> {
    decimal(d.wholes as nat) + seq![' '] + (if d.frac == Fraction::Zero || d.num <= 1 {
        fraction_token(d.frac)
    } else {
        decimal(d.num as nat) + seq!['/'] + decimal(fraction_denom(d.frac) as nat)
    })
}

/// Plain ASCII tokens: this is a file, and it is meant to be typed by hand when
/// a project needs repairing.
pub fn frac_token(f: Fraction) -> (r: &'static str)
    ensures
        r@ == fraction_token(f),
{
    match f {
        Fraction::Zero => "none",
        Fraction::Half => "1/2",
        Fraction::Quarter => "1/4",
        Fraction::Eighth => "1/8",
        Fraction::Sixteenth => "1/16",
        Fraction::ThirtySecond => "1/32",
        Fraction::SixtyFourth => "1/64",
        Fraction::HundredTwentyEighth => "1/128",
        Fraction::TwoHundredFiftySixth => "1/256",
    }
}

/// A length as the manifest writes it.
pub fn write_duration(d: Duration) -> (r: String)
    ensures
        r@ == length_text(d),
{
    let mut out = String::new();
    push_decimal(&mut out, d.wholes as u64);
    out.push(' ');
    if d.frac == Fraction::Zero || d.num <= 1 {
        out.append(frac_token(d.frac));
        assert(out@ =~= length_text(d));
        return out;
    }
    push_decimal(&mut out, d.num as u64);
    out.push('/');
    push_decimal(&mut out, d.frac.denom() as u64);
    assert(out@ =~= length_text(d));
    out
}

/// The digit of a value below sixteen.
pub open spec fn hex_char(n: int) -> char {
    if n < 10 {
        (48 + n) as char
    } else {
        (87 + n) as char
    }
}

/// A byte of a class id as the number from 0 to 255 it is written as.
pub open spec fn byte_value(b: i8) -> int {
    if b < 0 {
        b + 256
    } else {
        b as int
    }
}

/// The byte of a class id that a number from 0 to 255 stands for.
pub open spec fn byte_of(n: int) -> i8 {
    if n >= 128 {
        (n - 256) as i8
    } else {
        n as i8
    }
}

/// A class id in hexadecimal: two digits a byte.
pub open spec fn class_text(id: Seq<i8>) -> Seq<char> {
    Seq::new(
        2 * id.len(),
        |i: int|
            if i % 2 == 0 {
                hex_char(byte_value(id[i / 2]) / 16)
            } else {
                hex_char(byte_value(id[i / 2]) % 16)
            },
    )
}

/// The value of a hexadecimal digit, or -1.
pub open spec fn hex_value(c: char) -> int {
    if '0' <= c <= '9' {
        c as int - 48
    } else if 'a' <= c <= 'f' {
        c as int - 87
    } else if 'A' <= c <= 'F' {
        c as int - 55
    } else {
        -1
    }
}

/// The value of two hexadecimal digits, the first of which may be a `+`, or -1.
pub open spec fn pair_value(a: char, b: char) -> int {
    if hex_value(b) < 0 {
        -1
    } else if a == '+' {
        hex_value(b)
    } else if hex_value(a) < 0 {
        -1
    } else {
        hex_value(a) * 16 + hex_value(b)
    }
}

/// Why a manifest is not read.
pub enum FaultView {
    Empty,
    NotAProject { header: Seq<char> },
    BadVersion,
    Newer { version: u32 },
    BadFraction { token: Seq<char> },
    BadNote { value: Seq<char> },
    BadPitch,
    BadSource { value: Seq<char> },
    ClassIdLength { len: usize },
    ClassIdDigits,
}

/// Why a manifest is not read.
#[derive(Clone, Debug, PartialEq)]
pub enum ProjectError {
    /// There is nothing in the file.
    Empty,
    /// The first line is not a manifest's.
    NotAProject { header: String },
    /// The format version is not a number.
    BadVersion,
    /// The format is newer than this one.
    Newer { version: u32 },
    /// A length names a fraction there is none of.
    BadFraction { token: String },
    /// A note has not its five fields.
    BadNote { value: String },
    /// A note's pitch is not a number.
    BadPitch,
    /// A source is of no kind there is.
    BadSource { value: String },
    /// A class id is not 32 digits long.
    ClassIdLength { len: usize },
    /// A class id holds what is not a hexadecimal digit.
    ClassIdDigits,
}

impl View for ProjectError {
    type V = FaultView;

    open spec fn view(&self) -> FaultView {
        match *self {
            ProjectError::Empty => FaultView::Empty,
            ProjectError::NotAProject { header } => FaultView::NotAProject { header: header@ },
            ProjectError::BadVersion => FaultView::BadVersion,
            ProjectError::Newer { version } => FaultView::Newer { version },
            ProjectError::BadFraction { token } => FaultView::BadFraction { token: token@ },
            ProjectError::BadNote { value } => FaultView::BadNote { value: value@ },
            ProjectError::BadPitch => FaultView::BadPitch,
            ProjectError::BadSource { value } => FaultView::BadSource { value: value@ },
            ProjectError::ClassIdLength { len } => FaultView::ClassIdLength { len },
            ProjectError::ClassIdDigits => FaultView::ClassIdDigits,
        }
    }
}

/// The message of a fault.
pub open spec fn fault_text(f: FaultView) -> Seq<char> {
    match f {
        FaultView::Empty => "empty project file"@,
        FaultView::NotAProject { header } => "not a Gemstone project file (first line reads "@
            + quoted(header) + ")"@,
        FaultView::BadVersion => "unreadable format version"@,
        FaultView::Newer { version } => "project was saved by a newer Gemstone ("@ + decimal(
            version as nat,
        ) + " > "@ + decimal(VERSION as nat) + "); update before opening it"@,
        FaultView::BadFraction { token } => "unknown note fraction "@ + quoted(token),
        FaultView::BadNote { value } =>
            "a note takes 5 fields (pitch, note length, space length), got "@ + quoted(value),
        FaultView::BadPitch => "note pitch"@,
        FaultView::BadSource { value } => "unknown track source "@ + quoted(value),
        FaultView::ClassIdLength { len } => "a VST3 class id is 32 hex digits, got "@ + decimal(
            len as nat,
        ),
        FaultView::ClassIdDigits => "class id"@,
    }
}

impl ProjectError {
    /// The message to show.
    pub fn message(&self) -> (r: String)
        ensures
            r@ == fault_text(self@),
    {
        match self {
            ProjectError::Empty => "empty project file".to_owned(),
            ProjectError::NotAProject { header } => {
                let mut out = "not a Gemstone project file (first line reads ".to_owned();
                out.append(quote(header.as_str()).as_str());
                out.append(")");
                out
            },
            ProjectError::BadVersion => "unreadable format version".to_owned(),
            ProjectError::Newer { version } => {
                let mut out = "project was saved by a newer Gemstone (".to_owned();
                push_decimal(&mut out, *version as u64);
                out.append(" > ");
                push_decimal(&mut out, VERSION as u64);
                out.append("); update before opening it");
                out
            },
            ProjectError::BadFraction { token } => {
                let mut out = "unknown note fraction ".to_owned();
                out.append(quote(token.as_str()).as_str());
                out
            },
            ProjectError::BadNote { value } => {
                let mut out =
                    "a note takes 5 fields (pitch, note length, space length), got ".to_owned();
                out.append(quote(value.as_str()).as_str());
                out
            },
            ProjectError::BadPitch => "note pitch".to_owned(),
            ProjectError::BadSource { value } => {
                let mut out = "unknown track source ".to_owned();
                out.append(quote(value.as_str()).as_str());
                out
            },
            ProjectError::ClassIdLength { len } => {
                let mut out = "a VST3 class id is 32 hex digits, got ".to_owned();
                push_decimal(&mut out, *len as u64);
                out
            },
            ProjectError::ClassIdDigits => "class id".to_owned(),
        }
    }
}

/// A denominator's fraction.
pub open spec fn denom_fraction(s: Seq<char>) -> Option<Fraction> {
    if s == "2"@ {
        Some(Fraction::Half)
    } else if s == "4"@ {
        Some(Fraction::Quarter)
    } else if s == "8"@ {
        Some(Fraction::Eighth)
    } else if s == "16"@ {
        Some(Fraction::Sixteenth)
    } else if s == "32"@ {
        Some(Fraction::ThirtySecond)
    } else if s == "64"@ {
        Some(Fraction::SixtyFourth)
    } else if s == "128"@ {
        Some(Fraction::HundredTwentyEighth)
    } else if s == "256"@ {
        Some(Fraction::TwoHundredFiftySixth)
    } else {
        None
    }
}

/// The nominator a token counts its fraction with: one the boxes offer, written
/// plainly, with no sign and no zero before it.
pub open spec fn nominator(s: Seq<char>) -> Option<int> {
    match unsigned_value(s) {
        Some(k) if 1 <= k <= MAX_NUM && '1' <= s[0] <= '9' => Some(k as int),
        _ => None,
    }
}

/// What a fraction's token says: how many of which fraction.
pub open spec fn token_meaning(t: Seq<char>) -> Option<(int, Fraction)> {
    if t == "none"@ || t == "-"@ || t == "0"@ {
        Some((1, Fraction::Zero))
    } else {
        match split_once(t, '/') {
            None => None,
            Some((n, d)) => match (nominator(n), denom_fraction(d)) {
                (Some(k), Some(f)) => Some((k, f)),
                _ => None,
            },
        }
    }
}

/// The length that a whole-note count and a fraction's token name. A count that
/// is not a number counts for nothing.
pub open spec fn length_of(w: Seq<char>, f: Seq<char>) -> Result<Duration, FaultView> {
    let wholes = match unsigned_value(w) {
        Some(n) if n <= 255 => n as int,
        _ => 0,
    };
    match token_meaning(f) {
        Some((n, frac)) => Ok(counted(wholes, n, frac)),
        None => Err(FaultView::BadFraction { token: f }),
    }
}

/// The length a value of the manifest names.
pub open spec fn read_length(v: Seq<char>) -> Result<Duration, FaultView> {
    match split_once(v, ' ') {
        Some((w, f)) => length_of(trim(w), trim(f)),
        None => length_of(trim(v), "none"@),
    }
}

/// The frame a value of the manifest names.
pub open spec fn note_of(v: Seq<char>) -> Result<Item, FaultView> {
    let w = words(v);
    if w.len() != 5 {
        Err(FaultView::BadNote { value: v })
    } else {
        match unsigned_value(w[0]) {
            Some(pitch) if pitch <= 255 => match length_of(w[1], w[2]) {
                Err(e) => Err(e),
                Ok(dur) => match length_of(w[3], w[4]) {
                    Err(e) => Err(e),
                    Ok(space) => Ok(Item { id: 0, pitch: pitch as u8, start: ZERO, dur, space }),
                },
            },
            _ => Err(FaultView::BadPitch),
        }
    }
}

/// Whether pairs of hexadecimal digits can be read.
pub open spec fn hex_pairs(hex: Seq<char>) -> bool {
    forall|i: int| 0 <= i < 16 ==> pair_value(#[trigger] hex[2 * i], hex[2 * i + 1]) >= 0
}

/// The class id that hexadecimal digits name.
pub open spec fn class_of(hex: Seq<char>) -> Result<Seq<i8>, FaultView> {
    let len = encode_utf8(hex).len() as usize;
    if len != 32 {
        Err(FaultView::ClassIdLength { len })
    } else if hex.len() != 32 || !hex_pairs(hex) {
        Err(FaultView::ClassIdDigits)
    } else {
        Ok(Seq::new(16, |i: int| byte_of(pair_value(hex[2 * i], hex[2 * i + 1]))))
    }
}

/// The source a value of the manifest names.
pub open spec fn source_of(v: Seq<char>) -> Result<SourceView, FaultView> {
    let (kind, tail) = match split_once(v, ' ') {
        Some((k, r)) => (k, r),
        None => (v, Seq::empty()),
    };
    let rest = trim(tail);
    if kind == "none"@ {
        Ok(SourceView::NoTrack)
    } else if kind == "lesynth"@ {
        if rest.len() == 0 || rest == "-"@ {
            Ok(SourceView::LeSynthDefault)
        } else {
            Ok(SourceView::LeSynth { file: rest })
        }
    } else if kind == "wav"@ {
        Ok(SourceView::Wav { path: rest })
    } else if kind.len() >= 4 && kind.take(4) == "vst:"@ {
        match class_of(kind.skip(4)) {
            Err(e) => Err(e),
            Ok(id) => Ok(SourceView::Vst { path: rest, class_id: Some(id), state: None }),
        }
    } else if kind == "vst"@ {
        Ok(SourceView::Vst { path: rest, class_id: None, state: None })
    } else {
        Err(FaultView::BadSource { value: v })
    }
}

/// A source as the manifest writes it.
pub open spec fn source_text(s: SourceView) -> Seq<char> {
    match s {
        SourceView::LeSynth { file } => "lesynth "@ + as_one_line(file),
        SourceView::LeSynthDefault => "lesynth -"@,
        SourceView::Wav { path } => "wav "@ + as_one_line(path),
        SourceView::Vst { path, class_id: Some(id), .. } => "vst:"@ + class_text(id) + seq![' ']
            + as_one_line(path),
        SourceView::Vst { path, class_id: None, .. } => "vst "@ + as_one_line(path),
        SourceView::NoTrack => "none"@,
    }
}

/// A fraction's token read: how many of which fraction.
pub fn frac_from_token(t: &Vec<char>) -> (r: Result<(u8, Fraction), ProjectError>)
    ensures
        match r {
            Ok((n, f)) => token_meaning(t@) == Some((n as int, f)),
            Err(e) => token_meaning(t@) is None && e@ == (FaultView::BadFraction { token: t@ }),
        },
{
    if reads(t, "none") || reads(t, "-") || reads(t, "0") {
        return Ok((1, Fraction::Zero));
    }
    let i: usize = find_char(t, '/');
    if i >= t.len() {
        return Err(ProjectError::BadFraction { token: string_of(t) });
    }
    let n = part(t, 0, i);
    let d = part(t, i + 1, t.len());
    assert(n@ =~= t@.take(i as int));
    assert(d@ =~= t@.skip(i + 1));
    let frac = if reads(&d, "2") {
        Fraction::Half
    } else if reads(&d, "4") {
        Fraction::Quarter
    } else if reads(&d, "8") {
        Fraction::Eighth
    } else if reads(&d, "16") {
        Fraction::Sixteenth
    } else if reads(&d, "32") {
        Fraction::ThirtySecond
    } else if reads(&d, "64") {
        Fraction::SixtyFourth
    } else if reads(&d, "128") {
        Fraction::HundredTwentyEighth
    } else if reads(&d, "256") {
        Fraction::TwoHundredFiftySixth
    } else {
        return Err(ProjectError::BadFraction { token: string_of(t) });
    };
    match unsigned_of(&n, MAX_NUM as u64) {
        Some(k) if k >= 1 && '1' <= n[0] && n[0] <= '9' => Ok((k as u8, frac)),
        _ => Err(ProjectError::BadFraction { token: string_of(t) }),
    }
}

/// The length that a whole-note count and a fraction's token name.
pub fn length_from(w: &Vec<char>, f: &Vec<char>) -> (r: Result<Duration, ProjectError>)
    ensures
        match r {
            Ok(d) => length_of(w@, f@) == Ok::<Duration, FaultView>(d),
            Err(e) => length_of(w@, f@) == Err::<Duration, FaultView>(e@),
        },
{
    let wholes: u8 = match unsigned_of(w, 255) {
        Some(n) => n as u8,
        None => 0,
    };
    match frac_from_token(f) {
        Ok((n, frac)) => Ok(Duration::with_num(wholes, n, frac)),
        Err(e) => Err(e),
    }
}

/// The length a value of the manifest names.
pub fn read_duration(v: &Vec<char>) -> (r: Result<Duration, ProjectError>)
    ensures
        match r {
            Ok(d) => read_length(v@) == Ok::<Duration, FaultView>(d),
            Err(e) => read_length(v@) == Err::<Duration, FaultView>(e@),
        },
{
    let i: usize = find_char(v, ' ');
    if i < v.len() {
        let w = part(v, 0, i);
        let f = part(v, i + 1, v.len());
        assert(w@ =~= v@.take(i as int));
        assert(f@ =~= v@.skip(i + 1));
        length_from(&trim_chars(&w), &trim_chars(&f))
    } else {
        length_from(&trim_chars(v), &chars_of("none"))
    }
}

/// The frame a value of the manifest names.
pub fn read_note(v: &Vec<char>) -> (r: Result<Item, ProjectError>)
    ensures
        match r {
            Ok(item) => note_of(v@) == Ok::<Item, FaultView>(item),
            Err(e) => note_of(v@) == Err::<Item, FaultView>(e@),
        },
{
    let w = words_of(v);
    if w.len() != 5 {
        return Err(ProjectError::BadNote { value: string_of(v) });
    }
    let pitch: u8 = match unsigned_of(&w[0], 255) {
        Some(n) => n as u8,
        None => {
            return Err(ProjectError::BadPitch);
        },
    };
    let dur = match length_from(&w[1], &w[2]) {
        Ok(d) => d,
        Err(e) => {
            return Err(e);
        },
    };
    let space = match length_from(&w[3], &w[4]) {
        Ok(d) => d,
        Err(e) => {
            return Err(e);
        },
    };
    Ok(Item { id: 0, pitch, start: ZERO, dur, space })
}

fn hex_digit(n: u8) -> (r: char)
    requires
        n < 16,
    ensures
        r == hex_char(n as int),
{
    if n < 10 {
        (48 + n) as char
    } else {
        (87 + n) as char
    }
}

/// A class id in hexadecimal.
pub fn hex_class(id: &[i8; 16]) -> (r: String)
    ensures
        r@ == class_text(id@),
{
    let mut out: Vec<char> = Vec::new();
    let mut i: usize = 0;
    while i < 16
        invariant
            i <= 16,
            out@ == class_text(id@).take(2 * i as int),
        decreases 16 - i,
    {
        let b: i8 = id[i];
        let n: u8 = if b < 0 {
            ((b as i16) + 256) as u8
        } else {
            b as u8
        };
        assert(n == byte_value(b));
        out.push(hex_digit(n / 16));
        out.push(hex_digit(n % 16));
        proof {
            let t = class_text(id@);
            assert(t[2 * i as int] == hex_char(byte_value(b) / 16)) by {
                assert((2 * i as int) / 2 == i);
            }
            assert(t[2 * i + 1] == hex_char(byte_value(b) % 16)) by {
                assert((2 * i + 1) / 2 == i);
            }
            assert(out@ =~= t.take(2 * (i + 1)));
        }
        i += 1;
    }
    assert(class_text(id@).take(32) =~= class_text(id@));
    string_of(&out)
}

fn hex_number(c: char) -> (r: i16)
    ensures
        r == hex_value(c),
        -1 <= r < 16,
{
    if '0' <= c && c <= '9' {
        (c as u8 - 48) as i16
    } else if 'a' <= c && c <= 'f' {
        (c as u8 - 87) as i16
    } else if 'A' <= c && c <= 'F' {
        (c as u8 - 55) as i16
    } else {
        -1
    }
}

fn pair_number(a: char, b: char) -> (r: i16)
    ensures
        r == pair_value(a, b),
        -1 <= r < 256,
{
    let low: i16 = hex_number(b);
    let high: i16 = hex_number(a);
    if low < 0 {
        -1
    } else if a == '+' {
        low
    } else if high < 0 {
        -1
    } else {
        high * 16 + low
    }
}

/// The class id that hexadecimal digits name.
pub fn class_from_hex(hex: &Vec<char>) -> (r: Result<[i8; 16], ProjectError>)
    ensures
        match r {
            Ok(id) => class_of(hex@) == Ok::<Seq<i8>, FaultView>(id@),
            Err(e) => class_of(hex@) == Err::<Seq<i8>, FaultView>(e@),
        },
{
    let owned = string_of(hex);
    let text: &str = owned.as_str();
    let len: usize = text.len();
    assert(len == encode_utf8(hex@).len() as usize);
    if len != 32 {
        return Err(ProjectError::ClassIdLength { len });
    }
    if hex.len() != 32 {
        return Err(ProjectError::ClassIdDigits);
    }
    let mut out: [i8; 16] = [0;16];
    let mut i: usize = 0;
    while i < 16
        invariant
            i <= 16,
            hex@.len() == 32,
            encode_utf8(hex@).len() as usize == 32,
            forall|k: int| 0 <= k < i ==> pair_value(#[trigger] hex@[2 * k], hex@[2 * k + 1]) >= 0,
            forall|k: int|
                0 <= k < i ==> #[trigger] out@[k] == byte_of(
                    pair_value(hex@[2 * k], hex@[2 * k + 1]),
                ),
        decreases 16 - i,
    {
        let n: i16 = pair_number(hex[2 * i], hex[2 * i + 1]);
        if n < 0 {
            assert(!hex_pairs(hex@)) by {
                assert(pair_value(hex@[2 * i as int], hex@[2 * i + 1]) < 0);
            }
            return Err(ProjectError::ClassIdDigits);
        }
        let b: i8 = if n >= 128 {
            (n - 256) as i8
        } else {
            n as i8
        };
        out[i] = b;
        i += 1;
    }
    assert(hex_pairs(hex@));
    assert(out@ =~= Seq::new(16, |i: int| byte_of(pair_value(hex@[2 * i], hex@[2 * i + 1]))));
    Ok(out)
}

/// A source as the manifest writes it. A state file rides on a line of its own.
pub fn write_source(s: &TrackSource) -> (r: String)
    ensures
        r@ == source_text(s@),
{
    match s {
        TrackSource::LeSynth { file } => {
            let mut out = "lesynth ".to_owned();
            out.append(one_line(file.as_str()).as_str());
            out
        },
        TrackSource::LeSynthDefault => "lesynth -".to_owned(),
        TrackSource::Wav { path } => {
            let mut out = "wav ".to_owned();
            out.append(one_line(path.as_str()).as_str());
            out
        },
        TrackSource::Vst { path, class_id, .. } => match class_id {
            Some(id) => {
                let mut out = "vst:".to_owned();
                out.append(hex_class(id).as_str());
                out.push(' ');
                out.append(one_line(path.as_str()).as_str());
                assert(out@ =~= source_text(s@));
                out
            },
            None => {
                let mut out = "vst ".to_owned();
                out.append(one_line(path.as_str()).as_str());
                out
            },
        },
        TrackSource::NoTrack => "none".to_owned(),
    }
}

/// The source a value of the manifest names.
pub fn read_source(v: &Vec<char>) -> (r: Result<TrackSource, ProjectError>)
    ensures
        match r {
            Ok(s) => source_of(v@) == Ok::<SourceView, FaultView>(s@),
            Err(e) => source_of(v@) == Err::<SourceView, FaultView>(e@),
        },
{
    let i: usize = find_char(v, ' ');
    let (kind, tail) = if i < v.len() {
        (part(v, 0, i), part(v, i + 1, v.len()))
    } else {
        (part(v, 0, v.len()), Vec::new())
    };
    proof {
        if i < v.len() {
            assert(kind@ =~= v@.take(i as int));
            assert(tail@ =~= v@.skip(i + 1));
        } else {
            assert(kind@ =~= v@);
            assert(tail@ =~= Seq::<char>::empty());
        }
    }
    let rest = trim_chars(&tail);
    if reads(&kind, "none") {
        return Ok(TrackSource::NoTrack);
    }
    if reads(&kind, "lesynth") {
        if rest.len() == 0 || reads(&rest, "-") {
            return Ok(TrackSource::LeSynthDefault);
        }
        return Ok(TrackSource::LeSynth { file: string_of(&rest) });
    }
    if reads(&kind, "wav") {
        return Ok(TrackSource::Wav { path: string_of(&rest) });
    }
    if kind.len() >= 4 {
        let prefix = part(&kind, 0, 4);
        assert(prefix@ =~= kind@.take(4));
        if reads(&prefix, "vst:") {
            let hex = part(&kind, 4, kind.len());
            assert(hex@ =~= kind@.skip(4));
            return match class_from_hex(&hex) {
                Ok(id) => {
                    let path = string_of(&rest);
                    Ok(TrackSource::Vst { path, class_id: Some(id), state: None })
                },
                Err(e) => Err(e),
            };
        }
    }
    if reads(&kind, "vst") {
        return Ok(TrackSource::Vst { path: string_of(&rest), class_id: None, state: None });
    }
    Err(ProjectError::BadSource { value: string_of(v) })
}

// ── the manifest as lines ───────────────────────────────────────────────────

/// Lines put together, each with its line break.
pub open spec fn text_of(lines: Seq<Seq<char>>) -> Seq<char>
    decreases lines.len(),
{
    if lines.len() == 0 {
        Seq::empty()
    } else {
        (text_of(lines.drop_last()) + lines.last()).push('\n')
    }
}

/// A `key = value` line.
pub open spec fn field(key: Seq<char>, value: Seq<char>) -> Seq<char> {
    key + seq![' ', '=', ' '] + value
}

/// The line of a frame.
pub open spec fn note_line(item: Item) -> Seq<char> {
    field(
        "note"@,
        decimal(item.pitch as nat) + seq![' '] + length_text(item.dur) + seq![' '] + length_text(
            item.space,
        ),
    )
}

/// The lines of a chain of frames.
pub open spec fn note_lines(items: Seq<Item>) -> Seq<Seq<char>>
    decreases items.len(),
{
    if items.len() == 0 {
        Seq::empty()
    } else {
        note_lines(items.drop_last()).push(note_line(items.last()))
    }
}

/// The line that a plugin's state is named on, where it has one.
pub open spec fn state_lines(s: SourceView) -> Seq<Seq<char>> {
    match s {
        SourceView::Vst { state: Some(file), .. } => seq![field("state"@, as_one_line(file))],
        _ => Seq::empty(),
    }
}

/// The lines that open a row.
pub open spec fn row_head(r: RowView) -> Seq<Seq<char>> {
    seq![
        Seq::empty(),
        "[row]"@,
        field("track"@, as_one_line(r.track_name)),
        field("source"@, source_text(r.source)),
    ]
}

/// The lines of a row's settings.
pub open spec fn row_settings(r: RowView) -> Seq<Seq<char>> {
    seq![
        field("gain"@, as_one_line(r.gain)),
        field("lead"@, length_text(r.lead)),
        field("autosave"@, if r.autosave {
            "1"@
        } else {
            "0"@
        }),
    ]
}

/// The lines of a row.
pub open spec fn row_lines(r: RowView) -> Seq<Seq<char>> {
    row_head(r) + state_lines(r.source) + row_settings(r) + note_lines(r.items)
}

/// The lines of rows, in order.
pub open spec fn rows_lines(rows: Seq<RowView>) -> Seq<Seq<char>>
    decreases rows.len(),
{
    if rows.len() == 0 {
        Seq::empty()
    } else {
        rows_lines(rows.drop_last()) + row_lines(rows.last())
    }
}

/// The lines that open a manifest.
pub open spec fn head_lines(p: ProjectView) -> Seq<Seq<char>> {
    seq![
        "gemstone-project 1"@,
        field("name"@, as_one_line(p.name)),
        field("tempo"@, as_one_line(p.tempo_bpm)),
    ]
}

/// The lines of a manifest.
pub open spec fn manifest_lines(p: ProjectView) -> Seq<Seq<char>> {
    head_lines(p) + rows_lines(p.rows)
}

/// A project as text.
pub open spec fn manifest_text(p: ProjectView) -> Seq<char> {
    text_of(manifest_lines(p))
}

pub proof fn lemma_text_of_add(a: Seq<Seq<char>>, b: Seq<Seq<char>>)
    ensures
        text_of(a + b) == text_of(a) + text_of(b),
    decreases b.len(),
{
    if b.len() == 0 {
        assert(a + b =~= a);
        assert(text_of(a) + text_of(b) =~= text_of(a));
    } else {
        lemma_text_of_add(a, b.drop_last());
        assert((a + b).drop_last() =~= a + b.drop_last());
        assert((text_of(a) + text_of(b.drop_last()) + b.last()).push('\n') =~= text_of(a) + (text_of(
            b.drop_last(),
        ) + b.last()).push('\n'));
    }
}

fn push_field(out: &mut String, key: &str, value: &str)
    ensures
        final(out)@ == (old(out)@ + field(key@, value@)).push('\n'),
{
    out.append(key);
    out.push(' ');
    out.push('=');
    out.push(' ');
    out.append(value);
    out.push('\n');
    assert(out@ =~= (old(out)@ + field(key@, value@)).push('\n'));
}

fn row_head_text(row: &ProjectRow) -> (r: String)
    ensures
        r@ == text_of(row_head(row@) + state_lines(row@.source)),
{
    let mut out = String::new();
    out.push('\n');
    out.append("[row]");
    out.push('\n');
    push_field(&mut out, "track", one_line(row.track_name.as_str()).as_str());
    push_field(&mut out, "source", write_source(&row.source).as_str());
    let ghost h = row_head(row@);
    proof {
        reveal_with_fuel(text_of, 5);
        assert(h.drop_last().drop_last().drop_last().drop_last() =~= Seq::<Seq<char>>::empty());
        assert(out@ =~= text_of(h));
    }
    if let TrackSource::Vst { state: Some(file), .. } = &row.source {
        push_field(&mut out, "state", one_line(file.as_str()).as_str());
        assert((h + state_lines(row@.source)).drop_last() =~= h);
    } else {
        assert(h + state_lines(row@.source) =~= h);
    }
    out
}

fn row_settings_text(row: &ProjectRow) -> (r: String)
    ensures
        r@ == text_of(row_settings(row@)),
{
    let mut out = String::new();
    push_field(&mut out, "gain", one_line(row.gain.as_str()).as_str());
    push_field(&mut out, "lead", write_duration(row.lead).as_str());
    push_field(
        &mut out,
        "autosave",
        if row.autosave {
            "1"
        } else {
            "0"
        },
    );
    proof {
        let l = row_settings(row@);
        reveal_with_fuel(text_of, 4);
        assert(l.drop_last().drop_last().drop_last() =~= Seq::<Seq<char>>::empty());
        assert(out@ =~= text_of(l));
    }
    out
}

fn notes_text(items: &Vec<Item>) -> (r: String)
    ensures
        r@ == text_of(note_lines(items@)),
{
    let mut out = String::new();
    let mut i: usize = 0;
    assert(note_lines(items@.take(0)) =~= Seq::<Seq<char>>::empty());
    while i < items.len()
        invariant
            i <= items.len(),
            out@ == text_of(note_lines(items@.take(i as int))),
        decreases items.len() - i,
    {
        let item = items[i];
        let mut value = String::new();
        push_decimal(&mut value, item.pitch as u64);
        value.push(' ');
        value.append(write_duration(item.dur).as_str());
        value.push(' ');
        value.append(write_duration(item.space).as_str());
        assert(value@ =~= decimal(item.pitch as nat) + seq![' '] + length_text(item.dur) + seq![' ']
            + length_text(item.space));
        push_field(&mut out, "note", value.as_str());
        proof {
            let t = items@.take(i + 1);
            assert(t.drop_last() =~= items@.take(i as int));
            assert(note_lines(t).drop_last() =~= note_lines(items@.take(i as int)));
            assert(note_lines(t).last() == note_line(item));
        }
        i += 1;
    }
    assert(items@.take(i as int) =~= items@);
    out
}

fn row_text(row: &ProjectRow) -> (r: String)
    ensures
        r@ == text_of(row_lines(row@)),
{
    let mut out = row_head_text(row);
    out.append(row_settings_text(row).as_str());
    out.append(notes_text(&row.items).as_str());
    proof {
        let v = row@;
        let a = row_head(v) + state_lines(v.source);
        lemma_text_of_add(a, row_settings(v));
        lemma_text_of_add(a + row_settings(v), note_lines(v.items));
    }
    out
}

impl Project {
    /// The project as text.
    pub fn to_text(&self) -> (r: String)
        ensures
            r@ == manifest_text(self@),
    {
        let ghost v = self@;
        let mut out = "gemstone-project 1".to_owned();
        out.push('\n');
        push_field(&mut out, "name", one_line(self.name.as_str()).as_str());
        push_field(&mut out, "tempo", one_line(self.tempo_bpm.as_str()).as_str());
        proof {
            let h = head_lines(v);
            reveal_with_fuel(text_of, 4);
            assert(h.drop_last().drop_last().drop_last() =~= Seq::<Seq<char>>::empty());
            assert(out@ =~= text_of(h));
        }
        let mut i: usize = 0;
        assert(head_lines(v) + rows_lines(v.rows.take(0)) =~= head_lines(v));
        while i < self.rows.len()
            invariant
                i <= self.rows.len(),
                v == self@,
                out@ == text_of(head_lines(v) + rows_lines(v.rows.take(i as int))),
            decreases self.rows.len() - i,
        {
            out.append(row_text(&self.rows[i]).as_str());
            proof {
                let t = v.rows.take(i + 1);
                let before = head_lines(v) + rows_lines(v.rows.take(i as int));
                assert(t.drop_last() =~= v.rows.take(i as int));
                lemma_text_of_add(before, row_lines(v.rows[i as int]));
                assert(head_lines(v) + rows_lines(t) =~= before + row_lines(v.rows[i as int]));
            }
            i += 1;
        }
        assert(v.rows.take(i as int) =~= v.rows);
        out
    }
}

// ── reading ─────────────────────────────────────────────────────────────────

/// Whether a trimmed line says anything: it is not empty and not a comment.
pub open spec fn says_something(line: Seq<char>) -> bool {
    line.len() > 0 && line[0] != '#'
}

/// The lines that say anything, trimmed.
pub open spec fn content(lines: Seq<Seq<char>>) -> Seq<Seq<char>>
    decreases lines.len(),
{
    if lines.len() == 0 {
        Seq::empty()
    } else {
        let line = trim(lines.last());
        if says_something(line) {
            content(lines.drop_last()).push(line)
        } else {
            content(lines.drop_last())
        }
    }
}

/// A row before anything is read into it.
pub open spec fn new_row() -> RowView {
    RowView {
        track_name: Seq::empty(),
        source: SourceView::NoTrack,
        gain: "1"@,
        lead: zero_length(),
        autosave: true,
        autoscroll: true,
        items: Seq::empty(),
    }
}

/// A project before anything is read into it.
pub open spec fn new_project() -> ProjectView {
    ProjectView { name: Seq::empty(), tempo_bpm: "120"@, rows: Seq::empty() }
}

/// What a `key = value` line makes of the row it stands under.
pub open spec fn row_field(r: RowView, key: Seq<char>, value: Seq<char>) -> Result<
    RowView,
    FaultView,
> {
    if key == "track"@ {
        Ok(RowView { track_name: value, ..r })
    } else if key == "source"@ {
        match source_of(value) {
            Ok(source) => Ok(RowView { source, ..r }),
            Err(e) => Err(e),
        }
    } else if key == "state"@ {
        match r.source {
            SourceView::Vst { path, class_id, .. } => Ok(
                RowView { source: SourceView::Vst { path, class_id, state: Some(value) }, ..r },
            ),
            _ => Ok(r),
        }
    } else if key == "gain"@ {
        Ok(RowView { gain: value, ..r })
    } else if key == "lead"@ {
        match read_length(value) {
            Ok(lead) => Ok(RowView { lead, ..r }),
            Err(e) => Err(e),
        }
    } else if key == "autosave"@ {
        Ok(RowView { autosave: value != "0"@, ..r })
    } else if key == "note"@ {
        match note_of(value) {
            Ok(item) => Ok(RowView { items: r.items.push(item), ..r }),
            Err(e) => Err(e),
        }
    } else {
        Ok(r)
    }
}

/// What a `key = value` line makes of a project that has no rows yet.
pub open spec fn project_field(p: ProjectView, key: Seq<char>, value: Seq<char>) -> ProjectView {
    if key == "name"@ {
        ProjectView { name: value, ..p }
    } else if key == "tempo"@ {
        ProjectView { tempo_bpm: value, ..p }
    } else {
        p
    }
}

/// What a line makes of a project.
pub open spec fn read_line(p: ProjectView, line: Seq<char>) -> Result<ProjectView, FaultView> {
    if line == "[row]"@ {
        Ok(ProjectView { rows: p.rows.push(new_row()), ..p })
    } else {
        match split_once(line, '=') {
            None => Ok(p),
            Some((k, v)) => {
                let key = trim(k);
                let value = trim(v);
                if p.rows.len() == 0 {
                    Ok(project_field(p, key, value))
                } else {
                    match row_field(p.rows.last(), key, value) {
                        Err(e) => Err(e),
                        Ok(r) => Ok(ProjectView { rows: p.rows.drop_last().push(r), ..p }),
                    }
                }
            },
        }
    }
}

/// What lines make of a project, in order, up to the first fault.
pub open spec fn read_lines(p: ProjectView, lines: Seq<Seq<char>>) -> Result<ProjectView, FaultView>
    decreases lines.len(),
{
    if lines.len() == 0 {
        Ok(p)
    } else {
        match read_lines(p, lines.drop_last()) {
            Err(e) => Err(e),
            Ok(q) => read_line(q, lines.last()),
        }
    }
}

/// What is wrong with the first line of a manifest, if anything.
pub open spec fn header_fault(header: Seq<char>) -> Option<FaultView> {
    let (magic, version) = match split_once(header, ' ') {
        Some((m, v)) => (m, v),
        None => (header, Seq::empty()),
    };
    if magic != "gemstone-project"@ {
        Some(FaultView::NotAProject { header })
    } else {
        match unsigned_value(trim(version)) {
            Some(n) if n <= u32::MAX => if n > VERSION {
                Some(FaultView::Newer { version: n as u32 })
            } else {
                None
            },
            _ => Some(FaultView::BadVersion),
        }
    }
}

/// The project a manifest's text holds.
pub open spec fn parsed(text: Seq<char>) -> Result<ProjectView, FaultView> {
    let lines = content(split(text, '\n'));
    if lines.len() == 0 {
        Err(FaultView::Empty)
    } else {
        match header_fault(lines[0]) {
            Some(e) => Err(e),
            None => read_lines(new_project(), lines.skip(1)),
        }
    }
}

/// A fault in some of the lines is the fault of all of them.
proof fn lemma_fault_stays(p: ProjectView, lines: Seq<Seq<char>>, k: int)
    requires
        0 <= k <= lines.len(),
        read_lines(p, lines.take(k)) is Err,
    ensures
        read_lines(p, lines) == read_lines(p, lines.take(k)),
    decreases lines.len() - k,
{
    if k < lines.len() {
        assert(lines.take(k + 1).drop_last() =~= lines.take(k));
        lemma_fault_stays(p, lines, k + 1);
    } else {
        assert(lines.take(k) =~= lines);
    }
}

/// The lines of a text that say anything.
fn content_lines(text: &str) -> (r: Vec<Vec<char>>)
    ensures
        r@.len() == content(split(text@, '\n')).len(),
        forall|i: int|
            0 <= i < r@.len() ==> (#[trigger] r@[i])@ == content(split(text@, '\n'))[i],
{
    let pieces = split_chars(&chars_of(text), '\n');
    let ghost all = split(text@, '\n');
    let mut out: Vec<Vec<char>> = Vec::new();
    let mut i: usize = 0;
    while i < pieces.len()
        invariant
            i <= pieces.len(),
            pieces@.len() == all.len(),
            forall|k: int| 0 <= k < pieces@.len() ==> (#[trigger] pieces@[k])@ == all[k],
            out@.len() == content(all.take(i as int)).len(),
            forall|k: int|
                0 <= k < out@.len() ==> (#[trigger] out@[k])@ == content(all.take(i as int))[k],
        decreases pieces.len() - i,
    {
        let line = trim_chars(&pieces[i]);
        proof {
            assert(all.take(i + 1).drop_last() =~= all.take(i as int));
            assert(all.take(i + 1).last() == pieces@[i as int]@);
        }
        if line.len() > 0 && line[0] != '#' {
            out.push(line);
        }
        i += 1;
    }
    assert(all.take(i as int) =~= all);
    out
}

fn check_header(header: &Vec<char>) -> (r: Option<ProjectError>)
    ensures
        match r {
            Some(e) => header_fault(header@) == Some(e@),
            None => header_fault(header@) is None,
        },
{
    let i: usize = find_char(header, ' ');
    let (magic, version) = if i < header.len() {
        (part(header, 0, i), part(header, i + 1, header.len()))
    } else {
        (part(header, 0, header.len()), Vec::new())
    };
    proof {
        if i < header.len() {
            assert(magic@ =~= header@.take(i as int));
            assert(version@ =~= header@.skip(i + 1));
        } else {
            assert(magic@ =~= header@);
            assert(version@ =~= Seq::<char>::empty());
        }
    }
    if !reads(&magic, "gemstone-project") {
        return Some(ProjectError::NotAProject { header: string_of(header) });
    }
    match unsigned_of(&trim_chars(&version), u32::MAX as u64) {
        None => Some(ProjectError::BadVersion),
        Some(n) => if n > VERSION as u64 {
            Some(ProjectError::Newer { version: n as u32 })
        } else {
            None
        },
    }
}

impl ProjectRow {
    /// A row before anything is read into it.
    fn blank() -> (r: ProjectRow)
        ensures
            r@ == new_row(),
    {
        let r = ProjectRow {
            track_name: String::new(),
            source: TrackSource::NoTrack,
            gain: "1".to_owned(),
            lead: Duration::new(0, Fraction::Zero),
            autosave: true,
            autoscroll: true,
            items: Vec::new(),
        };
        assert(r@ =~= new_row());
        r
    }

    /// Read one `key = value` line into the row.
    fn set_field(&mut self, key: &Vec<char>, value: &Vec<char>) -> (r: Result<(), ProjectError>)
        ensures
            match r {
                Ok(_) => row_field(old(self)@, key@, value@) == Ok::<RowView, FaultView>(
                    final(self)@,
                ),
                Err(e) => row_field(old(self)@, key@, value@) == Err::<RowView, FaultView>(e@),
            },
    {
        if reads(key, "track") {
            self.track_name = string_of(value);
        } else if reads(key, "source") {
            match read_source(value) {
                Ok(source) => {
                    self.source = source;
                },
                Err(e) => {
                    return Err(e);
                },
            }
        } else if reads(key, "state") {
            let mut state = None;
            if let TrackSource::Vst { path, class_id, .. } = &self.source {
                state = Some((path.clone(), *class_id));
            }
            if let Some((path, class_id)) = state {
                self.source = TrackSource::Vst { path, class_id, state: Some(string_of(value)) };
            }
        } else if reads(key, "gain") {
            self.gain = string_of(value);
        } else if reads(key, "lead") {
            match read_duration(value) {
                Ok(lead) => {
                    self.lead = lead;
                },
                Err(e) => {
                    return Err(e);
                },
            }
        } else if reads(key, "autosave") {
            self.autosave = !reads(value, "0");
        } else if reads(key, "note") {
            match read_note(value) {
                Ok(item) => {
                    self.items.push(item);
                },
                Err(e) => {
                    return Err(e);
                },
            }
        }
        assert(row_field(old(self)@, key@, value@) is Ok);
        assert(row_field(old(self)@, key@, value@)->Ok_0 =~= self@);
        Ok(())
    }
}

impl Project {
    /// Read one line into the project.
    fn take_line(&mut self, line: &Vec<char>) -> (r: Result<(), ProjectError>)
        ensures
            match r {
                Ok(_) => read_line(old(self)@, line@) == Ok::<ProjectView, FaultView>(final(self)@),
                Err(e) => read_line(old(self)@, line@) == Err::<ProjectView, FaultView>(e@),
            },
    {
        let ghost was = self@;
        if reads(line, "[row]") {
            self.rows.push(ProjectRow::blank());
            assert(self@ =~= (ProjectView { rows: was.rows.push(new_row()), ..was }));
            return Ok(());
        }
        let i: usize = find_char(line, '=');
        if i >= line.len() {
            return Ok(());
        }
        let k = part(line, 0, i);
        let v = part(line, i + 1, line.len());
        assert(k@ =~= line@.take(i as int));
        assert(v@ =~= line@.skip(i + 1));
        let key = trim_chars(&k);
        let value = trim_chars(&v);
        match self.rows.pop() {
            None => {
                if reads(&key, "name") {
                    self.name = string_of(&value);
                } else if reads(&key, "tempo") {
                    self.tempo_bpm = string_of(&value);
                }
                assert(self@ =~= project_field(was, key@, value@));
                Ok(())
            },
            Some(mut row) => {
                assert(row@ == was.rows.last());
                let r = row.set_field(&key, &value);
                self.rows.push(row);
                match r {
                    Ok(_) => {
                        assert(self@ =~= (ProjectView {
                            rows: was.rows.drop_last().push(row@),
                            ..was
                        }));
                        Ok(())
                    },
                    Err(e) => Err(e),
                }
            },
        }
    }

    /// The project a manifest's text holds.
    pub fn parse(text: &str) -> (r: Result<Project, ProjectError>)
        ensures
            match r {
                Ok(p) => parsed(text@) == Ok::<ProjectView, FaultView>(p@),
                Err(e) => parsed(text@) == Err::<ProjectView, FaultView>(e@),
            },
    {
        let lines = content_lines(text);
        let ghost all = content(split(text@, '\n'));
        let ghost rest = all.skip(1);
        if lines.len() == 0 {
            return Err(ProjectError::Empty);
        }
        if let Some(e) = check_header(&lines[0]) {
            return Err(e);
        }
        let mut project = Project {
            name: String::new(),
            tempo_bpm: "120".to_owned(),
            rows: Vec::new(),
        };
        assert(project@ =~= new_project());
        let mut i: usize = 1;
        assert(rest.take(0) =~= Seq::<Seq<char>>::empty());
        while i < lines.len()
            invariant
                1 <= i <= lines.len(),
                lines@.len() == all.len(),
                rest == all.skip(1),
                forall|k: int| 0 <= k < lines@.len() ==> (#[trigger] lines@[k])@ == all[k],
                read_lines(new_project(), rest.take(i - 1)) == Ok::<ProjectView, FaultView>(
                    project@,
                ),
                parsed(text@) == read_lines(new_project(), rest),
            decreases lines.len() - i,
        {
            let r = project.take_line(&lines[i]);
            proof {
                assert(rest.take(i as int).drop_last() =~= rest.take(i - 1));
                assert(rest.take(i as int).last() == lines@[i as int]@);
            }
            if let Err(e) = r {
                proof {
                    lemma_fault_stays(new_project(), rest, i as int);
                }
                return Err(e);
            }
            i += 1;
        }
        assert(rest.take(i - 1) =~= rest);
        Ok(project)
    }
}

/// Two sources are one where they are of one kind and name one thing: a path may be
/// spelled in more than one way, a file and a class only in one.
pub proof fn law_what_one_source_is(a: SourceView, b: SourceView)
    ensures
        same_source(a, a),
        same_source(a, b) == same_source(b, a),
        same_source(a, b) ==> (a is Wav <==> b is Wav) && (a is Vst <==> b is Vst) && (a is LeSynth
            <==> b is LeSynth) && (a is NoTrack <==> b is NoTrack),
        a is LeSynth && same_source(a, b) ==> a == b,
        forall|x: Seq<char>, y: Seq<char>|
            #![trigger same_path(x, y)]
            same_source(SourceView::Wav { path: x }, SourceView::Wav { path: y }) <==> same_path(
                x,
                y,
            ),
        forall|
            x: Seq<char>,
            y: Seq<char>,
            c: Option<Seq<i8>>,
            d: Option<Seq<i8>>,
            s: Option<Seq<char>>,
            t: Option<Seq<char>>,
        | #[trigger]
            same_source(
                SourceView::Vst { path: x, class_id: c, state: s },
                SourceView::Vst { path: y, class_id: d, state: t },
            ) <==> same_path(x, y) && c == d && s == t,
{
}

/// A grid is beside the manifest, a recording and a plugin where they are; nothing
/// else needs a file.
pub proof fn law_what_a_source_needs(dir: Seq<char>, s: SourceView)
    ensures
        s matches SourceView::LeSynth { file } ==> needed_path(s, dir) == Some(joined(dir, file)),
        s matches SourceView::Wav { path } ==> needed_path(s, dir) == Some(path),
        s matches SourceView::Vst { path, class_id, state } ==> needed_path(s, dir) == Some(path),
        s is LeSynthDefault || s is NoTrack ==> needed_path(s, dir) is None,
{
}

/// A number is written without the zeros at its end, and without a point that nothing
/// follows; where nothing is left it is zero.
pub proof fn law_how_a_number_is_written(s: Seq<char>)
    ensures
        number_text(s.push('0')) == number_text(s),
        s.len() > 0 && s.last() != '0' && s.last() != '.' ==> number_text(s) == s,
        s.len() > 0 && s.last() != '.' ==> number_text(s.push('.')) == s,
        number_text(Seq::empty()) == "0"@,
{
    assert(s.push('0').drop_last() =~= s);
    assert(s.push('.').drop_last() =~= s);
    if s.len() > 0 && s.last() != '.' {
        assert(without_trailing(s, '.') == s);
        assert(without_trailing(s.push('.'), '0') == s.push('.'));
        assert(without_trailing(s.push('.'), '.') == without_trailing(s, '.'));
    }
    assert(without_trailing(Seq::<char>::empty(), '0') =~= Seq::<char>::empty());
    assert(without_trailing(Seq::<char>::empty(), '.') =~= Seq::<char>::empty());
}

/// A text on one line has no break in it and no white space around it; one that had
/// neither stays as it is.
pub proof fn law_what_one_line_is(s: Seq<char>)
    ensures
        !as_one_line(s).contains('\n'),
        !as_one_line(s).contains('\r'),
        crate::text::trimmed(as_one_line(s)),
        crate::text::trimmed(s) && !s.contains('\n') && !s.contains('\r') ==> as_one_line(s) == s,
{
    let m = s.map_values(|c: char| line_char(c));
    crate::text::lemma_trim(m);
    assert forall|i: int| 0 <= i < as_one_line(s).len() implies #[trigger] as_one_line(s)[i] != '\n'
        && as_one_line(s)[i] != '\r' by {
        let c = as_one_line(s)[i];
        assert(m.contains(c));
        let k = choose|k: int| 0 <= k < m.len() && m[k] == c;
        assert(c == line_char(s[k]));
    }
    if crate::text::trimmed(s) && !s.contains('\n') && !s.contains('\r') {
        assert forall|i: int| 0 <= i < s.len() implies #[trigger] m[i] == s[i] by {
            assert(s.contains(s[i]));
        }
        assert(m =~= s);
    }
}

/// A manifest is one exactly where its first line is the format's name and a version
/// that is known; a later version is too new.
pub proof fn law_which_headers_are_accepted(v: Seq<char>)
    ensures
        ({
            let header = "gemstone-project"@ + seq![' '] + v;
            match unsigned_value(trim(v)) {
                Some(n) => if n <= 1 {
                    header_fault(header) is None
                } else if n <= u32::MAX {
                    header_fault(header) == Some(FaultView::Newer { version: n as u32 })
                } else {
                    header_fault(header) == Some(FaultView::BadVersion)
                },
                None => header_fault(header) == Some(FaultView::BadVersion),
            }
        }),
{
    reveal_strlit("gemstone-project");
    let m = "gemstone-project"@;
    let header = m + seq![' '] + v;
    assert forall|i: int| 0 <= i < m.len() implies #[trigger] header[i] != ' ' by {
        assert(header[i] == m[i]);
    }
    crate::text::lemma_first_index_is(header, ' ', m.len() as int);
    assert(header.take(m.len() as int) =~= m);
    assert(header.skip(m.len() as int + 1) =~= v);
}

/// Lines that say something are those that are neither empty nor a remark once they
/// are trimmed; they are read in order.
pub proof fn law_which_lines_are_read(lines: Seq<Seq<char>>)
    ensures
        content(lines) == lines.map_values(|l: Seq<char>| trim(l)).filter(
            |l: Seq<char>| l.len() > 0 && l[0] != '#',
        ),
    decreases lines.len(),
{
    reveal(Seq::filter);
    let f = |l: Seq<char>| trim(l);
    let g = |l: Seq<char>| l.len() > 0 && l[0] != '#';
    let m = lines.map_values(f);
    if lines.len() > 0 {
        law_which_lines_are_read(lines.drop_last());
        assert(m.drop_last() =~= lines.drop_last().map_values(f));
        assert(m.last() == trim(lines.last()));
    } else {
        assert(content(lines) =~= m.filter(g));
    }
}

/// A row that is read starts without a track and frames, at full level, without a
/// lead, saved and scrolled along; a project at a hundred and twenty beats a minute.
pub proof fn law_what_is_read_unless_said()
    ensures
        new_row().track_name.len() == 0 && new_row().source is NoTrack && new_row().gain == "1"@,
        new_row().lead.span() == 0 && new_row().autosave && new_row().autoscroll
            && new_row().items.len() == 0,
        new_project().name.len() == 0 && new_project().tempo_bpm == "120"@
            && new_project().rows.len() == 0,
{
}

/// Each key of a row sets what it names and nothing else; a note goes behind the notes
/// that were read before it.
pub proof fn law_what_each_key_sets(r: RowView, value: Seq<char>)
    ensures
        row_field(r, "track"@, value) == Ok::<RowView, FaultView>(
            RowView { track_name: value, ..r },
        ),
        row_field(r, "gain"@, value) == Ok::<RowView, FaultView>(RowView { gain: value, ..r }),
        row_field(r, "autosave"@, value) == Ok::<RowView, FaultView>(
            RowView { autosave: value != "0"@, ..r },
        ),
        source_of(value) matches Ok(s) ==> row_field(r, "source"@, value) == Ok::<
            RowView,
            FaultView,
        >(RowView { source: s, ..r }),
        source_of(value) matches Err(e) ==> row_field(r, "source"@, value) == Err::<
            RowView,
            FaultView,
        >(e),
        read_length(value) matches Ok(d) ==> row_field(r, "lead"@, value) == Ok::<
            RowView,
            FaultView,
        >(RowView { lead: d, ..r }),
        note_of(value) matches Ok(n) ==> row_field(r, "note"@, value) == Ok::<RowView, FaultView>(
            RowView { items: r.items.push(n), ..r },
        ),
        note_of(value) matches Err(e) ==> row_field(r, "note"@, value) == Err::<RowView, FaultView>(
            e,
        ),
{
    reveal_strlit("track");
    reveal_strlit("gain");
    reveal_strlit("autosave");
    reveal_strlit("source");
    reveal_strlit("state");
    reveal_strlit("lead");
    reveal_strlit("note");
    assert("track"@.len() == 5 && "gain"@.len() == 4 && "autosave"@.len() == 8 && "source"@.len()
        == 6 && "state"@.len() == 5 && "lead"@.len() == 4 && "note"@.len() == 4);
    assert("track"@[0] == 't' && "state"@[0] == 's');
    assert("gain"@[0] == 'g' && "lead"@[0] == 'l' && "note"@[0] == 'n');
}

/// A note's line says its pitch, its length and its space, in five words, and nothing
/// with more words or fewer is a note.
pub proof fn law_what_a_note_line_says(v: Seq<char>)
    ensures
        words(v).len() != 5 ==> note_of(v) == Err::<Item, FaultView>(
            FaultView::BadNote { value: v },
        ),
        note_of(v) matches Ok(n) ==> {
            let w = words(v);
            &&& w.len() == 5
            &&& unsigned_value(w[0]) == Some(n.pitch as nat)
            &&& length_of(w[1], w[2]) == Ok::<Duration, FaultView>(n.dur)
            &&& length_of(w[3], w[4]) == Ok::<Duration, FaultView>(n.space)
            &&& n.start == 0 && n.id == 0
        },
{
}

/// Whole notes that are not a number count as none, and a fraction that is none there
/// is refused.
pub proof fn law_how_a_length_is_read(w: Seq<char>, f: Seq<char>)
    ensures
        token_meaning(f) is None ==> length_of(w, f) == Err::<Duration, FaultView>(
            FaultView::BadFraction { token: f },
        ),
        token_meaning(f) is Some ==> length_of(w, f) is Ok && length_of(w, f)->Ok_0.frac == (
        token_meaning(f)->0).1,
        token_meaning(f) is Some && unsigned_value(w) is Some && unsigned_value(w)->0 <= 255
            ==> length_of(w, f)->Ok_0.wholes == unsigned_value(w)->0,
        token_meaning(f) is Some && unsigned_value(w) is None ==> length_of(w, f)->Ok_0.wholes == 0,
{
}

/// A fraction is so many of a sixteenth at the most over a power of two; no fraction
/// at all is none.
pub proof fn law_which_fractions_are_read(t: Seq<char>)
    ensures
        token_meaning(t) matches Some((n, f)) ==> 1 <= n <= 16,
        token_meaning("none"@) == Some((1int, Fraction::Zero)),
        t == "-"@ || t == "0"@ ==> token_meaning(t) == Some((1int, Fraction::Zero)),
        t != "none"@ && t != "-"@ && t != "0"@ && !t.contains('/') ==> token_meaning(t) is None,
{
    crate::text::lemma_first_index(t, '/');
    let i = crate::text::first_index(t, '/');
    if i < t.len() {
        assert(t[i] == '/');
        assert(t.contains(t[i]));
    }
}

/// What is seen of a text or a class that may be there is what it is.
pub proof fn law_what_is_seen_of_a_project(
    s: Option<String>,
    c: Option<[i8; 16]>,
    rows: Seq<ProjectRow>,
    i: int,
)
    ensures
        s is Some ==> text_view(s) == Some(s->0@),
        s is None ==> text_view(s) is None,
        c is Some ==> class_view(c) == Some(c->0@),
        c is None ==> class_view(c) is None,
        rows_view(rows).len() == rows.len(),
        0 <= i < rows.len() ==> {
            let v = rows_view(rows)[i];
            &&& v.track_name == rows[i].track_name@ && v.source == rows[i].source@ && v.gain
                == rows[i].gain@
            &&& v.lead == rows[i].lead && v.autosave == rows[i].autosave && v.autoscroll
                == rows[i].autoscroll && v.items == rows[i].items@
        },
{
}

/// A length is written as its whole notes and its fraction: none, one over its
/// denominator, or so many over it.
pub proof fn law_how_a_length_is_written(d: Duration)
    ensures
        d.frac == Fraction::Zero ==> length_text(d) == decimal(d.wholes as nat) + seq![' ']
            + "none"@,
        d.frac != Fraction::Zero && d.num > 1 ==> length_text(d) == decimal(d.wholes as nat)
            + seq![' '] + (decimal(d.num as nat) + seq!['/'] + decimal(
            fraction_denom(d.frac) as nat,
        )),
        d.frac != Fraction::Zero ==> fraction_token(d.frac) == "1/"@ + decimal(
            fraction_denom(d.frac) as nat,
        ),
        d.frac != Fraction::Zero && d.num <= 1 ==> length_text(d) == decimal(d.wholes as nat)
            + seq![' '] + fraction_token(d.frac),
{
    reveal_strlit("1/");
    reveal_strlit("1/2");
    reveal_strlit("1/4");
    reveal_strlit("1/8");
    reveal_strlit("1/16");
    reveal_strlit("1/32");
    reveal_strlit("1/64");
    reveal_strlit("1/128");
    reveal_strlit("1/256");
    reveal_with_fuel(decimal, 4);
    if d.frac != Fraction::Zero {
        assert(fraction_token(d.frac) =~= "1/"@ + decimal(fraction_denom(d.frac) as nat));
    }
}

/// A manifest is its head and then its rows, in order; a row its own lines and then
/// its notes, in order; every line ends in a break.
pub proof fn law_how_a_manifest_is_laid_out(p: ProjectView, r: RowView, item: Item)
    ensures
        manifest_lines(ProjectView { rows: p.rows.push(r), ..p }) == manifest_lines(p) + row_lines(
            r,
        ),
        manifest_lines(ProjectView { rows: Seq::empty(), ..p }) == seq![
            "gemstone-project 1"@,
            "name"@ + seq![' ', '=', ' '] + as_one_line(p.name),
            "tempo"@ + seq![' ', '=', ' '] + as_one_line(p.tempo_bpm),
        ],
        row_lines(RowView { items: r.items.push(item), ..r }) == row_lines(r).push(
            "note"@ + seq![' ', '=', ' '] + (decimal(item.pitch as nat) + seq![' '] + length_text(
                item.dur,
            ) + seq![' '] + length_text(item.space)),
        ),
        text_of(manifest_lines(p)) == manifest_text(p),
{
    assert(p.rows.push(r).drop_last() =~= p.rows);
    assert(manifest_lines(ProjectView { rows: p.rows.push(r), ..p }) =~= manifest_lines(p)
        + row_lines(r));
    assert(manifest_lines(ProjectView { rows: Seq::empty(), ..p }) =~= head_lines(p));
    assert(r.items.push(item).drop_last() =~= r.items);
    let more = RowView { items: r.items.push(item), ..r };
    assert(row_lines(more) =~= row_lines(r).push(note_line(item)));
}

/// Every line of a text ends in a break, in order.
pub proof fn law_every_line_ends_in_a_break(lines: Seq<Seq<char>>, line: Seq<char>)
    ensures
        text_of(Seq::empty()).len() == 0,
        text_of(lines.push(line)) == text_of(lines) + line + seq!['\n'],
{
    assert(lines.push(line).drop_last() =~= lines);
    assert(text_of(lines.push(line)) =~= text_of(lines) + line + seq!['\n']);
}

/// A row's lines without its notes: a blank one, its mark, its track, its source, the
/// file of its state where it has one, its level, its lead and whether it is saved on
/// every save.
pub proof fn law_what_a_row_writes(r: RowView)
    requires
        r.items.len() == 0,
    ensures
        ({
            let eq = seq![' ', '=', ' '];
            let front = seq![
                Seq::<char>::empty(),
                "[row]"@,
                "track"@ + eq + as_one_line(r.track_name),
                "source"@ + eq + source_text(r.source),
            ];
            let back = seq![
                "gain"@ + eq + as_one_line(r.gain),
                "lead"@ + eq + length_text(r.lead),
                "autosave"@ + eq + (if r.autosave {
                    "1"@
                } else {
                    "0"@
                }),
            ];
            &&& r.source matches SourceView::Vst { path, class_id, state: Some(file) } ==> row_lines(
                r,
            ) == front + seq!["state"@ + eq + as_one_line(file)] + back
            &&& !(r.source is Vst) ==> row_lines(r) == front + back
            &&& r.source matches SourceView::Vst { path, class_id, state: None } ==> row_lines(r)
                == front + back
        }),
{
    let eq = seq![' ', '=', ' '];
    let front = seq![
        Seq::<char>::empty(),
        "[row]"@,
        "track"@ + eq + as_one_line(r.track_name),
        "source"@ + eq + source_text(r.source),
    ];
    let back = seq![
        "gain"@ + eq + as_one_line(r.gain),
        "lead"@ + eq + length_text(r.lead),
        "autosave"@ + eq + (if r.autosave {
            "1"@
        } else {
            "0"@
        }),
    ];
    assert(row_head(r) =~= front);
    assert(row_settings(r) =~= back);
    assert(note_lines(r.items) =~= Seq::empty());
    assert(row_lines(r) =~= front + state_lines(r.source) + back);
    assert(front + Seq::<Seq<char>>::empty() + back =~= front + back);
}

/// How a source is written: its kind, and what it names; a class in hexadecimal digits
/// behind the kind.
pub proof fn law_how_a_source_is_written(s: SourceView)
    ensures
        s matches SourceView::LeSynth { file } ==> source_text(s) == "lesynth "@ + as_one_line(file),
        s matches SourceView::Wav { path } ==> source_text(s) == "wav "@ + as_one_line(path),
        s matches SourceView::Vst { path, class_id: None, state } ==> source_text(s) == "vst "@
            + as_one_line(path),
        s matches SourceView::Vst { path, class_id: Some(id), state } ==> source_text(s) == "vst:"@
            + class_text(id) + seq![' '] + as_one_line(path),
        s is LeSynthDefault ==> source_text(s) == "lesynth -"@,
        s is NoTrack ==> source_text(s) == "none"@,
{
}

/// A class is written in two hexadecimal digits a byte, the higher first, the small
/// letters standing for ten to fifteen.
pub proof fn law_how_a_class_is_written(id: Seq<i8>, i: int)
    requires
        0 <= i < id.len(),
    ensures
        class_text(id).len() == 2 * id.len(),
        ({
            let n = if id[i] < 0 {
                id[i] + 256
            } else {
                id[i] as int
            };
            let a = class_text(id)[2 * i] as u32;
            let b = class_text(id)[2 * i + 1] as u32;
            &&& n / 16 < 10 ==> a == 48 + n / 16
            &&& n / 16 >= 10 ==> a == 97 + (n / 16 - 10)
            &&& n % 16 < 10 ==> b == 48 + n % 16
            &&& n % 16 >= 10 ==> b == 97 + (n % 16 - 10)
        }),
{
    assert((2 * i) / 2 == i && (2 * i + 1) / 2 == i && (2 * i) % 2 == 0 && (2 * i + 1) % 2 == 1);
}

/// How faults read: each by what was wrong, with what was found there.
pub proof fn law_how_faults_read(s: Seq<char>, n: u32, len: usize)
    ensures
        fault_text(FaultView::Empty) == "empty project file"@,
        fault_text(FaultView::NotAProject { header: s })
            == "not a Gemstone project file (first line reads "@ + quoted(s) + ")"@,
        fault_text(FaultView::BadVersion) == "unreadable format version"@,
        fault_text(FaultView::Newer { version: n }) == "project was saved by a newer Gemstone ("@
            + decimal(n as nat) + " > "@ + decimal(1) + "); update before opening it"@,
        fault_text(FaultView::BadFraction { token: s }) == "unknown note fraction "@ + quoted(s),
        fault_text(FaultView::BadNote { value: s })
            == "a note takes 5 fields (pitch, note length, space length), got "@ + quoted(s),
        fault_text(FaultView::BadPitch) == "note pitch"@,
        fault_text(FaultView::BadSource { value: s }) == "unknown track source "@ + quoted(s),
        fault_text(FaultView::ClassIdLength { len }) == "a VST3 class id is 32 hex digits, got "@
            + decimal(len as nat),
        fault_text(FaultView::ClassIdDigits) == "class id"@,
{
}

/// What a hexadecimal digit is worth, in small letters or in capitals; no other
/// character is worth anything.
pub proof fn law_what_a_digit_is_worth(c: char)
    ensures
        48 <= c as u32 <= 57 ==> hex_value(c) == c as u32 - 48,
        97 <= c as u32 <= 102 ==> hex_value(c) == c as u32 - 97 + 10,
        65 <= c as u32 <= 70 ==> hex_value(c) == c as u32 - 65 + 10,
        !(48 <= c as u32 <= 57 || 97 <= c as u32 <= 102 || 65 <= c as u32 <= 70) ==> hex_value(c)
            < 0,
{
}

/// A class that is read has sixteen bytes, each from its own two of the thirty-two
/// characters; a text that takes another number of bytes is refused for its length,
/// and one with anything else among its characters for its digits.
pub proof fn law_which_classes_are_read(hex: Seq<char>, i: int)
    requires
        0 <= i < 16,
    ensures
        encode_utf8(hex).len() as usize != 32 ==> class_of(hex) is Err && class_of(hex)->Err_0
            == (FaultView::ClassIdLength { len: encode_utf8(hex).len() as usize }),
        encode_utf8(hex).len() as usize == 32 && hex.len() != 32 ==> class_of(hex) is Err
            && class_of(hex)->Err_0 is ClassIdDigits,
        encode_utf8(hex).len() as usize == 32 && hex.len() == 32 && (hex_value(hex[2 * i + 1]) < 0
            || (hex_value(hex[2 * i]) < 0 && hex[2 * i] != '+')) ==> class_of(hex) is Err
            && class_of(hex)->Err_0 is ClassIdDigits,
        encode_utf8(hex).len() as usize == 32 && hex.len() == 32 && (forall|k: int|
            0 <= k < 32 ==> hex_value(#[trigger] hex[k]) >= 0) ==> class_of(hex) is Ok,
        class_of(hex) matches Ok(id) ==> {
            let n = if id[i] < 0 {
                id[i] + 256
            } else {
                id[i] as int
            };
            &&& id.len() == 16
            &&& hex[2 * i] != '+' ==> n == 16 * hex_value(hex[2 * i]) + hex_value(hex[2 * i + 1])
            &&& hex[2 * i] == '+' ==> n == hex_value(hex[2 * i + 1])
        },
{
    if hex.len() == 32 {
        assert(pair_value(hex[2 * i], hex[2 * i + 1]) <= 255);
        if forall|k: int| 0 <= k < 32 ==> hex_value(#[trigger] hex[k]) >= 0 {
            assert forall|k: int| 0 <= k < 16 implies pair_value(
                #[trigger] hex[2 * k],
                hex[2 * k + 1],
            ) >= 0 by {
                assert(hex_value(hex[2 * k + 1]) >= 0);
                assert(hex_value(hex[2 * k]) >= 0);
            }
        }
        if hex_pairs(hex) {
            assert(pair_value(hex[2 * i], hex[2 * i + 1]) >= 0);
        }
    }
}

/// A fraction is read from its own denominator, written out, and from nothing else.
pub proof fn law_a_fraction_is_read_from_its_denominator(s: Seq<char>, f: Fraction)
    requires
        f != Fraction::Zero,
    ensures
        denom_fraction(s) == Some(f) <==> s == decimal(fraction_denom(f) as nat),
{
    reveal_strlit("2");
    reveal_strlit("4");
    reveal_strlit("8");
    reveal_strlit("16");
    reveal_strlit("32");
    reveal_strlit("64");
    reveal_strlit("128");
    reveal_strlit("256");
    reveal_with_fuel(decimal, 4);
    let d = decimal(fraction_denom(f) as nat);
    match f {
        Fraction::Zero => {},
        Fraction::Half => assert(d =~= "2"@),
        Fraction::Quarter => assert(d =~= "4"@),
        Fraction::Eighth => assert(d =~= "8"@),
        Fraction::Sixteenth => assert(d =~= "16"@),
        Fraction::ThirtySecond => assert(d =~= "32"@),
        Fraction::SixtyFourth => assert(d =~= "64"@),
        Fraction::HundredTwentyEighth => assert(d =~= "128"@),
        Fraction::TwoHundredFiftySixth => assert(d =~= "256"@),
    }
    assert("2"@[0] != "4"@[0] && "2"@[0] != "8"@[0] && "4"@[0] != "8"@[0]);
    assert("16"@[0] != "32"@[0] && "16"@[0] != "64"@[0] && "32"@[0] != "64"@[0]);
    assert("128"@[0] != "256"@[0]);
}

} // verus!
