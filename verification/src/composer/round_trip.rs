//! What comes back from a manifest is what went in.

use vstd::prelude::*;

use super::length::{counted, fraction_denom, Duration, Fraction, MAX_NUM};
use super::project::{
    as_one_line, byte_of, byte_value, class_of, class_text, content, denom_fraction, field,
    fraction_token, header_fault, hex_char, hex_pairs, length_of, length_text, line_char,
    manifest_lines, manifest_text, new_project, new_row, note_line, note_lines, note_of, pair_value,
    parsed, project_field, read_length, read_line, read_lines, row_field, row_head, row_lines,
    row_settings, rows_lines, says_something, source_of, source_text, state_lines, text_of,
    FaultView, ProjectView, RowView, SourceView,
};
use super::row::Item;
use crate::number::ZERO;
use crate::text::{
    decimal, digit_char, is_space, lemma_decimal_reads_back, lemma_first_index_is,
    lemma_first_space_is, lemma_split_joined, lemma_split_whole, lemma_trim, lemma_trim_around,
    lemma_trim_end_bounds, lemma_trim_end_step, split, split_once, trim, trim_end, trim_start,
    trimmed, words,
};

verus! {

/// A length as it comes back: with its nominator canonical.
pub open spec fn saved_length(d: Duration) -> Duration {
    counted(d.wholes as int, d.num as int, d.frac)
}

/// A frame as it comes back. Ids are given out by the row that takes it, and the
/// manifest does not hold where in a file a note starts.
pub open spec fn saved_item(i: Item) -> Item {
    Item {
        id: 0,
        pitch: i.pitch,
        start: ZERO,
        dur: saved_length(i.dur),
        space: saved_length(i.space),
    }
}

/// A source as it comes back: its names as one line each. A grid without a name
/// is no grid.
pub open spec fn saved_source(s: SourceView) -> SourceView {
    match s {
        SourceView::LeSynth { file } => {
            let f = as_one_line(file);
            if f.len() == 0 || f == "-"@ {
                SourceView::LeSynthDefault
            } else {
                SourceView::LeSynth { file: f }
            }
        },
        SourceView::Wav { path } => SourceView::Wav { path: as_one_line(path) },
        SourceView::Vst { path, class_id, state } => SourceView::Vst {
            path: as_one_line(path),
            class_id,
            state: match state {
                Some(file) => Some(as_one_line(file)),
                None => None,
            },
        },
        SourceView::LeSynthDefault => SourceView::LeSynthDefault,
        SourceView::NoTrack => SourceView::NoTrack,
    }
}

/// A row as it comes back.
pub open spec fn saved_row(r: RowView) -> RowView {
    RowView {
        track_name: as_one_line(r.track_name),
        source: saved_source(r.source),
        gain: as_one_line(r.gain),
        lead: saved_length(r.lead),
        autosave: r.autosave,
        autoscroll: true,
        items: Seq::new(r.items.len(), |i: int| saved_item(r.items[i])),
    }
}

/// A project as it comes back.
pub open spec fn saved(p: ProjectView) -> ProjectView {
    ProjectView {
        name: as_one_line(p.name),
        tempo_bpm: as_one_line(p.tempo_bpm),
        rows: Seq::new(p.rows.len(), |i: int| saved_row(p.rows[i])),
    }
}

/// Whether the class ids of a source have their sixteen bytes.
pub open spec fn whole_class(s: SourceView) -> bool {
    match s {
        SourceView::Vst { class_id: Some(id), .. } => id.len() == 16,
        _ => true,
    }
}

/// Whether the boxes can count as often as a length counts its fraction.
pub open spec fn length_counts(d: Duration) -> bool {
    d.frac == Fraction::Zero || d.num <= MAX_NUM
}

/// A row that can be written: its class id is whole, and its lengths are counted
/// as the boxes count.
pub open spec fn writable(r: RowView) -> bool {
    &&& whole_class(r.source)
    &&& length_counts(r.lead)
    &&& forall|i: int|
        0 <= i < r.items.len() ==> length_counts((#[trigger] r.items[i]).dur) && length_counts(
            r.items[i].space,
        )
}

/// Text that is one line as it stands.
pub open spec fn is_one_line(s: Seq<char>) -> bool {
    trimmed(s) && !s.contains('\n') && !s.contains('\r')
}

/// A source that comes back as it went in.
pub open spec fn source_keeps(s: SourceView) -> bool {
    match s {
        SourceView::LeSynth { file } => is_one_line(file) && file.len() > 0 && file != "-"@,
        SourceView::Wav { path } => is_one_line(path),
        SourceView::Vst { path, class_id, state } => {
            &&& is_one_line(path)
            &&& class_id matches Some(id) ==> id.len() == 16
            &&& state matches Some(file) ==> is_one_line(file)
        },
        _ => true,
    }
}

/// A frame that comes back as it went in.
pub open spec fn item_keeps(i: Item) -> bool {
    &&& i.id == 0
    &&& i.start == ZERO
    &&& i.dur.canonical() && length_counts(i.dur)
    &&& i.space.canonical() && length_counts(i.space)
}

/// A row that comes back as it went in.
pub open spec fn row_keeps(r: RowView) -> bool {
    &&& is_one_line(r.track_name)
    &&& source_keeps(r.source)
    &&& is_one_line(r.gain)
    &&& r.lead.canonical() && length_counts(r.lead)
    &&& r.autoscroll
    &&& forall|i: int| 0 <= i < r.items.len() ==> item_keeps(#[trigger] r.items[i])
}

/// A project that comes back as it went in: its names are lines, its lengths
/// canonical, and it holds nothing that the manifest does not.
pub open spec fn keeps(p: ProjectView) -> bool {
    &&& is_one_line(p.name)
    &&& is_one_line(p.tempo_bpm)
    &&& forall|i: int| 0 <= i < p.rows.len() ==> row_keeps(#[trigger] p.rows[i])
}

// ── lines ───────────────────────────────────────────────────────────────────

/// Whether no line has a line break in it.
spec fn unbroken(lines: Seq<Seq<char>>) -> bool {
    forall|i: int| 0 <= i < lines.len() ==> !(#[trigger] lines[i]).contains('\n')
}

proof fn lemma_text_splits(lines: Seq<Seq<char>>, x: Seq<char>)
    requires
        unbroken(lines),
        !x.contains('\n'),
    ensures
        split(text_of(lines) + x, '\n') == lines.push(x),
    decreases lines.len(),
{
    if lines.len() == 0 {
        assert(text_of(lines) + x =~= x);
        lemma_split_whole(x, '\n');
        assert(lines.push(x) =~= seq![x]);
    } else {
        let init = lines.drop_last();
        let l = lines.last();
        assert(l == lines[lines.len() - 1]);
        assert forall|i: int| 0 <= i < init.len() implies !(#[trigger] init[i]).contains('\n') by {
            assert(init[i] == lines[i]);
        }
        lemma_text_splits(init, l);
        lemma_split_joined(text_of(init) + l, '\n', x);
        lemma_split_whole(x, '\n');
        assert(text_of(lines) + x =~= text_of(init) + l + seq!['\n'] + x);
        assert(init.push(l) =~= lines);
        assert(lines + seq![x] =~= lines.push(x));
    }
}

proof fn lemma_content_add(a: Seq<Seq<char>>, b: Seq<Seq<char>>)
    ensures
        content(a + b) == content(a) + content(b),
    decreases b.len(),
{
    if b.len() == 0 {
        assert(a + b =~= a);
        assert(content(a) + content(b) =~= content(a));
    } else {
        lemma_content_add(a, b.drop_last());
        assert((a + b).drop_last() =~= a + b.drop_last());
        let line = trim(b.last());
        if says_something(line) {
            assert((content(a) + content(b.drop_last())).push(line) =~= content(a) + content(
                b.drop_last(),
            ).push(line));
        }
    }
}

proof fn lemma_read_lines_add(p: ProjectView, a: Seq<Seq<char>>, b: Seq<Seq<char>>)
    ensures
        read_lines(p, a + b) == (match read_lines(p, a) {
            Ok(q) => read_lines(q, b),
            Err(e) => Err(e),
        }),
    decreases b.len(),
{
    if b.len() == 0 {
        assert(a + b =~= a);
    } else {
        lemma_read_lines_add(p, a, b.drop_last());
        assert((a + b).drop_last() =~= a + b.drop_last());
    }
}

// ── fields ──────────────────────────────────────────────────────────────────

/// A character of a key: a letter, a digit or an underscore.
pub open spec fn key_char(c: char) -> bool {
    'a' <= c <= 'z' || 'A' <= c <= 'Z' || '0' <= c <= '9' || c == '_'
}

/// A key: a word of its own.
pub open spec fn good_key(k: Seq<char>) -> bool {
    k.len() > 0 && forall|i: int| 0 <= i < k.len() ==> key_char(#[trigger] k[i])
}

proof fn lemma_field(key: Seq<char>, v: Seq<char>)
    requires
        good_key(key),
    ensures
        ({
            let line = trim(field(key, v));
            &&& says_something(line)
            &&& line != "[row]"@
            &&& split_once(line, '=') matches Some((a, b)) && trim(a) == key && trim(b) == trim(v)
        }),
{
    let all = field(key, v);
    let te = trim_end(v);
    lemma_trim_end_bounds(v);
    let n = te.len() as int;
    let k = key.len() as int;
    assert(all[0] == key[0]);
    assert(trim_start(all) == all);
    lemma_tail_is_space(v);
    let line = if n > 0 {
        all.take(k + 3 + n)
    } else {
        all.take(k + 2)
    };
    let cut = line.len() as int;
    assert(trim(all) == line) by {
        assert forall|i: int| cut <= i < all.len() implies is_space(#[trigger] all[i]) by {
            if i >= k + 3 {
                assert(all[i] == v[i - k - 3]);
            }
        }
        lemma_trim_end_step(all, cut);
        assert(!is_space(line.last())) by {
            if n > 0 {
                assert(line.last() == te.last());
            } else {
                assert(line.last() == '=');
            }
        }
    }
    assert(line[0] == key[0]);
    reveal_strlit("[row]");
    assert(line[k] == ' ' && line[k + 1] == '=');
    assert forall|i: int| 0 <= i < k + 1 implies #[trigger] line[i] != '=' by {
        if i < k {
            assert(line[i] == key[i]);
        }
    }
    lemma_first_index_is(line, '=', k + 1);
    let a = line.take(k + 1);
    let b = line.skip(k + 2);
    assert(a =~= Seq::<char>::empty() + key + seq![' ']);
    lemma_trim_around(Seq::empty(), key, seq![' ']);
    lemma_trim(key);
    let v2 = v.skip(n);
    assert(v =~= Seq::<char>::empty() + te + v2);
    assert forall|i: int| 0 <= i < v2.len() implies is_space(#[trigger] v2[i]) by {
        assert(v2[i] == v[n + i]);
    }
    lemma_trim_around(Seq::empty(), te, v2);
    if n > 0 {
        assert(b =~= seq![' '] + te + Seq::<char>::empty());
        lemma_trim_around(seq![' '], te, Seq::empty());
    } else {
        assert(b =~= te);
    }
}

/// What trimming takes off the end is white space.
proof fn lemma_tail_is_space(s: Seq<char>)
    ensures
        forall|i: int| trim_end(s).len() <= i < s.len() ==> is_space(#[trigger] s[i]),
    decreases s.len(),
{
    if s.len() > 0 && is_space(s.last()) {
        lemma_tail_is_space(s.drop_last());
        assert forall|i: int| trim_end(s).len() <= i < s.len() implies is_space(
            #[trigger] s[i],
        ) by {
            if i < s.len() - 1 {
                assert(s.drop_last()[i] == s[i]);
            }
        }
    }
}

proof fn lemma_keys()
    ensures
        good_key("name"@),
        good_key("tempo"@),
        good_key("track"@),
        good_key("source"@),
        good_key("state"@),
        good_key("gain"@),
        good_key("lead"@),
        good_key("autosave"@),
        good_key("note"@),
        "tempo"@ != "name"@,
        "source"@ != "track"@,
        "state"@ != "track"@,
        "state"@ != "source"@,
        "gain"@ != "track"@,
        "gain"@ != "source"@,
        "gain"@ != "state"@,
        "lead"@ != "track"@,
        "lead"@ != "source"@,
        "lead"@ != "state"@,
        "lead"@ != "gain"@,
        "autosave"@ != "track"@,
        "autosave"@ != "source"@,
        "autosave"@ != "state"@,
        "autosave"@ != "gain"@,
        "autosave"@ != "lead"@,
        "note"@ != "track"@,
        "note"@ != "source"@,
        "note"@ != "state"@,
        "note"@ != "gain"@,
        "note"@ != "lead"@,
        "note"@ != "autosave"@,
{
    reveal_strlit("name");
    reveal_strlit("tempo");
    reveal_strlit("track");
    reveal_strlit("source");
    reveal_strlit("state");
    reveal_strlit("gain");
    reveal_strlit("lead");
    reveal_strlit("autosave");
    reveal_strlit("note");
    assert("state"@[0] != "track"@[0]);
    assert("lead"@[0] != "gain"@[0]);
    assert("note"@[0] != "gain"@[0]);
    assert("note"@[0] != "lead"@[0]);
}

/// Text as one line is one line, and nothing changes what already is.
pub proof fn lemma_one_line(s: Seq<char>)
    ensures
        is_one_line(as_one_line(s)),
        is_one_line(s) ==> as_one_line(s) == s,
        trim(as_one_line(s)) == as_one_line(s),
{
    let m = s.map_values(|c: char| line_char(c));
    lemma_trim(m);
    lemma_trim(as_one_line(s));
    let t = as_one_line(s);
    assert(!t.contains('\n') && !t.contains('\r')) by {
        assert forall|i: int| 0 <= i < t.len() implies #[trigger] t[i] != '\n' && t[i] != '\r' by {
            assert(m.contains(t[i]));
            let k = choose|k: int| 0 <= k < m.len() && m[k] == t[i];
            assert(m[k] == line_char(s[k]));
        }
    }
    if is_one_line(s) {
        assert(m =~= s) by {
            assert forall|i: int| 0 <= i < s.len() implies m[i] == s[i] by {
                assert(s.contains(s[i]));
            }
        }
    }
}

// ── lengths and notes ───────────────────────────────────────────────────────

/// Text without any white space in it, and not empty.
spec fn is_word(s: Seq<char>) -> bool {
    s.len() > 0 && forall|i: int| 0 <= i < s.len() ==> !is_space(#[trigger] s[i])
}

proof fn lemma_digits_are_words(n: nat)
    ensures
        is_word(decimal(n)),
        !decimal(n).contains('\n'),
        !decimal(n).contains(' '),
        !decimal(n).contains('/'),
        trim(decimal(n)) == decimal(n),
{
    lemma_decimal_reads_back(n);
    lemma_trim(decimal(n));
}

/// The token of a length, written out.
spec fn token(d: Duration) -> Seq<char> {
    if d.frac == Fraction::Zero || d.num <= 1 {
        fraction_token(d.frac)
    } else {
        decimal(d.num as nat) + seq!['/'] + decimal(fraction_denom(d.frac) as nat)
    }
}

/// A plain number starts with no zero.
proof fn lemma_first_digit(n: nat)
    requires
        n >= 1,
    ensures
        '1' <= decimal(n)[0] <= '9',
    decreases n,
{
    if n < 10 {
        assert(decimal(n) =~= seq![digit_char(n)]);
    } else {
        lemma_first_digit(n / 10);
        lemma_decimal_reads_back(n / 10);
        assert(decimal(n)[0] == decimal(n / 10)[0]);
    }
}

proof fn lemma_denoms(f: Fraction)
    requires
        f != Fraction::Zero,
    ensures
        denom_fraction(decimal(fraction_denom(f) as nat)) == Some(f),
        fraction_token(f) == decimal(1) + seq!['/'] + decimal(fraction_denom(f) as nat),
{
    reveal_with_fuel(decimal, 4);
    reveal_strlit("2");
    reveal_strlit("4");
    reveal_strlit("8");
    reveal_strlit("16");
    reveal_strlit("32");
    reveal_strlit("64");
    reveal_strlit("128");
    reveal_strlit("256");
    reveal_strlit("1/2");
    reveal_strlit("1/4");
    reveal_strlit("1/8");
    reveal_strlit("1/16");
    reveal_strlit("1/32");
    reveal_strlit("1/64");
    reveal_strlit("1/128");
    reveal_strlit("1/256");
    let d = decimal(fraction_denom(f) as nat);
    match f {
        Fraction::Zero => {},
        Fraction::Half => {
            assert(d =~= "2"@);
        },
        Fraction::Quarter => {
            assert(d =~= "4"@);
            assert("4"@[0] != "2"@[0]);
        },
        Fraction::Eighth => {
            assert(d =~= "8"@);
            assert("8"@[0] != "2"@[0] && "8"@[0] != "4"@[0]);
        },
        Fraction::Sixteenth => {
            assert(d =~= "16"@);
        },
        Fraction::ThirtySecond => {
            assert(d =~= "32"@);
            assert("32"@[0] != "16"@[0]);
        },
        Fraction::SixtyFourth => {
            assert(d =~= "64"@);
            assert("64"@[0] != "16"@[0] && "64"@[0] != "32"@[0]);
        },
        Fraction::HundredTwentyEighth => {
            assert(d =~= "128"@);
        },
        Fraction::TwoHundredFiftySixth => {
            assert(d =~= "256"@);
            assert("256"@[0] != "128"@[0]);
        },
    }
    assert(fraction_token(f) =~= decimal(1) + seq!['/'] + d);
}

proof fn lemma_token(d: Duration)
    requires
        length_counts(d),
    ensures
        is_word(token(d)),
        !token(d).contains('\n'),
        trim(token(d)) == token(d),
        length_of(decimal(d.wholes as nat), token(d)) == Ok::<Duration, FaultView>(saved_length(d)),
        length_text(d) == decimal(d.wholes as nat) + seq![' '] + token(d),
{
    lemma_decimal_reads_back(d.wholes as nat);
    let t = token(d);
    if d.frac == Fraction::Zero {
        reveal_strlit("none");
    } else {
        lemma_denoms(d.frac);
        let num = if d.num <= 1 {
            1nat
        } else {
            d.num as nat
        };
        let den = decimal(fraction_denom(d.frac) as nat);
        lemma_digits_are_words(num);
        lemma_decimal_reads_back(num);
        lemma_digits_are_words(fraction_denom(d.frac) as nat);
        assert(t =~= decimal(num) + seq!['/'] + den);
        let k = decimal(num).len() as int;
        assert forall|i: int| 0 <= i < k implies #[trigger] t[i] != '/' by {
            assert(t[i] == decimal(num)[i]);
            assert(decimal(num).contains(decimal(num)[i]));
        }
        lemma_first_index_is(t, '/', k);
        assert(t.take(k) =~= decimal(num));
        lemma_first_digit(num);
        assert(t.skip(k + 1) =~= den);
        reveal_strlit("none");
        reveal_strlit("-");
        reveal_strlit("0");
        assert(t.len() >= 3);
        assert(t != "none"@) by {
            if t == "none"@ {
                assert('0' <= t[0] <= '9') by {
                    assert(t[0] == decimal(num)[0]);
                }
            }
        }
        assert forall|i: int| 0 <= i < t.len() implies !is_space(#[trigger] t[i]) && t[i]
            != '\n' by {
            if i < k {
                assert(t[i] == decimal(num)[i]);
                assert(decimal(num).contains(decimal(num)[i]));
            } else if i > k {
                assert(t[i] == den[i - k - 1]);
                assert(den.contains(den[i - k - 1]));
            }
        }
    }
    lemma_trim(t);
}

proof fn lemma_length_reads_back(d: Duration)
    requires
        length_counts(d),
    ensures
        read_length(length_text(d)) == Ok::<Duration, FaultView>(saved_length(d)),
        trim(length_text(d)) == length_text(d),
        !length_text(d).contains('\n'),
{
    lemma_token(d);
    lemma_digits_are_words(d.wholes as nat);
    let w = decimal(d.wholes as nat);
    let t = token(d);
    let v = length_text(d);
    let k = w.len() as int;
    assert forall|i: int| 0 <= i < k implies #[trigger] v[i] != ' ' by {
        assert(v[i] == w[i]);
        assert(w.contains(w[i]));
    }
    lemma_first_index_is(v, ' ', k);
    assert(v.take(k) =~= w);
    assert(v.skip(k + 1) =~= t);
    assert(v[0] == w[0]);
    assert(v.last() == t.last());
    lemma_trim(v);
    assert forall|i: int| 0 <= i < v.len() implies #[trigger] v[i] != '\n' by {
        if i < k {
            assert(w.contains(w[i]));
        } else if i > k {
            assert(t.contains(t[i - k - 1]));
        }
    }
}

proof fn lemma_first_word(a: Seq<char>, rest: Seq<char>)
    requires
        is_word(a),
    ensures
        words(a + seq![' '] + rest) == seq![a] + words(rest),
{
    let s = a + seq![' '] + rest;
    let k = a.len() as int;
    assert(s[0] == a[0]);
    assert(trim_start(s) == s);
    assert forall|i: int| 0 <= i < k implies !is_space(#[trigger] s[i]) by {
        assert(s[i] == a[i]);
    }
    lemma_first_space_is(s, k);
    assert(s.take(k) =~= a);
    let tail = s.skip(k);
    assert(tail.skip(1) =~= rest);
    assert(tail[0] == ' ');
    assert(trim_start(tail) == trim_start(rest));
    assert(words(tail) == words(rest));
}

proof fn lemma_only_word(a: Seq<char>)
    requires
        is_word(a),
    ensures
        words(a) == seq![a],
{
    let k = a.len() as int;
    assert(trim_start(a) == a);
    lemma_first_space_is(a, k);
    assert(a.take(k) =~= a);
    assert(a.skip(k) =~= Seq::<char>::empty());
    assert(words(a.skip(k)) =~= Seq::<Seq<char>>::empty());
    assert(seq![a] + Seq::<Seq<char>>::empty() =~= seq![a]);
}

/// The value of a frame's line.
spec fn note_value(i: Item) -> Seq<char> {
    decimal(i.pitch as nat) + seq![' '] + length_text(i.dur) + seq![' '] + length_text(i.space)
}

proof fn lemma_note_reads_back(i: Item)
    requires
        length_counts(i.dur),
        length_counts(i.space),
    ensures
        note_of(trim(note_value(i))) == Ok::<Item, FaultView>(saved_item(i)),
        !note_value(i).contains('\n'),
{
    let p = decimal(i.pitch as nat);
    let w1 = decimal(i.dur.wholes as nat);
    let t1 = token(i.dur);
    let w2 = decimal(i.space.wholes as nat);
    let t2 = token(i.space);
    lemma_digits_are_words(i.pitch as nat);
    lemma_digits_are_words(i.dur.wholes as nat);
    lemma_digits_are_words(i.space.wholes as nat);
    lemma_decimal_reads_back(i.pitch as nat);
    lemma_token(i.dur);
    lemma_token(i.space);
    let v = note_value(i);
    let r4 = t2;
    let r3 = w2 + seq![' '] + r4;
    let r2 = t1 + seq![' '] + r3;
    let r1 = w1 + seq![' '] + r2;
    assert(v =~= p + seq![' '] + r1);
    lemma_first_word(p, r1);
    lemma_first_word(w1, r2);
    lemma_first_word(t1, r3);
    lemma_first_word(w2, r4);
    lemma_only_word(t2);
    assert(words(v) =~= seq![p, w1, t1, w2, t2]);
    assert(v[0] == p[0]);
    assert(v.last() == t2.last());
    lemma_trim(v);
    lemma_length_reads_back(i.dur);
    lemma_length_reads_back(i.space);
    assert forall|k: int| 0 <= k < v.len() implies #[trigger] v[k] != '\n' by {
        let a = p.len() as int;
        let b = a + 1 + length_text(i.dur).len();
        if k < a {
            assert(p.contains(p[k]));
        } else if a < k < b {
            assert(length_text(i.dur).contains(length_text(i.dur)[k - a - 1]));
        } else if k > b {
            assert(length_text(i.space).contains(length_text(i.space)[k - b - 1]));
        }
    }
}

// ── sources ─────────────────────────────────────────────────────────────────

/// Class ids survive being written in hexadecimal.
pub proof fn law_a_class_id_reads_back(id: Seq<i8>)
    requires
        id.len() == 16,
    ensures
        class_of(class_text(id)) == Ok::<Seq<i8>, FaultView>(id),
{
    let hex = class_text(id);
    assert forall|i: int| 0 <= i < 32 implies ({
        let c = #[trigger] hex[i];
        ('0' <= c <= '9') || ('a' <= c <= 'f')
    }) by {}
    lemma_ascii_len(hex);
    assert forall|i: int| 0 <= i < 16 implies pair_value(#[trigger] hex[2 * i], hex[2 * i + 1])
        == byte_value(id[i]) by {
        assert((2 * i) / 2 == i && (2 * i + 1) / 2 == i);
        let b = byte_value(id[i]);
        assert(hex[2 * i] == hex_char(b / 16));
        assert(hex[2 * i + 1] == hex_char(b % 16));
    }
    assert(hex_pairs(hex));
    let back = Seq::new(16, |i: int| byte_of(pair_value(hex[2 * i], hex[2 * i + 1])));
    assert(back =~= id) by {
        assert forall|i: int| 0 <= i < 16 implies back[i] == id[i] by {
            assert(pair_value(hex[2 * i], hex[2 * i + 1]) == byte_value(id[i]));
        }
    }
}

proof fn lemma_ascii_len(s: Seq<char>)
    requires
        forall|i: int| 0 <= i < s.len() ==> '\0' <= #[trigger] s[i] <= '\u{7f}',
    ensures
        vstd::utf8::encode_utf8(s).len() == s.len(),
{
    vstd::utf8::is_ascii_chars_encode_utf8(s);
}

/// A value of two parts, a kind and a name, comes apart again.
proof fn lemma_two_parts(kind: Seq<char>, name: Seq<char>)
    requires
        is_word(kind),
        !kind.contains(' '),
        is_one_line(name),
    ensures
        ({
            let v = trim(kind + seq![' '] + name);
            let parts = match split_once(v, ' ') {
                Some((k, r)) => (k, r),
                None => (v, Seq::empty()),
            };
            parts.0 == kind && trim(parts.1) == name
        }),
{
    let all = kind + seq![' '] + name;
    let k = kind.len() as int;
    lemma_trim(kind);
    lemma_trim(name);
    assert forall|i: int| 0 <= i < k implies #[trigger] all[i] != ' ' by {
        assert(all[i] == kind[i]);
        assert(kind.contains(kind[i]));
    }
    if name.len() > 0 {
        assert(all[0] == kind[0] && all.last() == name.last());
        lemma_trim(all);
        lemma_first_index_is(all, ' ', k);
        assert(all.take(k) =~= kind);
        assert(all.skip(k + 1) =~= name);
    } else {
        assert(all =~= Seq::<char>::empty() + kind + seq![' ']);
        lemma_trim_around(Seq::empty(), kind, seq![' ']);
        assert forall|i: int| 0 <= i < k implies #[trigger] kind[i] != ' ' by {
            assert(kind.contains(kind[i]));
        }
        lemma_first_index_is(kind, ' ', k);
        assert(name =~= Seq::<char>::empty());
    }
}

/// A grid or a wave file comes back from its text.
proof fn lemma_file_reads_back(s: SourceView)
    requires
        s is LeSynth || s is LeSynthDefault || s is Wav,
    ensures
        source_of(trim(source_text(s))) == Ok::<SourceView, FaultView>(saved_source(s)),
        !source_text(s).contains('\n'),
{
    reveal_strlit("none");
    reveal_strlit("lesynth");
    reveal_strlit("lesynth ");
    reveal_strlit("lesynth -");
    reveal_strlit("wav");
    reveal_strlit("wav ");
    reveal_strlit("-");
    let lesynth = "lesynth"@;
    let wav = "wav"@;
    match s {
        SourceView::LeSynth { file } => {
            let f = as_one_line(file);
            lemma_one_line(file);
            assert("lesynth "@ + f =~= lesynth + seq![' '] + f);
            lemma_two_parts(lesynth, f);
            lemma_no_breaks_in_parts(lesynth, f);
        },
        SourceView::Wav { path } => {
            let f = as_one_line(path);
            lemma_one_line(path);
            assert("wav "@ + f =~= wav + seq![' '] + f);
            lemma_two_parts(wav, f);
            lemma_no_breaks_in_parts(wav, f);
        },
        _ => {
            let f = "-"@;
            lemma_trim(f);
            assert("lesynth -"@ =~= lesynth + seq![' '] + f);
            lemma_two_parts(lesynth, f);
            lemma_no_breaks_in_parts(lesynth, f);
        },
    }
}

/// A plugin comes back from its text, its state file aside.
proof fn lemma_plugin_reads_back(path: Seq<char>, class_id: Option<Seq<i8>>)
    requires
        class_id matches Some(id) ==> id.len() == 16,
    ensures
        ({
            let s = SourceView::Vst { path, class_id, state: None };
            &&& source_of(trim(source_text(s))) == Ok::<SourceView, FaultView>(saved_source(s))
            &&& !source_text(s).contains('\n')
        }),
{
    reveal_strlit("none");
    reveal_strlit("lesynth");
    reveal_strlit("wav");
    reveal_strlit("vst");
    reveal_strlit("vst ");
    reveal_strlit("vst:");
    let s = SourceView::Vst { path, class_id, state: None };
    let f = as_one_line(path);
    lemma_one_line(path);
    match class_id {
        Some(id) => {
            law_a_class_id_reads_back(id);
            let hex = class_text(id);
            let kind = "vst:"@ + hex;
            assert(kind.take(4) =~= "vst:"@);
            assert(kind.skip(4) =~= hex);
            assert forall|i: int| 0 <= i < kind.len() implies !is_space(#[trigger] kind[i])
                && kind[i] != ' ' && kind[i] != '\n' by {
                if i >= 4 {
                    let c = hex[i - 4];
                    assert(kind[i] == c);
                    assert(('0' <= c <= '9') || ('a' <= c <= 'f'));
                }
            }
            lemma_two_parts(kind, f);
            lemma_no_breaks_in_parts(kind, f);
            assert(source_text(s) == kind + seq![' '] + f);
        },
        None => {
            let vst = "vst"@;
            assert(vst[0] == 'v' && "wav"@[0] == 'w');
            assert("vst "@ + f =~= vst + seq![' '] + f);
            lemma_two_parts(vst, f);
            lemma_no_breaks_in_parts(vst, f);
        },
    }
}

/// Every kind of source comes back from its text, the state file aside, which
/// has a line of its own.
proof fn lemma_source_reads_back(s: SourceView)
    requires
        whole_class(s),
    ensures
        source_of(trim(source_text(s))) == Ok::<SourceView, FaultView>(
            match saved_source(s) {
                SourceView::Vst { path, class_id, .. } => SourceView::Vst {
                    path,
                    class_id,
                    state: None,
                },
                other => other,
            },
        ),
        !source_text(s).contains('\n'),
{
    match s {
        SourceView::Vst { path, class_id, .. } => {
            lemma_plugin_reads_back(path, class_id);
            assert(source_text(s) == source_text(SourceView::Vst { path, class_id, state: None }));
        },
        SourceView::NoTrack => {
            reveal_strlit("none");
            let none = "none"@;
            lemma_trim(none);
            lemma_first_index_is(none, ' ', 4);
        },
        _ => {
            lemma_file_reads_back(s);
        },
    }
}

proof fn lemma_no_breaks_in_parts(kind: Seq<char>, name: Seq<char>)
    requires
        !kind.contains('\n'),
        !name.contains('\n'),
    ensures
        !(kind + seq![' '] + name).contains('\n'),
{
    let all = kind + seq![' '] + name;
    assert forall|i: int| 0 <= i < all.len() implies #[trigger] all[i] != '\n' by {
        if i < kind.len() {
            assert(kind.contains(kind[i]));
        } else if i > kind.len() {
            assert(name.contains(name[i - kind.len() - 1]));
        }
    }
}

// ── rows and the whole ──────────────────────────────────────────────────────

/// What lines as they stand in a file make of a project.
spec fn run(p: ProjectView, lines: Seq<Seq<char>>) -> Result<ProjectView, FaultView> {
    read_lines(p, content(lines))
}

/// A project with one more row.
spec fn under(p: ProjectView, r: RowView) -> ProjectView {
    ProjectView { rows: p.rows.push(r), ..p }
}

proof fn lemma_run_add(p: ProjectView, a: Seq<Seq<char>>, b: Seq<Seq<char>>)
    ensures
        run(p, a + b) == (match run(p, a) {
            Ok(q) => run(q, b),
            Err(e) => Err(e),
        }),
{
    lemma_content_add(a, b);
    lemma_read_lines_add(p, content(a), content(b));
}

proof fn lemma_run_one(p: ProjectView, l: Seq<char>)
    ensures
        run(p, seq![l]) == (if says_something(trim(l)) {
            read_line(p, trim(l))
        } else {
            Ok::<ProjectView, FaultView>(p)
        }),
{
    assert(seq![l].drop_last() =~= Seq::<Seq<char>>::empty());
    assert(content(seq![l].drop_last()) =~= Seq::<Seq<char>>::empty());
    let c = content(seq![l]);
    if says_something(trim(l)) {
        assert(c =~= seq![trim(l)]);
        assert(c.drop_last() =~= Seq::<Seq<char>>::empty());
        assert(read_lines(p, c.drop_last()) == Ok::<ProjectView, FaultView>(p));
    }
}

/// What a field's line makes of the row above it.
proof fn lemma_run_field(q: ProjectView, r: RowView, key: Seq<char>, v: Seq<char>)
    requires
        good_key(key),
    ensures
        run(under(q, r), seq![field(key, v)]) == (match row_field(r, key, trim(v)) {
            Ok(s) => Ok(under(q, s)),
            Err(e) => Err(e),
        }),
{
    lemma_field(key, v);
    lemma_run_one(under(q, r), field(key, v));
    assert(under(q, r).rows.drop_last() =~= q.rows);
}

/// The source that a row has before its state line is read.
spec fn unstated(s: SourceView) -> SourceView {
    match s {
        SourceView::Vst { path, class_id, .. } => SourceView::Vst { path, class_id, state: None },
        other => other,
    }
}

proof fn lemma_row_head_reads_back(q: ProjectView, r: RowView)
    requires
        whole_class(r.source),
    ensures
        run(q, row_head(r)) == Ok::<ProjectView, FaultView>(
            under(
                q,
                RowView {
                    track_name: as_one_line(r.track_name),
                    source: unstated(saved_source(r.source)),
                    ..new_row()
                },
            ),
        ),
        unbroken(row_head(r)),
{
    let l0 = Seq::<char>::empty();
    let l1 = "[row]"@;
    let l2 = field("track"@, as_one_line(r.track_name));
    let l3 = field("source"@, source_text(r.source));
    let h = row_head(r);
    assert(h =~= seq![l0] + seq![l1] + seq![l2] + seq![l3]);
    lemma_run_add(q, seq![l0] + seq![l1] + seq![l2], seq![l3]);
    lemma_run_add(q, seq![l0] + seq![l1], seq![l2]);
    lemma_run_add(q, seq![l0], seq![l1]);
    lemma_trim(l0);
    lemma_run_one(q, l0);
    lemma_row_mark();
    lemma_run_one(q, l1);
    assert(run(q, seq![l1]) == Ok::<ProjectView, FaultView>(under(q, new_row())));
    lemma_keys();
    lemma_one_line(r.track_name);
    lemma_run_field(q, new_row(), "track"@, as_one_line(r.track_name));
    let named = RowView { track_name: as_one_line(r.track_name), ..new_row() };
    lemma_source_reads_back(r.source);
    lemma_run_field(q, named, "source"@, source_text(r.source));
    lemma_unbroken_field("track"@, as_one_line(r.track_name));
    lemma_unbroken_field("source"@, source_text(r.source));
}

proof fn lemma_row_mark()
    ensures
        trim("[row]"@) == "[row]"@,
        says_something("[row]"@),
        !"[row]"@.contains('\n'),
{
    reveal_strlit("[row]");
    lemma_trim("[row]"@);
}

proof fn lemma_unbroken_field(key: Seq<char>, v: Seq<char>)
    requires
        good_key(key),
        !v.contains('\n'),
    ensures
        !field(key, v).contains('\n'),
{
    let all = field(key, v);
    assert forall|i: int| 0 <= i < all.len() implies #[trigger] all[i] != '\n' by {
        if i < key.len() {
            assert(all[i] == key[i]);
        } else if i >= key.len() + 3 {
            assert(v.contains(v[i - key.len() - 3]));
        }
    }
}

proof fn lemma_state_reads_back(q: ProjectView, r: RowView, s: SourceView)
    requires
        r.source == unstated(saved_source(s)),
    ensures
        run(under(q, r), state_lines(s)) == Ok::<ProjectView, FaultView>(
            under(q, RowView { source: saved_source(s), ..r }),
        ),
        unbroken(state_lines(s)),
{
    match s {
        SourceView::Vst { path, class_id, state: Some(file) } => {
            lemma_keys();
            lemma_one_line(file);
            lemma_run_field(q, r, "state"@, as_one_line(file));
            lemma_unbroken_field("state"@, as_one_line(file));
        },
        _ => {
            assert(state_lines(s) =~= Seq::<Seq<char>>::empty());
            assert(content(state_lines(s)) =~= Seq::<Seq<char>>::empty());
            assert(RowView { source: saved_source(s), ..r } == r);
        },
    }
}

proof fn lemma_settings_read_back(q: ProjectView, r0: RowView, r: RowView)
    requires
        length_counts(r.lead),
    ensures
        run(under(q, r0), row_settings(r)) == Ok::<ProjectView, FaultView>(
            under(
                q,
                RowView {
                    gain: as_one_line(r.gain),
                    lead: saved_length(r.lead),
                    autosave: r.autosave,
                    ..r0
                },
            ),
        ),
        unbroken(row_settings(r)),
{
    let flag = if r.autosave {
        "1"@
    } else {
        "0"@
    };
    let l0 = field("gain"@, as_one_line(r.gain));
    let l1 = field("lead"@, length_text(r.lead));
    let l2 = field("autosave"@, flag);
    assert(row_settings(r) =~= seq![l0] + seq![l1] + seq![l2]);
    let p0 = under(q, r0);
    lemma_run_add(p0, seq![l0] + seq![l1], seq![l2]);
    lemma_run_add(p0, seq![l0], seq![l1]);
    lemma_keys();
    lemma_one_line(r.gain);
    lemma_run_field(q, r0, "gain"@, as_one_line(r.gain));
    let r1 = RowView { gain: as_one_line(r.gain), ..r0 };
    lemma_length_reads_back(r.lead);
    lemma_run_field(q, r1, "lead"@, length_text(r.lead));
    let r2 = RowView { lead: saved_length(r.lead), ..r1 };
    lemma_flags();
    lemma_run_field(q, r2, "autosave"@, flag);
    lemma_unbroken_field("gain"@, as_one_line(r.gain));
    lemma_unbroken_field("lead"@, length_text(r.lead));
    lemma_unbroken_field("autosave"@, flag);
}

proof fn lemma_flags()
    ensures
        trim("1"@) == "1"@,
        trim("0"@) == "0"@,
        "1"@ != "0"@,
        !"1"@.contains('\n'),
        !"0"@.contains('\n'),
{
    reveal_strlit("1");
    reveal_strlit("0");
    lemma_trim("1"@);
    lemma_trim("0"@);
    assert("1"@[0] != "0"@[0]);
}

proof fn lemma_notes_read_back(q: ProjectView, r: RowView, items: Seq<Item>)
    requires
        forall|i: int|
            0 <= i < items.len() ==> length_counts((#[trigger] items[i]).dur) && length_counts(
                items[i].space,
            ),
    ensures
        run(under(q, r), note_lines(items)) == Ok::<ProjectView, FaultView>(
            under(
                q,
                RowView {
                    items: r.items + Seq::new(items.len(), |i: int| saved_item(items[i])),
                    ..r
                },
            ),
        ),
        unbroken(note_lines(items)),
    decreases items.len(),
{
    let back = Seq::new(items.len(), |i: int| saved_item(items[i]));
    if items.len() == 0 {
        assert(note_lines(items) =~= Seq::<Seq<char>>::empty());
        assert(content(note_lines(items)) =~= Seq::<Seq<char>>::empty());
        assert(r.items + back =~= r.items);
    } else {
        let init = items.drop_last();
        let item = items.last();
        assert(forall|i: int| 0 <= i < init.len() ==> #[trigger] init[i] == items[i]);
        assert(items[items.len() - 1] == item);
        let back0 = Seq::new(init.len(), |i: int| saved_item(init[i]));
        lemma_notes_read_back(q, r, init);
        let r1 = RowView { items: r.items + back0, ..r };
        let line = note_line(item);
        assert(note_lines(items) =~= note_lines(init) + seq![line]);
        lemma_run_add(under(q, r), note_lines(init), seq![line]);
        lemma_keys();
        lemma_note_reads_back(item);
        assert(line == field("note"@, note_value(item)));
        lemma_run_field(q, r1, "note"@, note_value(item));
        assert((r.items + back0).push(saved_item(item)) =~= r.items + back);
        lemma_unbroken_field("note"@, note_value(item));
    }
}

proof fn lemma_row_reads_back(q: ProjectView, r: RowView)
    requires
        writable(r),
    ensures
        run(q, row_lines(r)) == Ok::<ProjectView, FaultView>(under(q, saved_row(r))),
        unbroken(row_lines(r)),
{
    let h = row_head(r);
    let st = state_lines(r.source);
    let se = row_settings(r);
    let no = note_lines(r.items);
    lemma_run_add(q, h + st + se, no);
    lemma_run_add(q, h + st, se);
    lemma_run_add(q, h, st);
    lemma_row_head_reads_back(q, r);
    let r0 = RowView {
        track_name: as_one_line(r.track_name),
        source: unstated(saved_source(r.source)),
        ..new_row()
    };
    lemma_state_reads_back(q, r0, r.source);
    let r1 = RowView { source: saved_source(r.source), ..r0 };
    lemma_settings_read_back(q, r1, r);
    let r2 = RowView {
        gain: as_one_line(r.gain),
        lead: saved_length(r.lead),
        autosave: r.autosave,
        ..r1
    };
    lemma_notes_read_back(q, r2, r.items);
    assert(Seq::<Item>::empty() + saved_row(r).items =~= saved_row(r).items);
}

proof fn lemma_rows_read_back(q: ProjectView, rows: Seq<RowView>)
    requires
        forall|i: int| 0 <= i < rows.len() ==> writable(#[trigger] rows[i]),
    ensures
        run(q, rows_lines(rows)) == Ok::<ProjectView, FaultView>(
            ProjectView {
                rows: q.rows + Seq::new(rows.len(), |i: int| saved_row(rows[i])),
                ..q
            },
        ),
        unbroken(rows_lines(rows)),
    decreases rows.len(),
{
    let back = Seq::new(rows.len(), |i: int| saved_row(rows[i]));
    if rows.len() == 0 {
        assert(rows_lines(rows) =~= Seq::<Seq<char>>::empty());
        assert(content(rows_lines(rows)) =~= Seq::<Seq<char>>::empty());
        assert(q.rows + back =~= q.rows);
    } else {
        let init = rows.drop_last();
        let last = rows.last();
        let back0 = Seq::new(init.len(), |i: int| saved_row(init[i]));
        lemma_rows_read_back(q, init);
        let q1 = ProjectView { rows: q.rows + back0, ..q };
        lemma_run_add(q, rows_lines(init), row_lines(last));
        lemma_row_reads_back(q1, last);
        assert((q.rows + back0).push(saved_row(last)) =~= q.rows + back);
    }
}

proof fn lemma_header()
    ensures
        trim("gemstone-project 1"@) == "gemstone-project 1"@,
        says_something("gemstone-project 1"@),
        header_fault("gemstone-project 1"@) is None,
        !"gemstone-project 1"@.contains('\n'),
{
    reveal_strlit("gemstone-project 1");
    reveal_strlit("gemstone-project");
    let h = "gemstone-project 1"@;
    lemma_trim(h);
    lemma_first_index_is(h, ' ', 16);
    assert(h.take(16) =~= "gemstone-project"@);
    assert(h.skip(17) =~= decimal(1)) by {
        reveal_with_fuel(decimal, 2);
    }
    lemma_digits_are_words(1);
    lemma_decimal_reads_back(1);
}

/// What a field's line makes of a project without rows.
proof fn lemma_run_project_field(p: ProjectView, key: Seq<char>, v: Seq<char>)
    requires
        good_key(key),
        p.rows.len() == 0,
    ensures
        run(p, seq![field(key, v)]) == Ok::<ProjectView, FaultView>(
            project_field(p, key, trim(v)),
        ),
{
    lemma_field(key, v);
    lemma_run_one(p, field(key, v));
}

/// What comes back from a manifest is what went into it: every project's text
/// reads, and gives the project as saved.
pub proof fn law_a_manifest_reads_back(p: ProjectView)
    requires
        forall|i: int| 0 <= i < p.rows.len() ==> writable(#[trigger] p.rows[i]),
    ensures
        parsed(manifest_text(p)) == Ok::<ProjectView, FaultView>(saved(p)),
{
    let l0 = "gemstone-project 1"@;
    let l1 = field("name"@, as_one_line(p.name));
    let l2 = field("tempo"@, as_one_line(p.tempo_bpm));
    let rest = seq![l1] + seq![l2] + rows_lines(p.rows);
    let all = manifest_lines(p);
    assert(all =~= seq![l0] + rest);
    lemma_keys();
    lemma_header();
    lemma_one_line(p.name);
    lemma_one_line(p.tempo_bpm);
    let p0 = new_project();
    let p1 = ProjectView { name: as_one_line(p.name), ..p0 };
    let p2 = ProjectView { tempo_bpm: as_one_line(p.tempo_bpm), ..p1 };
    lemma_run_add(p0, seq![l1] + seq![l2], rows_lines(p.rows));
    lemma_run_add(p0, seq![l1], seq![l2]);
    lemma_run_project_field(p0, "name"@, as_one_line(p.name));
    lemma_run_project_field(p1, "tempo"@, as_one_line(p.tempo_bpm));
    lemma_rows_read_back(p2, p.rows);
    assert(Seq::<RowView>::empty() + saved(p).rows =~= saved(p).rows);
    lemma_unbroken_field("name"@, as_one_line(p.name));
    lemma_unbroken_field("tempo"@, as_one_line(p.tempo_bpm));
    assert(unbroken(all));
    let text = manifest_text(p);
    lemma_text_splits(all, Seq::empty());
    assert(text + Seq::<char>::empty() =~= text);
    let pieces = all.push(Seq::<char>::empty());
    assert(split(text, '\n') == pieces);
    assert(pieces.drop_last() =~= all);
    lemma_trim(Seq::empty());
    assert(content(pieces) == content(all));
    lemma_content_add(seq![l0], rest);
    assert(content(seq![l0]) =~= seq![l0]) by {
        assert(seq![l0].drop_last() =~= Seq::<Seq<char>>::empty());
        assert(content(seq![l0].drop_last()) =~= Seq::<Seq<char>>::empty());
    }
    assert(content(all).skip(1) =~= content(rest));
}

/// A project whose names are single lines and whose lengths are canonical comes
/// back exactly.
pub proof fn law_a_tidy_project_comes_back_exactly(p: ProjectView)
    requires
        keeps(p),
    ensures
        parsed(manifest_text(p)) == Ok::<ProjectView, FaultView>(p),
{
    assert forall|i: int| 0 <= i < p.rows.len() implies writable(#[trigger] p.rows[i])
        && saved_row(p.rows[i]) == p.rows[i] by {
        let r = p.rows[i];
        assert(row_keeps(r));
        lemma_one_line(r.track_name);
        lemma_one_line(r.gain);
        lemma_source_keeps(r.source);
        assert(saved_row(r).items =~= r.items) by {
            assert forall|k: int| 0 <= k < r.items.len() implies saved_item(#[trigger] r.items[k])
                == r.items[k] by {
                assert(item_keeps(r.items[k]));
            }
        }
        assert forall|k: int| 0 <= k < r.items.len() implies length_counts(
            (#[trigger] r.items[k]).dur,
        ) && length_counts(r.items[k].space) by {
            assert(item_keeps(r.items[k]));
        }
    }
    law_a_manifest_reads_back(p);
    lemma_one_line(p.name);
    lemma_one_line(p.tempo_bpm);
    assert(saved(p).rows =~= p.rows);
}

proof fn lemma_source_keeps(s: SourceView)
    requires
        source_keeps(s),
    ensures
        saved_source(s) == s,
        whole_class(s),
{
    match s {
        SourceView::LeSynth { file } => {
            lemma_one_line(file);
        },
        SourceView::Wav { path } => {
            lemma_one_line(path);
        },
        SourceView::Vst { path, class_id, state } => {
            lemma_one_line(path);
            if let Some(file) = state {
                lemma_one_line(file);
            }
        },
        _ => {},
    }
}

/// What has been saved once comes back unchanged from then on.
pub proof fn law_saving_again_changes_nothing(p: ProjectView)
    requires
        forall|i: int| 0 <= i < p.rows.len() ==> writable(#[trigger] p.rows[i]),
    ensures
        saved(saved(p)) == saved(p),
{
    let q = saved(p);
    lemma_one_line(p.name);
    lemma_one_line(p.tempo_bpm);
    assert forall|i: int| 0 <= i < q.rows.len() implies row_keeps(#[trigger] q.rows[i]) by {
        let r = p.rows[i];
        lemma_one_line(r.track_name);
        lemma_one_line(r.gain);
        assert(writable(r));
        match r.source {
            SourceView::LeSynth { file } => {
                lemma_one_line(file);
            },
            SourceView::Wav { path } => {
                lemma_one_line(path);
            },
            SourceView::Vst { path, class_id, state } => {
                lemma_one_line(path);
                if let Some(file) = state {
                    lemma_one_line(file);
                }
            },
            _ => {},
        }
        assert forall|k: int| 0 <= k < q.rows[i].items.len() implies item_keeps(
            #[trigger] q.rows[i].items[k],
        ) by {
            assert(length_counts(r.items[k].dur) && length_counts(r.items[k].space));
        }
    }
    assert forall|i: int| 0 <= i < q.rows.len() implies writable(#[trigger] q.rows[i]) by {
        assert(row_keeps(q.rows[i]));
        lemma_source_keeps(q.rows[i].source);
        assert forall|k: int| 0 <= k < q.rows[i].items.len() implies length_counts(
            (#[trigger] q.rows[i].items[k]).dur,
        ) && length_counts(q.rows[i].items[k].space) by {
            assert(item_keeps(q.rows[i].items[k]));
        }
    }
    law_a_manifest_reads_back(q);
    law_a_tidy_project_comes_back_exactly(q);
}

// ── unknown keys ────────────────────────────────────────────────────────────

/// Whether a key is one that the manifest knows.
pub open spec fn known_key(k: Seq<char>) -> bool {
    k == "name"@ || k == "tempo"@ || k == "track"@ || k == "source"@ || k == "state"@ || k
        == "gain"@ || k == "lead"@ || k == "autosave"@ || k == "note"@
}

/// Whether a line says nothing that the manifest knows: it is empty, a comment,
/// no field at all, or the field of an unknown key.
pub open spec fn unknown_line(line: Seq<char>) -> bool {
    let l = trim(line);
    says_something(l) ==> l != "[row]"@ && match split_once(l, '=') {
        None => true,
        Some((k, _)) => !known_key(trim(k)),
    }
}

/// An unknown line makes nothing of any project.
proof fn lemma_unknown_line(p: ProjectView, line: Seq<char>)
    requires
        unknown_line(line),
        says_something(trim(line)),
    ensures
        read_line(p, trim(line)) == Ok::<ProjectView, FaultView>(p),
{
    let l = trim(line);
    if let Some((k, v)) = split_once(l, '=') {
        if p.rows.len() > 0 {
            assert(p.rows.drop_last().push(p.rows.last()) =~= p.rows);
            assert(row_field(p.rows.last(), trim(k), trim(v)) == Ok::<RowView, FaultView>(
                p.rows.last(),
            ));
        }
    }
}

/// A line of which the manifest knows nothing, inserted anywhere behind the
/// version line, changes nothing of what is read, be it a project or a fault.
/// `head` is the text in front of the line; `tail` is what follows it, which is
/// nothing or starts with a line break.
pub proof fn law_an_unknown_line_changes_nothing(
    head: Seq<char>,
    line: Seq<char>,
    tail: Seq<char>,
)
    requires
        content(split(head, '\n')).len() > 0,
        !line.contains('\n'),
        unknown_line(line),
        tail.len() == 0 || tail[0] == '\n',
    ensures
        parsed(head + seq!['\n'] + line + tail) == parsed(head + tail),
{
    let a = split(head, '\n');
    let more = if tail.len() == 0 {
        Seq::<Seq<char>>::empty()
    } else {
        split(tail.skip(1), '\n')
    };
    lemma_split_joined(head, '\n', line);
    lemma_split_whole(line, '\n');
    let longer = head + seq!['\n'] + line;
    if tail.len() == 0 {
        assert(longer + tail =~= longer);
        assert(head + tail =~= head);
        assert(a + more =~= a);
        assert(a + seq![line] + more =~= a + seq![line]);
    } else {
        let rest = tail.skip(1);
        assert(longer + tail =~= longer + seq!['\n'] + rest);
        assert(head + tail =~= head + seq!['\n'] + rest);
        lemma_split_joined(longer, '\n', rest);
        lemma_split_joined(head, '\n', rest);
    }
    assert(split(longer + tail, '\n') == a + seq![line] + more);
    assert(split(head + tail, '\n') == a + more);
    let ca = content(a);
    let cm = content(more);
    let l = trim(line);
    let mid = if says_something(l) {
        seq![l]
    } else {
        Seq::<Seq<char>>::empty()
    };
    assert(content(seq![line]) =~= mid) by {
        assert(seq![line].drop_last() =~= Seq::<Seq<char>>::empty());
        assert(content(seq![line].drop_last()) =~= Seq::<Seq<char>>::empty());
    }
    lemma_content_add(a, seq![line]);
    lemma_content_add(a + seq![line], more);
    lemma_content_add(a, more);
    let p0 = new_project();
    let front = ca.skip(1);
    assert((ca + mid + cm).skip(1) =~= front + mid + cm);
    assert((ca + cm).skip(1) =~= front + cm);
    lemma_read_lines_add(p0, front + mid, cm);
    lemma_read_lines_add(p0, front, mid);
    lemma_read_lines_add(p0, front, cm);
    if let Ok(q) = read_lines(p0, front) {
        if says_something(l) {
            lemma_unknown_line(q, line);
            assert(mid.drop_last() =~= Seq::<Seq<char>>::empty());
            assert(read_lines(q, mid.drop_last()) == Ok::<ProjectView, FaultView>(q));
            assert(mid.last() == l);
        }
        assert(read_lines(q, mid) == Ok::<ProjectView, FaultView>(q));
    }
}

/// A field added later loads here: a `key = value` line of an unknown key,
/// inserted anywhere behind the version line, changes nothing of what is read.
pub proof fn law_an_unknown_key_is_skipped(
    head: Seq<char>,
    key: Seq<char>,
    value: Seq<char>,
    tail: Seq<char>,
)
    requires
        content(split(head, '\n')).len() > 0,
        good_key(key),
        !known_key(key),
        !value.contains('\n'),
        tail.len() == 0 || tail[0] == '\n',
    ensures
        parsed(head + seq!['\n'] + field(key, value) + tail) == parsed(head + tail),
{
    lemma_field(key, value);
    let line = field(key, value);
    assert(!line.contains('\n')) by {
        assert forall|i: int| 0 <= i < line.len() implies #[trigger] line[i] != '\n' by {
            if i < key.len() {
                assert(key_char(key[i]));
            } else if i >= key.len() + 3 {
                assert(line[i] == value[i - key.len() - 3]);
                assert(value.contains(value[i - key.len() - 3]));
            }
        }
    }
    law_an_unknown_line_changes_nothing(head, line, tail);
}

} // verus!
