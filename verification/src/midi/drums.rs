//! What a note means on a drum track.
//!
//! A pitch is only ever a MIDI note number: the host sends the number and the
//! plugin decides what it hits. General MIDI percussion is the map nearly every
//! kit follows, so a note on a drum track can be named by it. The name is shown
//! beside the pitch, never instead of it.

use vstd::prelude::*;

use crate::text::{
    ascii_lower, ascii_lower_chars, chars_of, contains, has_part, reads, split, split_chars, trim,
    trim_chars,
};

verus! {

/// The General MIDI percussion name of a note, for the notes that have one.
pub open spec fn gm_name(note: u8) -> Option<Seq<char>> {
    match note {
        27 => Some("High Q"@),
        28 => Some("Slap"@),
        29 => Some("Scratch Push"@),
        30 => Some("Scratch Pull"@),
        31 => Some("Sticks"@),
        32 => Some("Square Click"@),
        33 => Some("Metronome Click"@),
        34 => Some("Metronome Bell"@),
        35 => Some("Acoustic Bass Drum"@),
        36 => Some("Bass Drum (Kick)"@),
        37 => Some("Side Stick / Rim"@),
        38 => Some("Acoustic Snare"@),
        39 => Some("Hand Clap"@),
        40 => Some("Electric Snare"@),
        41 => Some("Low Floor Tom"@),
        42 => Some("Closed Hi-Hat"@),
        43 => Some("High Floor Tom"@),
        44 => Some("Pedal Hi-Hat"@),
        45 => Some("Low Tom"@),
        46 => Some("Open Hi-Hat"@),
        47 => Some("Low-Mid Tom"@),
        48 => Some("Hi-Mid Tom"@),
        49 => Some("Crash Cymbal 1"@),
        50 => Some("High Tom"@),
        51 => Some("Ride Cymbal 1"@),
        52 => Some("Chinese Cymbal"@),
        53 => Some("Ride Bell"@),
        54 => Some("Tambourine"@),
        55 => Some("Splash Cymbal"@),
        56 => Some("Cowbell"@),
        57 => Some("Crash Cymbal 2"@),
        58 => Some("Vibraslap"@),
        59 => Some("Ride Cymbal 2"@),
        60 => Some("Hi Bongo"@),
        61 => Some("Low Bongo"@),
        62 => Some("Mute Hi Conga"@),
        63 => Some("Open Hi Conga"@),
        64 => Some("Low Conga"@),
        65 => Some("High Timbale"@),
        66 => Some("Low Timbale"@),
        67 => Some("High Agogo"@),
        68 => Some("Low Agogo"@),
        69 => Some("Cabasa"@),
        70 => Some("Maracas"@),
        71 => Some("Short Whistle"@),
        72 => Some("Long Whistle"@),
        73 => Some("Short Guiro"@),
        74 => Some("Long Guiro"@),
        75 => Some("Claves"@),
        76 => Some("Hi Wood Block"@),
        77 => Some("Low Wood Block"@),
        78 => Some("Mute Cuica"@),
        79 => Some("Open Cuica"@),
        80 => Some("Mute Triangle"@),
        81 => Some("Open Triangle"@),
        82 => Some("Shaker"@),
        83 => Some("Jingle Bell"@),
        84 => Some("Bell Tree"@),
        85 => Some("Castanets"@),
        86 => Some("Mute Surdo"@),
        87 => Some("Open Surdo"@),
        _ => None,
    }
}

/// The General MIDI percussion name for a note, if it has one.
pub fn gm_percussion_name(note: u8) -> (r: Option<&'static str>)
    ensures
        r is Some <==> gm_name(note) is Some,
        r is Some ==> r->0@ == gm_name(note)->0,
{
    match note {
        27 => Some("High Q"),
        28 => Some("Slap"),
        29 => Some("Scratch Push"),
        30 => Some("Scratch Pull"),
        31 => Some("Sticks"),
        32 => Some("Square Click"),
        33 => Some("Metronome Click"),
        34 => Some("Metronome Bell"),
        35 => Some("Acoustic Bass Drum"),
        36 => Some("Bass Drum (Kick)"),
        37 => Some("Side Stick / Rim"),
        38 => Some("Acoustic Snare"),
        39 => Some("Hand Clap"),
        40 => Some("Electric Snare"),
        41 => Some("Low Floor Tom"),
        42 => Some("Closed Hi-Hat"),
        43 => Some("High Floor Tom"),
        44 => Some("Pedal Hi-Hat"),
        45 => Some("Low Tom"),
        46 => Some("Open Hi-Hat"),
        47 => Some("Low-Mid Tom"),
        48 => Some("Hi-Mid Tom"),
        49 => Some("Crash Cymbal 1"),
        50 => Some("High Tom"),
        51 => Some("Ride Cymbal 1"),
        52 => Some("Chinese Cymbal"),
        53 => Some("Ride Bell"),
        54 => Some("Tambourine"),
        55 => Some("Splash Cymbal"),
        56 => Some("Cowbell"),
        57 => Some("Crash Cymbal 2"),
        58 => Some("Vibraslap"),
        59 => Some("Ride Cymbal 2"),
        60 => Some("Hi Bongo"),
        61 => Some("Low Bongo"),
        62 => Some("Mute Hi Conga"),
        63 => Some("Open Hi Conga"),
        64 => Some("Low Conga"),
        65 => Some("High Timbale"),
        66 => Some("Low Timbale"),
        67 => Some("High Agogo"),
        68 => Some("Low Agogo"),
        69 => Some("Cabasa"),
        70 => Some("Maracas"),
        71 => Some("Short Whistle"),
        72 => Some("Long Whistle"),
        73 => Some("Short Guiro"),
        74 => Some("Long Guiro"),
        75 => Some("Claves"),
        76 => Some("Hi Wood Block"),
        77 => Some("Low Wood Block"),
        78 => Some("Mute Cuica"),
        79 => Some("Open Cuica"),
        80 => Some("Mute Triangle"),
        81 => Some("Open Triangle"),
        82 => Some("Shaker"),
        83 => Some("Jingle Bell"),
        84 => Some("Bell Tree"),
        85 => Some("Castanets"),
        86 => Some("Mute Surdo"),
        87 => Some("Open Surdo"),
        _ => None,
    }
}

/// The notes General MIDI names are the ones from 27 to 87, and no others.
pub proof fn law_named_notes_are_one_range(note: u8)
    ensures
        gm_name(note) is Some <==> 27 <= note <= 87,
{
}

/// Whether a `|`-separated list of categories holds the drum one.
pub open spec fn says_drum(subcategories: Seq<char>) -> bool {
    exists|i: int|
        0 <= i < split(subcategories, '|').len() && ascii_lower(
            trim(#[trigger] split(subcategories, '|')[i]),
        ) == "drum"@
}

/// Whether a name holds one of the words, or product names, that mean a kit.
pub open spec fn named_like_a_kit(name: Seq<char>) -> bool {
    let n = ascii_lower(name);
    ||| contains(n, "drum"@)
    ||| contains(n, "percussion"@)
    ||| contains(n, "kit"@)
    ||| contains(n, "beats"@)
    ||| contains(n, "sitala"@)
    ||| contains(n, "battery"@)
    ||| contains(n, "maschine"@)
    ||| contains(n, "geist"@)
    ||| contains(n, "hydrogen"@)
    ||| contains(n, "808"@)
    ||| contains(n, "909"@)
    ||| contains(n, "hats"@)
}

/// Whether a plugin plays a drum kit, and so should have its notes named.
///
/// `subcategories` is the plugin class's own declaration, the precise answer
/// where a plugin makes it; the name is the fallback.
pub fn plays_a_drum_kit(name: &str, subcategories: &str) -> (r: bool)
    ensures
        r == (says_drum(subcategories@) || named_like_a_kit(name@)),
{
    let list = chars_of(subcategories);
    let parts = split_chars(&list, '|');
    let mut i: usize = 0;
    while i < parts.len()
        invariant
            i <= parts.len(),
            parts@.len() == split(subcategories@, '|').len(),
            forall|k: int|
                0 <= k < parts@.len() ==> (#[trigger] parts@[k])@ == split(subcategories@, '|')[k],
            forall|k: int|
                0 <= k < i ==> ascii_lower(trim(#[trigger] split(subcategories@, '|')[k]))
                    != "drum"@,
        decreases parts.len() - i,
    {
        let word = ascii_lower_chars(&trim_chars(&parts[i]));
        if reads(&word, "drum") {
            assert(ascii_lower(trim(split(subcategories@, '|')[i as int])) == "drum"@);
            return true;
        }
        i += 1;
    }
    let n = ascii_lower_chars(&chars_of(name));
    has_part(&n, "drum") || has_part(&n, "percussion") || has_part(&n, "kit") || has_part(
        &n,
        "beats",
    ) || has_part(&n, "sitala") || has_part(&n, "battery") || has_part(&n, "maschine") || has_part(
        &n,
        "geist",
    ) || has_part(&n, "hydrogen") || has_part(&n, "808") || has_part(&n, "909") || has_part(
        &n,
        "hats",
    )
}

/// A plugin is named like a kit exactly when its name, in lower case, holds one of
/// the words that kits go by.
pub proof fn law_what_names_a_kit(name: Seq<char>)
    ensures
        ({
            let words = seq![
                "drum"@,
                "percussion"@,
                "kit"@,
                "beats"@,
                "sitala"@,
                "battery"@,
                "maschine"@,
                "geist"@,
                "hydrogen"@,
                "808"@,
                "909"@,
                "hats"@,
            ];
            named_like_a_kit(name) <==> exists|k: int|
                0 <= k < words.len() && contains(ascii_lower(name), #[trigger] words[k])
        }),
{
    let words = seq![
        "drum"@,
        "percussion"@,
        "kit"@,
        "beats"@,
        "sitala"@,
        "battery"@,
        "maschine"@,
        "geist"@,
        "hydrogen"@,
        "808"@,
        "909"@,
        "hats"@,
    ];
    let n = ascii_lower(name);
    assert(words[0] == "drum"@ && words[1] == "percussion"@ && words[2] == "kit"@ && words[3]
        == "beats"@ && words[4] == "sitala"@ && words[5] == "battery"@ && words[6] == "maschine"@
        && words[7] == "geist"@ && words[8] == "hydrogen"@ && words[9] == "808"@ && words[10]
        == "909"@ && words[11] == "hats"@);
    if exists|k: int| 0 <= k < words.len() && contains(n, #[trigger] words[k]) {
        let k = choose|k: int| 0 <= k < words.len() && contains(n, #[trigger] words[k]);
        assert(k == 0 || k == 1 || k == 2 || k == 3 || k == 4 || k == 5 || k == 6 || k == 7 || k
            == 8 || k == 9 || k == 10 || k == 11);
    }
}

/// Where one of the categories that a plugin lists is "drum", however it is spelled
/// and spaced, it says so of itself.
pub proof fn law_any_category_may_say_drum(subcategories: Seq<char>, i: int)
    requires
        0 <= i < split(subcategories, '|').len(),
        ascii_lower(trim(split(subcategories, '|')[i])) == "drum"@,
    ensures
        says_drum(subcategories),
{
}

} // verus!
