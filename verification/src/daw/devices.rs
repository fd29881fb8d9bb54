//! The keyboard's panel, and how a status line is meant.

use vstd::prelude::*;

use crate::composer::project::text_view;
use crate::midi::input::{keyboards, list_usb_midi_keyboards, MAX_OCTAVE_SHIFT};
use crate::midi::router::texts;
use crate::text::{
    ascii_lower, ascii_lower_chars, chars_of, contains, decimal, has_part, push_decimal,
};

verus! {

/// How an octave shift reads.
pub open spec fn octave_text(shift: int) -> Seq<char> {
    if shift == 0 {
        "none (as played)"@
    } else if shift == 1 {
        "+1 octave up"@
    } else if shift == -1 {
        "−1 octave down"@
    } else if shift > 0 {
        "+"@ + decimal(shift as nat) + " octaves up"@
    } else {
        "−"@ + decimal((-shift) as nat) + " octaves down"@
    }
}

/// How an octave shift reads in its select box: signed, and saying what it does
/// rather than only how far.
pub fn octave_shift_label(shift: i32) -> (r: String)
    requires
        shift > i32::MIN,
    ensures
        r@ == octave_text(shift as int),
{
    if shift == 0 {
        "none (as played)".to_owned()
    } else if shift == 1 {
        "+1 octave up".to_owned()
    } else if shift == -1 {
        "−1 octave down".to_owned()
    } else if shift > 0 {
        let mut out = "+".to_owned();
        push_decimal(&mut out, shift as u64);
        out.append(" octaves up");
        out
    } else {
        let mut out = "−".to_owned();
        let n: i32 = -shift;
        push_decimal(&mut out, n as u64);
        out.append(" octaves down");
        out
    }
}

/// The shifts on offer, from the highest down to the lowest.
pub fn octave_choices() -> (r: Vec<i32>)
    ensures
        r@.len() == 2 * MAX_OCTAVE_SHIFT + 1,
        forall|k: int| 0 <= k < r@.len() ==> #[trigger] r@[k] == MAX_OCTAVE_SHIFT - k,
{
    let mut out: Vec<i32> = Vec::new();
    let mut step: i32 = MAX_OCTAVE_SHIFT;
    while step >= -MAX_OCTAVE_SHIFT
        invariant
            -MAX_OCTAVE_SHIFT - 1 <= step <= MAX_OCTAVE_SHIFT,
            out@.len() == MAX_OCTAVE_SHIFT - step,
            forall|k: int| 0 <= k < out@.len() ==> #[trigger] out@[k] == MAX_OCTAVE_SHIFT - k,
        decreases step + MAX_OCTAVE_SHIFT + 1,
    {
        out.push(step);
        step = step - 1;
    }
    out
}

/// How a status line is meant.
#[derive(Clone, Copy, PartialEq, Eq, Debug, Structural)]
pub enum Mood {
    Bad,
    Good,
    Neutral,
}

/// Whether a text, in small letters, tells of a failure.
pub open spec fn sounds_bad(s: Seq<char>) -> bool {
    ||| contains(s, "fail"@)
    ||| contains(s, "error"@)
    ||| contains(s, "unavailable"@)
    ||| contains(s, "could not"@)
    ||| contains(s, "no "@)
}

/// Whether a text, in small letters, tells of a success.
pub open spec fn sounds_good(s: Seq<char>) -> bool {
    ||| contains(s, "loaded"@)
    ||| contains(s, "playing"@)
    ||| contains(s, "connected"@)
    ||| contains(s, "opened"@)
    ||| contains(s, "decoded"@)
    ||| contains(s, "removed"@)
}

/// How a status line is meant, by its words. A failure outweighs a success.
pub fn status_mood(status: &str) -> (r: Mood)
    ensures
        r == (if sounds_bad(ascii_lower(status@)) {
            Mood::Bad
        } else if sounds_good(ascii_lower(status@)) {
            Mood::Good
        } else {
            Mood::Neutral
        }),
{
    let s = ascii_lower_chars(&chars_of(status));
    if has_part(&s, "fail") || has_part(&s, "error") || has_part(&s, "unavailable") || has_part(
        &s,
        "could not",
    ) || has_part(&s, "no ") {
        Mood::Bad
    } else if has_part(&s, "loaded") || has_part(&s, "playing") || has_part(&s, "connected")
        || has_part(&s, "opened") || has_part(&s, "decoded") || has_part(&s, "removed") {
        Mood::Good
    } else {
        Mood::Neutral
    }
}

/// The keyboard's panel.
#[derive(Debug)]
pub struct DevicePanel {
    pub status: String,
    /// Every port there is.
    pub ports: Vec<String>,
    pub selected_port: Option<String>,
    /// Those of them that are keyboards.
    pub keyboards: Vec<String>,
    pub selected_keyboard: Option<String>,
}

/// The port that Connect means: the keyboard that is picked, or the port, or the
/// first one there is.
pub open spec fn port_meant(
    keyboard: Option<Seq<char>>,
    port: Option<Seq<char>>,
    ports: Seq<Seq<char>>,
) -> Option<Seq<char>> {
    if keyboard is Some {
        keyboard
    } else if port is Some {
        port
    } else if ports.len() > 0 {
        Some(ports[0])
    } else {
        None
    }
}

impl DevicePanel {
    /// A panel that is connected to nothing and has not looked yet.
    pub fn new() -> (r: DevicePanel)
        ensures
            r.status@ == "Disconnected"@,
            r.ports@.len() == 0,
            r.keyboards@.len() == 0,
            r.selected_port is None,
            r.selected_keyboard is None,
    {
        DevicePanel {
            status: "Disconnected".to_owned(),
            ports: Vec::new(),
            selected_port: None,
            keyboards: Vec::new(),
            selected_keyboard: None,
        }
    }

    /// The ports have been looked up.
    pub fn refresh(&mut self, ports: Vec<String>)
        ensures
            final(self).ports == ports,
            texts(final(self).keyboards@) == keyboards(texts(ports@)),
            final(self).status == old(self).status,
            final(self).selected_port == old(self).selected_port,
            final(self).selected_keyboard == old(self).selected_keyboard,
    {
        self.keyboards = list_usb_midi_keyboards(&ports);
        self.ports = ports;
    }

    /// What the keyboard's select box shows.
    pub fn keyboard_label(&self) -> (r: String)
        ensures
            r@ == (match text_view(self.selected_keyboard) {
                Some(k) => k,
                None => "Select USB keyboard…"@,
            }),
    {
        match &self.selected_keyboard {
            Some(k) => k.clone(),
            None => "Select USB keyboard…".to_owned(),
        }
    }

    /// What the port's select box shows.
    pub fn port_label(&self) -> (r: String)
        ensures
            r@ == (match text_view(self.selected_port) {
                Some(k) => k,
                None => "Select MIDI port…"@,
            }),
    {
        match &self.selected_port {
            Some(k) => k.clone(),
            None => "Select MIDI port…".to_owned(),
        }
    }

    /// The port to connect to; it says so where there is none.
    pub fn connect_midi(&mut self) -> (r: Option<String>)
        ensures
            text_view(r) == port_meant(
                text_view(old(self).selected_keyboard),
                text_view(old(self).selected_port),
                texts(old(self).ports@),
            ),
            final(self).ports == old(self).ports,
            final(self).keyboards == old(self).keyboards,
            final(self).selected_port == old(self).selected_port,
            final(self).selected_keyboard == old(self).selected_keyboard,
            final(self).status@ == (if r is None {
                "No MIDI input ports found."@
            } else {
                old(self).status@
            }),
    {
        if let Some(k) = &self.selected_keyboard {
            return Some(k.clone());
        }
        if let Some(p) = &self.selected_port {
            return Some(p.clone());
        }
        if self.ports.len() > 0 {
            assert(texts(self.ports@)[0] == self.ports@[0]@);
            return Some(self.ports[0].clone());
        }
        self.status = "No MIDI input ports found.".to_owned();
        None
    }

    /// A connection was made, or was not.
    pub fn connected(&mut self, port: &str, outcome: Result<(), String>)
        ensures
            final(self).ports == old(self).ports,
            final(self).keyboards == old(self).keyboards,
            final(self).selected_port == old(self).selected_port,
            final(self).selected_keyboard == old(self).selected_keyboard,
            final(self).status@ == (match outcome {
                Ok(_) => "Connected: "@ + port@,
                Err(why) => "MIDI error: "@ + why@,
            }),
    {
        self.status = match outcome {
            Ok(_) => {
                let mut out = "Connected: ".to_owned();
                out.append(port);
                out
            },
            Err(why) => {
                let mut out = "MIDI error: ".to_owned();
                out.append(why.as_str());
                out
            },
        };
    }
}

/// The port that is meant is the keyboard that was picked, or else the port that was
/// picked, or else the first there is.
pub proof fn law_which_port_is_meant(
    keyboard: Option<Seq<char>>,
    port: Option<Seq<char>>,
    ports: Seq<Seq<char>>,
)
    ensures
        keyboard is Some ==> port_meant(keyboard, port, ports) == keyboard,
        keyboard is None && port is Some ==> port_meant(keyboard, port, ports) == port,
        keyboard is None && port is None && ports.len() > 0 ==> port_meant(keyboard, port, ports)
            == Some(ports[0]),
        port_meant(keyboard, port, ports) is None <==> keyboard is None && port is None
            && ports.len() == 0,
{
}

/// A line sounds bad exactly when it holds one of the words for trouble.
pub proof fn law_what_sounds_bad(s: Seq<char>)
    ensures
        ({
            let words = seq!["fail"@, "error"@, "unavailable"@, "could not"@, "no "@];
            sounds_bad(s) <==> exists|k: int|
                0 <= k < words.len() && contains(s, #[trigger] words[k])
        }),
{
    let words = seq!["fail"@, "error"@, "unavailable"@, "could not"@, "no "@];
    assert(words[0] == "fail"@ && words[1] == "error"@ && words[2] == "unavailable"@ && words[3]
        == "could not"@ && words[4] == "no "@);
    if exists|k: int| 0 <= k < words.len() && contains(s, #[trigger] words[k]) {
        let k = choose|k: int| 0 <= k < words.len() && contains(s, #[trigger] words[k]);
        assert(k == 0 || k == 1 || k == 2 || k == 3 || k == 4);
    }
}

/// A line sounds good exactly when it holds one of the words for success.
pub proof fn law_what_sounds_good(s: Seq<char>)
    ensures
        ({
            let words = seq![
                "loaded"@,
                "playing"@,
                "connected"@,
                "opened"@,
                "decoded"@,
                "removed"@,
            ];
            sounds_good(s) <==> exists|k: int|
                0 <= k < words.len() && contains(s, #[trigger] words[k])
        }),
{
    let words = seq!["loaded"@, "playing"@, "connected"@, "opened"@, "decoded"@, "removed"@];
    assert(words[0] == "loaded"@ && words[1] == "playing"@ && words[2] == "connected"@ && words[3]
        == "opened"@ && words[4] == "decoded"@ && words[5] == "removed"@);
    if exists|k: int| 0 <= k < words.len() && contains(s, #[trigger] words[k]) {
        let k = choose|k: int| 0 <= k < words.len() && contains(s, #[trigger] words[k]);
        assert(k == 0 || k == 1 || k == 2 || k == 3 || k == 4 || k == 5);
    }
}

/// A shift reads as its size and its direction: it says how many octaves, and up or
/// down, and a shift of nothing is none.
pub proof fn law_how_a_shift_reads(shift: int)
    ensures
        shift > 1 ==> octave_text(shift) == "+"@ + decimal(shift as nat) + " octaves up"@,
        shift < -1 ==> octave_text(shift) == "−"@ + decimal((-shift) as nat) + " octaves down"@,
        shift == 1 ==> octave_text(shift) == "+1 octave up"@,
        shift == -1 ==> octave_text(shift) == "−1 octave down"@,
        shift == 0 ==> octave_text(shift) == "none (as played)"@,
{
}

} // verus!
