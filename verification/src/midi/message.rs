//! What a keyboard's messages say.

use vstd::prelude::*;

verus! {

/// Whether a message starts a note.
pub open spec fn presses(m: Seq<u8>) -> bool {
    m[0] / 16 == 9 && m[2] > 0
}

/// Whether a message ends a note: a note-off, or the note-on without velocity
/// that most keyboards send instead.
pub open spec fn releases(m: Seq<u8>) -> bool {
    m[0] / 16 == 8 || (m[0] / 16 == 9 && m[2] == 0)
}

/// The kind of a message, its channel aside.
pub fn kind_of(m: [u8; 3]) -> (r: u8)
    ensures
        r == (m@[0] / 16) * 16,
{
    let s: u8 = m[0];
    assert(s & 0xF0 == (s / 16) * 16) by (bit_vector);
    s & 0xF0
}

/// Whether a message starts a note. The zero-velocity note-on most keyboards
/// send instead of a note-off does not.
pub fn is_note_on(msg: [u8; 3]) -> (r: bool)
    ensures
        r == presses(msg@),
{
    kind_of(msg) == 0x90 && msg[2] > 0
}

/// Whether a message ends a note, in either spelling.
pub fn is_note_off(msg: [u8; 3]) -> (r: bool)
    ensures
        r == releases(msg@),
{
    let kind: u8 = kind_of(msg);
    kind == 0x80 || (kind == 0x90 && msg[2] == 0)
}

/// A message starts a note where it is a note-on with a velocity, and ends one where
/// it is a note-off or a note-on without; none does both, and no other does either.
pub proof fn law_what_starts_and_ends_a_note(m: Seq<u8>)
    requires
        m.len() == 3,
    ensures
        presses(m) <==> 0x90 <= m[0] <= 0x9F && m[2] > 0,
        releases(m) <==> 0x80 <= m[0] <= 0x8F || (0x90 <= m[0] <= 0x9F && m[2] == 0),
        !(presses(m) && releases(m)),
{
}

} // verus!
