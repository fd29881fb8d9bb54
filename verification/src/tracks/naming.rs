//! What a track is called, and whether it plays a drum kit.

use vstd::prelude::*;

use crate::midi::drums::{named_like_a_kit, plays_a_drum_kit, says_drum};
use crate::path::{file_stem, stem_of};
use crate::text::same_str;

verus! {

/// A digit of a UUID's text.
pub open spec fn is_hex(c: char) -> bool {
    '0' <= c <= '9' || 'a' <= c <= 'f'
}

/// The text of a random UUID: groups of small hexadecimal digits with hyphens
/// between them, the version and the variant in their places.
pub open spec fn is_uuid(s: Seq<char>) -> bool {
    &&& s.len() == 36
    &&& forall|i: int|
        0 <= i < 36 ==> if i == 8 || i == 13 || i == 18 || i == 23 {
            #[trigger] s[i] == '-'
        } else {
            is_hex(s[i])
        }
    &&& s[14] == '4'
    &&& s[19] == '8' || s[19] == '9' || s[19] == 'a' || s[19] == 'b'
}

/// `uuid::Uuid::new_v4` as text: its hyphenated form in small letters, of version
/// four and the standard variant. Which one it is rests on the machine's random
/// numbers; where those cannot be had, the call does not return.
#[verifier::external_body]
pub(crate) fn fresh_uuid() -> (r: String)
    ensures
        is_uuid(r@),
{
    uuid::Uuid::new_v4().to_string()
}

/// Whether a text is a name made from a stem: the readable part, then a UUID.
pub open spec fn is_fresh_name(name: Seq<char>, stem: Seq<char>) -> bool {
    exists|u: Seq<char>| #[trigger] is_uuid(u) && name == stem + " · "@ + u
}

/// A stem and a UUID as a track name.
pub fn name_with(stem: &str, id: &str) -> (r: String)
    ensures
        r@ == stem@ + " · "@ + id@,
{
    let mut out = stem.to_owned();
    out.append(" · ");
    out.append(id);
    out
}

/// A track name nothing else can already be called: the readable part, then a
/// fresh UUID.
///
/// A saved project writes one file per track named after the track, and a row
/// records which track it plays by that name. The stem is what a person reads;
/// the UUID is what keeps two of them apart.
pub fn unique_track_name(stem: &str) -> (r: String)
    ensures
        is_fresh_name(r@, stem@),
{
    let id = fresh_uuid();
    name_with(stem, id.as_str())
}

/// Names with different UUIDs are different, whatever their stems.
pub proof fn law_different_ids_make_different_names(
    a: Seq<char>,
    b: Seq<char>,
    u: Seq<char>,
    v: Seq<char>,
)
    requires
        is_uuid(u),
        is_uuid(v),
        u != v,
    ensures
        a + " · "@ + u != b + " · "@ + v,
{
    let x = a + " · "@ + u;
    let y = b + " · "@ + v;
    if x == y {
        assert(x.skip(x.len() - 36) =~= u);
        assert(y.skip(y.len() - 36) =~= v);
    }
}

/// The name of a plugin's track: that of the bundle, or of the library inside it,
/// or the path itself.
pub open spec fn module_name(path: Seq<char>, resolved: Seq<char>) -> Seq<char> {
    match stem_of(path) {
        Some(n) => n,
        None => match stem_of(resolved) {
            Some(n) => n,
            None => path,
        },
    }
}

/// Name a track after the bundle, not the library inside it.
pub fn name_module(path: &str, resolved: &str) -> (r: String)
    ensures
        r@ == module_name(path@, resolved@),
{
    match file_stem(path) {
        Some(n) => n,
        None => match file_stem(resolved) {
            Some(n) => n,
            None => path.to_owned(),
        },
    }
}

/// What a plugin's factory says of one of its classes.
#[derive(Clone, Debug)]
pub struct ClassInfo {
    pub name: String,
    pub category: String,
    pub subcategories: String,
}

/// The category of the classes that make sound.
pub const AUDIO_CATEGORY: &'static str = "Audio Module Class";

/// Where the first audio class stands, or how many classes there are.
pub open spec fn audio_place(s: Seq<ClassInfo>) -> int
    decreases s.len(),
{
    if s.len() == 0 || s[0].category@ == AUDIO_CATEGORY@ {
        0
    } else {
        1 + audio_place(s.skip(1))
    }
}

/// Whether a class with this name and these categories plays a drum kit.
pub open spec fn plays_drums(name: Seq<char>, subcategories: Seq<char>) -> bool {
    says_drum(subcategories) || named_like_a_kit(name)
}

/// Whether a plugin plays a drum kit: its audio class says so, or the first class
/// where it has no audio class, or its name does. A plugin that could not be
/// scanned has only its name.
pub open spec fn drum_kit(classes: Option<Seq<ClassInfo>>, name: Seq<char>) -> bool {
    plays_drums(name, ""@) || match classes {
        None => false,
        Some(s) => if audio_place(s) < s.len() {
            plays_drums(s[audio_place(s)].name@, s[audio_place(s)].subcategories@)
        } else {
            s.len() > 0 && plays_drums(s[0].name@, s[0].subcategories@)
        },
    }
}

/// What an optional list of classes holds.
pub open spec fn classes_view(s: Option<Vec<ClassInfo>>) -> Option<Seq<ClassInfo>> {
    match s {
        Some(v) => Some(v@),
        None => None,
    }
}

fn find_audio(v: &Vec<ClassInfo>) -> (r: usize)
    ensures
        r == audio_place(v@),
        r <= v@.len(),
{
    let mut i: usize = 0;
    assert(v@.skip(0) =~= v@);
    while i < v.len()
        invariant
            i <= v.len(),
            audio_place(v@) == i + audio_place(v@.skip(i as int)),
        decreases v.len() - i,
    {
        assert(v@.skip(i as int)[0] == v@[i as int]);
        if same_str(v[i].category.as_str(), AUDIO_CATEGORY) {
            return i;
        }
        assert(v@.skip(i as int).skip(1) =~= v@.skip(i + 1));
        i += 1;
    }
    i
}

/// Whether this plugin plays a drum kit, so that the rows can name its notes.
///
/// The plugin's own categories are the precise answer; the name catches the many
/// that declare themselves a plain instrument.
pub fn is_a_drum_kit(classes: &Option<Vec<ClassInfo>>, name: &str) -> (r: bool)
    ensures
        r == drum_kit(classes_view(*classes), name@),
{
    let by_class = match classes {
        None => false,
        Some(v) => {
            let k: usize = find_audio(v);
            if k < v.len() {
                plays_a_drum_kit(v[k].name.as_str(), v[k].subcategories.as_str())
            } else if v.len() > 0 {
                plays_a_drum_kit(v[0].name.as_str(), v[0].subcategories.as_str())
            } else {
                false
            }
        },
    };
    by_class || plays_a_drum_kit(name, "")
}

/// The class that is asked is the first audio module, and there is none only where no
/// class is one.
pub proof fn law_the_first_audio_module_is_asked(s: Seq<ClassInfo>)
    ensures
        0 <= audio_place(s) <= s.len(),
        audio_place(s) < s.len() ==> s[audio_place(s)].category@ == "Audio Module Class"@,
        forall|k: int|
            0 <= k < s.len() && (#[trigger] s[k]).category@ == "Audio Module Class"@
                ==> audio_place(s) <= k,
    decreases s.len(),
{
    if s.len() > 0 && s[0].category@ != AUDIO_CATEGORY@ {
        let rest = s.skip(1);
        law_the_first_audio_module_is_asked(rest);
        assert forall|k: int|
            0 <= k < s.len() && (#[trigger] s[k]).category@
                == "Audio Module Class"@ implies audio_place(s) <= k by {
            if k > 0 {
                assert(rest[k - 1] == s[k]);
            }
        }
    }
}

/// A track is a drum kit where its name says so, or the name or the categories of the
/// class that it plays: the first audio module of its factory, or the first class
/// where no class is one.
pub proof fn law_what_makes_a_drum_kit(s: Seq<ClassInfo>, name: Seq<char>)
    ensures
        named_like_a_kit(name) ==> drum_kit(None, name) && drum_kit(Some(s), name),
        drum_kit(None, name) ==> drum_kit(Some(s), name),
        !drum_kit(None, name) && s.len() == 0 ==> !drum_kit(Some(s), name),
        !drum_kit(None, name) && audio_place(s) < s.len() ==> (drum_kit(Some(s), name) <==> says_drum(
            s[audio_place(s)].subcategories@,
        ) || named_like_a_kit(s[audio_place(s)].name@)),
        !drum_kit(None, name) && s.len() > 0 && audio_place(s) == s.len() ==> (drum_kit(
            Some(s),
            name,
        ) <==> says_drum(s[0].subcategories@) || named_like_a_kit(s[0].name@)),
{
    law_the_first_audio_module_is_asked(s);
}

/// A module is called by its file, or else by the file it was found in, or else by
/// all of its path.
pub proof fn law_what_a_module_is_called(path: Seq<char>, resolved: Seq<char>)
    ensures
        stem_of(path) is Some ==> module_name(path, resolved) == stem_of(path)->0,
        stem_of(path) is None && stem_of(resolved) is Some ==> module_name(path, resolved)
            == stem_of(resolved)->0,
        stem_of(path) is None && stem_of(resolved) is None ==> module_name(path, resolved) == path,
{
}

} // verus!
