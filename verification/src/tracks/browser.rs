//! The picker for a custom plugin: what is installed on this machine.

use vstd::prelude::*;

use crate::path::{
    extension, extension_of, file_stem, folder_of, is_same_path, parent, same_path, stem_of,
};
use crate::text::{
    ascii_lower, ascii_lower_chars, chars_of, lemma_text_le, lowercase, reads, same_str, text_le,
    to_lowercase,
};

verus! {

/// A plugin: what it is called, and where its bundle or library stands.
pub type Found = (Seq<char>, Seq<char>);

/// The picker.
///
/// A plugin is a bundle, a folder with the library inside it, which a file
/// dialog cannot pick. So this lists what is installed.
#[derive(Clone, Debug)]
pub struct PluginBrowser {
    /// The name on screen and the path to the bundle or library.
    pub found: Vec<(String, String)>,
    /// Where the scan looked, shown when it found nothing.
    pub searched: Vec<String>,
    pub error: Option<String>,
}

/// What a list of named paths says.
pub open spec fn found_view(s: Seq<(String, String)>) -> Seq<Found> {
    s.map_values(|e: (String, String)| (e.0@, e.1@))
}

/// Whether a path is a plugin bundle.
pub open spec fn is_bundle(p: Seq<char>) -> bool {
    extension_of(p) matches Some(e) && ascii_lower(e) == "vst3"@
}

/// A bundle by its name.
pub open spec fn named(p: Seq<char>) -> Found {
    (
        match stem_of(p) {
            Some(n) => n,
            None => p,
        },
        p,
    )
}

/// The bundles among some paths, named.
pub open spec fn bundles(paths: Seq<Seq<char>>) -> Seq<Found>
    decreases paths.len(),
{
    if paths.len() == 0 {
        Seq::empty()
    } else if is_bundle(paths.last()) {
        bundles(paths.drop_last()).push(named(paths.last()))
    } else {
        bundles(paths.drop_last())
    }
}

/// Whether one plugin stands no later than another: by name, whatever the case.
pub open spec fn leads(a: Found, b: Found) -> bool {
    text_le(lowercase(a.0), lowercase(b.0))
}

/// Where a newcomer goes: behind the last one that stands no later than it.
pub open spec fn slot(s: Seq<Found>, x: Found) -> int
    decreases s.len(),
{
    if s.len() == 0 || leads(s.last(), x) {
        s.len() as int
    } else {
        slot(s.drop_last(), x)
    }
}

/// The plugins by name, those of one name as they came in.
pub open spec fn by_name(s: Seq<Found>) -> Seq<Found>
    decreases s.len(),
{
    if s.len() == 0 {
        Seq::empty()
    } else {
        let front = by_name(s.drop_last());
        front.insert(slot(front, s.last()), s.last())
    }
}

/// The plugins without those at the same path as the one before.
pub open spec fn deduped(s: Seq<Found>) -> Seq<Found>
    decreases s.len(),
{
    if s.len() == 0 {
        Seq::empty()
    } else {
        let front = deduped(s.drop_last());
        if front.len() > 0 && same_path(front.last().1, s.last().1) {
            front
        } else {
            front.push(s.last())
        }
    }
}

/// Whether another plugin of the list has the same name.
pub open spec fn shares_name(s: Seq<Found>, i: int) -> bool {
    exists|j: int| 0 <= j < s.len() && j != i && (#[trigger] s[j]).0 == s[i].0
}

/// What a plugin is called in the list: by its folder too where another has the
/// same name.
pub open spec fn shown(s: Seq<Found>, i: int) -> Found {
    if shares_name(s, i) && folder_of(s[i].1) is Some {
        (s[i].0 + "  —  "@ + folder_of(s[i].1)->0, s[i].1)
    } else {
        s[i]
    }
}

/// The list of the picker, out of everything that stands in the plugin folders.
pub open spec fn listed(paths: Seq<Seq<char>>) -> Seq<Found> {
    let s = deduped(by_name(bundles(paths)));
    Seq::new(s.len(), |i: int| shown(s, i))
}

/// Whether a text stands no later than another in the order of characters.
fn no_later(a: &Vec<char>, b: &Vec<char>) -> (r: bool)
    ensures
        r == text_le(a@, b@),
{
    let mut i: usize = 0;
    assert(a@.skip(0) =~= a@);
    assert(b@.skip(0) =~= b@);
    while i < a.len()
        invariant
            i <= a.len(),
            i <= b.len(),
            text_le(a@, b@) == text_le(a@.skip(i as int), b@.skip(i as int)),
        decreases a.len() - i,
    {
        if i >= b.len() {
            return false;
        }
        proof {
            assert(a@.skip(i as int).skip(1) =~= a@.skip(i + 1));
            assert(b@.skip(i as int).skip(1) =~= b@.skip(i + 1));
        }
        if a[i] < b[i] {
            return true;
        }
        if a[i] != b[i] {
            return false;
        }
        i += 1;
    }
    true
}

fn bundle_name(path: &str) -> (r: Option<String>)
    ensures
        match r {
            Some(n) => is_bundle(path@) && named(path@) == (n@, path@),
            None => !is_bundle(path@),
        },
{
    match extension(path) {
        None => None,
        Some(e) => {
            let low = ascii_lower_chars(&e);
            if reads(&low, "vst3") {
                match file_stem(path) {
                    Some(n) => Some(n),
                    None => Some(path.to_owned()),
                }
            } else {
                None
            }
        },
    }
}

proof fn lemma_slot(s: Seq<Found>, x: Found)
    ensures
        0 <= slot(s, x) <= s.len(),
    decreases s.len(),
{
    if s.len() > 0 && !leads(s.last(), x) {
        lemma_slot(s.drop_last(), x);
    }
}

/// Put a plugin into its place. `keys` are the names in small letters.
fn put(found: &mut Vec<(String, String)>, keys: &mut Vec<Vec<char>>, name: String, path: String)
    requires
        old(keys)@.len() == old(found)@.len(),
        forall|i: int|
            0 <= i < old(keys)@.len() ==> (#[trigger] old(keys)@[i])@ == lowercase(
                old(found)@[i].0@,
            ),
    ensures
        final(keys)@.len() == final(found)@.len(),
        forall|i: int|
            0 <= i < final(keys)@.len() ==> (#[trigger] final(keys)@[i])@ == lowercase(
                final(found)@[i].0@,
            ),
        ({
            let s = found_view(old(found)@);
            let x = (name@, path@);
            found_view(final(found)@) == s.insert(slot(s, x), x)
        }),
{
    let lower = to_lowercase(name.as_str());
    let key = chars_of(lower.as_str());
    let ghost s = found_view(found@);
    let ghost x = (name@, path@);
    let mut at: usize = found.len();
    assert(s.take(at as int) =~= s);
    while at > 0 && !no_later(&keys[at - 1], &key)
        invariant
            at <= found@.len(),
            keys@.len() == found@.len(),
            s == found_view(found@),
            forall|i: int|
                0 <= i < keys@.len() ==> (#[trigger] keys@[i])@ == lowercase(found@[i].0@),
            key@ == lowercase(x.0),
            slot(s, x) == slot(s.take(at as int), x),
        decreases at,
    {
        proof {
            let part = s.take(at as int);
            assert(part.last() == s[at - 1]);
            assert(keys@[at - 1]@ == lowercase(s[at - 1].0));
            assert(part.drop_last() =~= s.take(at - 1));
        }
        at -= 1;
    }
    proof {
        let part = s.take(at as int);
        if at > 0 {
            assert(part.last() == s[at - 1]);
            assert(keys@[at - 1]@ == lowercase(s[at - 1].0));
        }
        assert(slot(s, x) == at);
    }
    let ghost found_before = found@;
    let ghost keys_before = keys@;
    found.insert(at, (name, path));
    keys.insert(at, key);
    proof {
        assert(found_view(found@) =~= s.insert(at as int, x));
        assert forall|i: int| 0 <= i < keys@.len() implies (#[trigger] keys@[i])@ == lowercase(
            found@[i].0@,
        ) by {
            if i < at {
                assert(keys@[i] == keys_before[i] && found@[i] == found_before[i]);
            } else if i > at {
                assert(keys@[i] == keys_before[i - 1] && found@[i] == found_before[i - 1]);
            }
        }
    }
}

fn list_by_name(paths: &Vec<String>) -> (r: Vec<(String, String)>)
    ensures
        found_view(r@) == by_name(bundles(paths@.map_values(|p: String| p@))),
{
    let ghost all = paths@.map_values(|p: String| p@);
    let mut found: Vec<(String, String)> = Vec::new();
    let mut keys: Vec<Vec<char>> = Vec::new();
    let n: usize = paths.len();
    let mut k: usize = 0;
    proof {
        assert(all.take(0).len() == 0);
        assert(found_view(found@) =~= by_name(bundles(all.take(0))));
    }
    while k < n
        invariant
            k <= n,
            n == paths@.len(),
            all == paths@.map_values(|p: String| p@),
            keys@.len() == found@.len(),
            forall|i: int|
                0 <= i < keys@.len() ==> (#[trigger] keys@[i])@ == lowercase(found@[i].0@),
            found_view(found@) == by_name(bundles(all.take(k as int))),
        decreases n - k,
    {
        let path = paths[k].as_str();
        proof {
            let part = all.take(k + 1);
            assert(part.drop_last() =~= all.take(k as int));
            assert(part.last() == path@);
            let b = bundles(all.take(k as int)).push(named(path@));
            assert(b.drop_last() =~= bundles(all.take(k as int)));
        }
        if let Some(name) = bundle_name(path) {
            put(&mut found, &mut keys, name, path.to_owned());
        }
        k += 1;
    }
    assert(all.take(n as int) =~= all);
    found
}

fn drop_repeats(found: &Vec<(String, String)>) -> (r: Vec<(String, String)>)
    ensures
        found_view(r@) == deduped(found_view(found@)),
{
    let ghost all = found_view(found@);
    let mut out: Vec<(String, String)> = Vec::new();
    let n: usize = found.len();
    let mut k: usize = 0;
    proof {
        assert(all.take(0).len() == 0);
        assert(found_view(out@) =~= deduped(all.take(0)));
    }
    while k < n
        invariant
            k <= n,
            n == found@.len(),
            all == found_view(found@),
            found_view(out@) == deduped(all.take(k as int)),
        decreases n - k,
    {
        proof {
            let part = all.take(k + 1);
            assert(part.drop_last() =~= all.take(k as int));
            assert(part.last() == all[k as int]);
        }
        let ghost before = found_view(out@);
        let len: usize = out.len();
        let repeat = len > 0 && is_same_path(out[len - 1].1.as_str(), found[k].1.as_str());
        proof {
            if len > 0 {
                assert(before.last() == (out@[len - 1].0@, out@[len - 1].1@));
            }
        }
        if !repeat {
            out.push((found[k].0.clone(), found[k].1.clone()));
            assert(found_view(out@) =~= before.push(all[k as int]));
        }
        k += 1;
    }
    assert(all.take(n as int) =~= all);
    out
}

fn has_namesake(found: &Vec<(String, String)>, i: usize) -> (r: bool)
    requires
        i < found@.len(),
    ensures
        r == shares_name(found_view(found@), i as int),
{
    let ghost all = found_view(found@);
    let n: usize = found.len();
    let mut k: usize = 0;
    while k < n
        invariant
            k <= n,
            n == found@.len(),
            i < n,
            all == found_view(found@),
            forall|j: int| 0 <= j < k && j != i ==> (#[trigger] all[j]).0 != all[i as int].0,
        decreases n - k,
    {
        if k != i && same_str(found[k].0.as_str(), found[i].0.as_str()) {
            assert(all[k as int].0 == all[i as int].0);
            return true;
        }
        assert(all[k as int].0 == found@[k as int].0@);
        k += 1;
    }
    false
}

impl PluginBrowser {
    /// The plugins among everything that stands in the plugin folders. The same
    /// plugin installed in two places would show as two identical rows, so each is
    /// named by its folder.
    pub fn scan(searched: Vec<String>, entries: &Vec<String>) -> (r: PluginBrowser)
        ensures
            r.searched == searched,
            r.error is None,
            found_view(r.found@) == listed(entries@.map_values(|p: String| p@)),
    {
        let sorted = list_by_name(entries);
        let found = drop_repeats(&sorted);
        let ghost all = found_view(found@);
        let mut out: Vec<(String, String)> = Vec::new();
        let n: usize = found.len();
        let mut k: usize = 0;
        while k < n
            invariant
                k <= n,
                n == found@.len(),
                all == found_view(found@),
                out@.len() == k,
                forall|i: int| 0 <= i < k ==> found_view(out@)[i] == #[trigger] shown(all, i),
            decreases n - k,
        {
            let ghost before = found_view(out@);
            let mut name = found[k].0.clone();
            let path = found[k].1.clone();
            assert(all[k as int] == (found@[k as int].0@, found@[k as int].1@));
            if has_namesake(&found, k) {
                if let Some(dir) = parent(path.as_str()) {
                    name.append("  —  ");
                    name.append(dir.as_str());
                }
            }
            out.push((name, path));
            assert(found_view(out@) =~= before.push(shown(all, k as int)));
            k += 1;
        }
        assert(found_view(out@) =~= Seq::new(all.len(), |i: int| shown(all, i)));
        PluginBrowser { found: out, searched, error: None }
    }

    /// Look again, keeping what is on screen otherwise.
    pub fn rescan(&mut self, searched: Vec<String>, entries: &Vec<String>)
        ensures
            final(self).searched == searched,
            final(self).error == old(self).error,
            found_view(final(self).found@) == listed(entries@.map_values(|p: String| p@)),
    {
        let fresh = PluginBrowser::scan(searched, entries);
        self.found = fresh.found;
        self.searched = fresh.searched;
    }
}

/// Whether plugins stand in order.
pub open spec fn in_name_order(s: Seq<Found>) -> bool {
    forall|i: int, j: int| 0 <= i <= j < s.len() ==> leads(#[trigger] s[i], #[trigger] s[j])
}

proof fn lemma_slot_order(s: Seq<Found>, x: Found)
    requires
        in_name_order(s),
    ensures
        0 <= slot(s, x) <= s.len(),
        forall|i: int| 0 <= i < slot(s, x) ==> leads(#[trigger] s[i], x),
        forall|i: int| slot(s, x) <= i < s.len() ==> leads(x, #[trigger] s[i]),
    decreases s.len(),
{
    if s.len() > 0 {
        let key = lowercase(x.0);
        if leads(s.last(), x) {
            assert forall|i: int| 0 <= i < s.len() implies leads(#[trigger] s[i], x) by {
                assert(leads(s[i], s[s.len() - 1]));
                lemma_text_le(lowercase(s[i].0), lowercase(s.last().0), key);
            }
        } else {
            let front = s.drop_last();
            assert forall|i: int, j: int| 0 <= i <= j < front.len() implies leads(
                #[trigger] front[i],
                #[trigger] front[j],
            ) by {
                assert(front[i] == s[i] && front[j] == s[j]);
            }
            lemma_slot_order(front, x);
            lemma_text_le(lowercase(s.last().0), key, key);
            assert forall|i: int| 0 <= i < slot(s, x) implies leads(#[trigger] s[i], x) by {
                assert(front[i] == s[i]);
            }
            assert forall|i: int| slot(s, x) <= i < s.len() implies leads(x, #[trigger] s[i]) by {
                if i < front.len() {
                    assert(front[i] == s[i]);
                }
            }
        }
    }
}

/// The plugins are listed by name, whatever the case, and none is lost or made
/// up by that.
pub proof fn law_plugins_are_listed_by_name(s: Seq<Found>)
    ensures
        in_name_order(by_name(s)),
        by_name(s).to_multiset() == s.to_multiset(),
    decreases s.len(),
{
    broadcast use vstd::seq_lib::group_to_multiset_ensures;

    if s.len() > 0 {
        let front = by_name(s.drop_last());
        let x = s.last();
        law_plugins_are_listed_by_name(s.drop_last());
        lemma_slot_order(front, x);
        let p = slot(front, x);
        let t = front.insert(p, x);
        vstd::seq_lib::to_multiset_insert(front, p, x);
        assert(s =~= s.drop_last().push(x));
        assert forall|i: int, j: int| 0 <= i <= j < t.len() implies leads(
            #[trigger] t[i],
            #[trigger] t[j],
        ) by {
            if i == j {
                lemma_text_le(lowercase(t[i].0), lowercase(t[i].0), lowercase(t[i].0));
            }
            let a = if i < p {
                i
            } else {
                i - 1
            };
            let b = if j < p {
                j
            } else {
                j - 1
            };
            if i != p {
                assert(t[i] == front[a]);
            }
            if j != p {
                assert(t[j] == front[b]);
            }
            if i != p && j != p {
                assert(leads(front[a], front[b]));
            }
        }
    } else {
        assert(by_name(s) =~= s);
    }
}

/// Two plugins of one name in different folders do not read the same.
pub proof fn law_namesakes_are_told_apart(s: Seq<Found>, i: int, j: int)
    requires
        0 <= i < s.len(),
        0 <= j < s.len(),
        i != j,
        s[i].0 == s[j].0,
        folder_of(s[i].1) is Some,
        folder_of(s[j].1) is Some,
        folder_of(s[i].1) != folder_of(s[j].1),
    ensures
        shown(s, i).0 != shown(s, j).0,
{
    assert(shares_name(s, i));
    assert(shares_name(s, j));
    let front = s[i].0 + "  —  "@;
    let a = folder_of(s[i].1)->0;
    let b = folder_of(s[j].1)->0;
    if front + a == front + b {
        assert((front + a).skip(front.len() as int) =~= a);
        assert((front + b).skip(front.len() as int) =~= b);
    }
}

/// The kinds of systems that have folders of their own for plugins.
#[derive(Clone, Copy, PartialEq, Eq, Debug, Structural)]
pub enum System {
    Linux,
    Windows,
    MacOs,
    Other,
}

/// The folders a system itself installs plugins into. `common` is where Windows
/// keeps the files that programs share.
pub open spec fn installed_into(
    system: System,
    home: Option<Seq<char>>,
    common: Option<Seq<char>>,
) -> Seq<Seq<char>> {
    match system {
        System::Linux => seq!["/usr/lib/vst3"@, "/usr/local/lib/vst3"@, "/usr/lib64/vst3"@],
        System::Windows => match common {
            Some(c) => seq![crate::path::joined(c, "VST3"@)],
            None => Seq::empty(),
        },
        System::MacOs => (match home {
            Some(h) => seq![crate::path::joined(h, "Library/Audio/Plug-Ins/VST3"@)],
            None => Seq::empty(),
        }).push("/Library/Audio/Plug-Ins/VST3"@),
        System::Other => Seq::empty(),
    }
}

/// The folders plugins are looked for in, most specific first, before those that
/// are not there are left out.
pub open spec fn candidates(
    extra: Seq<Seq<char>>,
    home: Option<Seq<char>>,
    system: Seq<Seq<char>>,
) -> Seq<Seq<char>> {
    (match home {
        Some(h) => extra.push(crate::path::joined(h, ".vst3"@)),
        None => extra,
    }) + system
}

/// The folders that are there, without repeats of the one before.
pub open spec fn existing(s: Seq<Seq<char>>, there: Seq<bool>) -> Seq<Seq<char>>
    decreases s.len(),
{
    if s.len() == 0 {
        Seq::empty()
    } else {
        let front = existing(s.drop_last(), there);
        if !there[s.len() - 1] || (front.len() > 0 && same_path(front.last(), s.last())) {
            front
        } else {
            front.push(s.last())
        }
    }
}

/// What an optional text says.
pub open spec fn str_view(s: Option<&str>) -> Option<Seq<char>> {
    match s {
        Some(t) => Some(t@),
        None => None,
    }
}

fn copy_texts(v: &Vec<String>) -> (r: Vec<String>)
    ensures
        r@.map_values(|p: String| p@) == v@.map_values(|p: String| p@),
{
    let mut out: Vec<String> = Vec::new();
    let mut i: usize = 0;
    while i < v.len()
        invariant
            i <= v.len(),
            out@.len() == i,
            forall|k: int| 0 <= k < i ==> (#[trigger] out@[k])@ == v@[k]@,
        decreases v.len() - i,
    {
        out.push(v[i].clone());
        i += 1;
    }
    assert(out@.map_values(|p: String| p@) =~= v@.map_values(|p: String| p@));
    out
}

fn push_text(v: &mut Vec<String>, s: String)
    ensures
        final(v)@.map_values(|p: String| p@) == old(v)@.map_values(|p: String| p@).push(s@),
{
    v.push(s);
    assert(v@.map_values(|p: String| p@) =~= old(v)@.map_values(|p: String| p@).push(s@));
}

/// The folders a system itself installs plugins into.
pub fn system_folders(system: System, home: Option<&str>, common: Option<&str>) -> (r: Vec<String>)
    ensures
        r@.map_values(|p: String| p@) == installed_into(system, str_view(home), str_view(common)),
{
    let mut out: Vec<String> = Vec::new();
    assert(out@.map_values(|p: String| p@) =~= Seq::empty());
    match system {
        System::Linux => {
            push_text(&mut out, "/usr/lib/vst3".to_owned());
            push_text(&mut out, "/usr/local/lib/vst3".to_owned());
            push_text(&mut out, "/usr/lib64/vst3".to_owned());
        },
        System::Windows => {
            if let Some(c) = common {
                push_text(&mut out, crate::path::join(c, "VST3"));
            }
        },
        System::MacOs => {
            if let Some(h) = home {
                push_text(&mut out, crate::path::join(h, "Library/Audio/Plug-Ins/VST3"));
            }
            push_text(&mut out, "/Library/Audio/Plug-Ins/VST3".to_owned());
        },
        System::Other => {},
    }
    assert(out@.map_values(|p: String| p@) =~= installed_into(
        system,
        str_view(home),
        str_view(common),
    ));
    out
}

/// The folders to look for plugins in: those the environment adds, the user's
/// own, and the system's.
pub fn vst3_candidates(extra: &Vec<String>, home: Option<&str>, system: &Vec<String>) -> (r: Vec<
    String,
>)
    ensures
        r@.map_values(|p: String| p@) == candidates(
            extra@.map_values(|p: String| p@),
            str_view(home),
            system@.map_values(|p: String| p@),
        ),
{
    let mut out = copy_texts(extra);
    if let Some(h) = home {
        push_text(&mut out, crate::path::join(h, ".vst3"));
    }
    let ghost own = out@.map_values(|p: String| p@);
    let mut tail = copy_texts(system);
    let ghost last = tail@.map_values(|p: String| p@);
    out.append(&mut tail);
    assert(out@.map_values(|p: String| p@) =~= own + last);
    out
}

/// The plugin folders that are there, each once where the same one follows
/// itself.
pub fn vst3_search_paths(dirs: &Vec<String>, there: &Vec<bool>) -> (r: Vec<String>)
    requires
        dirs@.len() == there@.len(),
    ensures
        r@.map_values(|p: String| p@) == existing(dirs@.map_values(|p: String| p@), there@),
{
    let ghost all = dirs@.map_values(|p: String| p@);
    let mut out: Vec<String> = Vec::new();
    let n: usize = dirs.len();
    let mut k: usize = 0;
    proof {
        assert(all.take(0).len() == 0);
        assert(out@.map_values(|p: String| p@) =~= existing(all.take(0), there@));
    }
    while k < n
        invariant
            k <= n,
            n == dirs@.len(),
            n == there@.len(),
            all == dirs@.map_values(|p: String| p@),
            out@.map_values(|p: String| p@) == existing(all.take(k as int), there@),
        decreases n - k,
    {
        let ghost before = out@.map_values(|p: String| p@);
        proof {
            let part = all.take(k + 1);
            assert(part.drop_last() =~= all.take(k as int));
            assert(part.last() == dirs@[k as int]@);
        }
        let len: usize = out.len();
        let repeat = len > 0 && is_same_path(out[len - 1].as_str(), dirs[k].as_str());
        proof {
            if len > 0 {
                assert(before.last() == out@[len - 1]@);
            }
        }
        if there[k] && !repeat {
            push_text(&mut out, dirs[k].clone());
        }
        k += 1;
    }
    assert(all.take(n as int) =~= all);
    out
}

/// What is found are the paths that end in ".vst3", however it is spelled, each with
/// its name, in order.
pub proof fn law_every_bundle_is_found(paths: Seq<Seq<char>>)
    ensures
        bundles(paths) == paths.filter(
            |p: Seq<char>| extension_of(p) matches Some(e) && ascii_lower(e) == "vst3"@,
        ).map_values(|p: Seq<char>| named(p)),
    decreases paths.len(),
{
    reveal(Seq::filter);
    let f = |p: Seq<char>| extension_of(p) matches Some(e) && ascii_lower(e) == "vst3"@;
    let g = |p: Seq<char>| named(p);
    if paths.len() > 0 {
        let init = paths.drop_last();
        law_every_bundle_is_found(init);
        if f(paths.last()) {
            assert(init.filter(f).push(paths.last()).map_values(g) =~= init.filter(f).map_values(
                g,
            ).push(named(paths.last())));
        }
    } else {
        assert(bundles(paths) =~= paths.filter(f).map_values(g));
    }
}

/// A bundle is called by the stem of its path, or by all of the path, and keeps the
/// path.
pub proof fn law_how_a_bundle_is_named(p: Seq<char>)
    ensures
        named(p).1 == p,
        stem_of(p) is Some ==> named(p).0 == stem_of(p)->0,
        stem_of(p) is None ==> named(p).0 == p,
{
}

/// Dropping repeats keeps one of every path and leaves no two neighbours of one
/// path; what is kept was there.
pub proof fn law_one_of_every_path_is_kept(s: Seq<Found>)
    ensures
        forall|i: int| 0 <= i < deduped(s).len() ==> s.contains(#[trigger] deduped(s)[i]),
        forall|i: int|
            0 < i < deduped(s).len() ==> !same_path(
                deduped(s)[i - 1].1,
                (#[trigger] deduped(s)[i]).1,
            ),
        forall|i: int|
            0 <= i < s.len() ==> exists|j: int|
                0 <= j < deduped(s).len() && same_path(
                    (#[trigger] deduped(s)[j]).1,
                    (#[trigger] s[i]).1,
                ),
    decreases s.len(),
{
    if s.len() > 0 {
        let init = s.drop_last();
        law_one_of_every_path_is_kept(init);
        let front = deduped(init);
        let all = deduped(s);
        assert forall|i: int| 0 <= i < all.len() implies s.contains(#[trigger] all[i]) by {
            if i < front.len() {
                assert(all[i] == front[i]);
                assert(init.contains(front[i]));
                let k = choose|k: int| 0 <= k < init.len() && init[k] == front[i];
                assert(s[k] == all[i]);
            } else {
                assert(s[s.len() - 1] == all[i]);
            }
        }
        assert forall|i: int| 0 < i < all.len() implies !same_path(
            all[i - 1].1,
            (#[trigger] all[i]).1,
        ) by {
            if i < front.len() {
                assert(all[i] == front[i] && all[i - 1] == front[i - 1]);
            }
        }
        assert forall|i: int| 0 <= i < s.len() implies exists|j: int|
            0 <= j < all.len() && same_path((#[trigger] all[j]).1, (#[trigger] s[i]).1) by {
            if i < init.len() {
                assert(init[i] == s[i]);
                let j = choose|j: int|
                    0 <= j < front.len() && same_path(
                        (#[trigger] front[j]).1,
                        (#[trigger] init[i]).1,
                    );
                assert(all[j] == front[j]);
            } else {
                assert(same_path(all[all.len() - 1].1, s[i].1));
            }
        }
    }
}

/// A plugin whose name no other has is shown by it alone; one that shares its name is
/// shown with its folder. Either keeps its path.
pub proof fn law_how_a_plugin_is_shown(s: Seq<Found>, i: int)
    requires
        0 <= i < s.len(),
    ensures
        shown(s, i).1 == s[i].1,
        (forall|j: int| 0 <= j < s.len() && j != i ==> (#[trigger] s[j]).0 != s[i].0) ==> shown(
            s,
            i,
        ).0 == s[i].0,
        folder_of(s[i].1) is Some && (exists|j: int|
            0 <= j < s.len() && j != i && (#[trigger] s[j]).0 == s[i].0) ==> shown(s, i).0 == s[i].0
            + "  —  "@ + folder_of(s[i].1)->0,
{
}

/// What is listed are the bundles, by name, each path once.
pub proof fn law_what_is_listed(paths: Seq<Seq<char>>)
    ensures
        ({
            let s = deduped(by_name(bundles(paths)));
            &&& listed(paths).len() == s.len()
            &&& forall|i: int|
                0 <= i < s.len() ==> (#[trigger] listed(paths)[i]).1 == s[i].1 && listed(paths)[i]
                    == shown(s, i)
        }),
{
}

/// The folders that are searched are those that are there, in order, and no two
/// neighbours are one folder.
pub proof fn law_folders_that_are_there_are_searched(s: Seq<Seq<char>>, there: Seq<bool>)
    requires
        s.len() <= there.len(),
    ensures
        forall|i: int|
            0 <= i < existing(s, there).len() ==> exists|k: int|
                0 <= k < s.len() && there[k] && #[trigger] s[k] == #[trigger] existing(s, there)[i],
        forall|i: int|
            0 < i < existing(s, there).len() ==> !same_path(
                existing(s, there)[i - 1],
                #[trigger] existing(s, there)[i],
            ),
        forall|k: int|
            0 <= k < s.len() && there[k] ==> exists|i: int|
                0 <= i < existing(s, there).len() && same_path(
                    #[trigger] existing(s, there)[i],
                    #[trigger] s[k],
                ),
    decreases s.len(),
{
    if s.len() > 0 {
        let init = s.drop_last();
        law_folders_that_are_there_are_searched(init, there);
        let front = existing(init, there);
        let all = existing(s, there);
        assert forall|i: int| 0 <= i < all.len() implies exists|k: int|
            0 <= k < s.len() && there[k] && #[trigger] s[k] == #[trigger] all[i] by {
            if i < front.len() {
                assert(all[i] == front[i]);
                let k = choose|k: int|
                    0 <= k < init.len() && there[k] && #[trigger] init[k] == front[i];
                assert(s[k] == all[i]);
            } else {
                assert(s[s.len() - 1] == all[i]);
            }
        }
        assert forall|i: int| 0 < i < all.len() implies !same_path(
            all[i - 1],
            #[trigger] all[i],
        ) by {
            if i < front.len() {
                assert(all[i] == front[i] && all[i - 1] == front[i - 1]);
            }
        }
        assert forall|k: int| 0 <= k < s.len() && there[k] implies exists|i: int|
            0 <= i < all.len() && same_path(#[trigger] all[i], #[trigger] s[k]) by {
            if k < init.len() {
                assert(init[k] == s[k]);
                let i = choose|i: int|
                    0 <= i < front.len() && same_path(#[trigger] front[i], init[k]);
                assert(all[i] == front[i]);
            } else {
                assert(same_path(all[all.len() - 1], s[k]));
            }
        }
    }
}

/// The user's folders are searched first, then the home's own, then the system's.
pub proof fn law_the_order_of_the_folders(
    extra: Seq<Seq<char>>,
    home: Option<Seq<char>>,
    system: Seq<Seq<char>>,
)
    ensures
        home is None ==> candidates(extra, home, system) == extra + system,
        home is Some ==> candidates(extra, home, system) == extra + seq![
            crate::path::joined(home->0, ".vst3"@),
        ] + system,
{
    if home is Some {
        assert(candidates(extra, home, system) =~= extra + seq![
            crate::path::joined(home->0, ".vst3"@),
        ] + system);
    }
}

/// Where plugins are installed: three folders on Linux, one below the common files on
/// Windows, and on the Mac the user's own and the system's.
pub proof fn law_where_plugins_are_installed(home: Option<Seq<char>>, common: Option<Seq<char>>)
    ensures
        installed_into(System::Linux, home, common) == seq![
            "/usr/lib/vst3"@,
            "/usr/local/lib/vst3"@,
            "/usr/lib64/vst3"@,
        ],
        common is Some ==> installed_into(System::Windows, home, common) == seq![
            crate::path::joined(common->0, "VST3"@),
        ],
        common is None ==> installed_into(System::Windows, home, common).len() == 0,
        home is Some ==> installed_into(System::MacOs, home, common) == seq![
            crate::path::joined(home->0, "Library/Audio/Plug-Ins/VST3"@),
            "/Library/Audio/Plug-Ins/VST3"@,
        ],
        home is None ==> installed_into(System::MacOs, home, common) == seq![
            "/Library/Audio/Plug-Ins/VST3"@,
        ],
        installed_into(System::Other, home, common).len() == 0,
{
    if home is Some {
        assert(installed_into(System::MacOs, home, common) =~= seq![
            crate::path::joined(home->0, "Library/Audio/Plug-Ins/VST3"@),
            "/Library/Audio/Plug-Ins/VST3"@,
        ]);
    } else {
        assert(installed_into(System::MacOs, home, common) =~= seq![
            "/Library/Audio/Plug-Ins/VST3"@,
        ]);
    }
}

/// What is seen of what was found is what it is, one by one.
pub proof fn law_what_is_seen_of_what_was_found(s: Seq<(String, String)>, i: int)
    requires
        0 <= i < s.len(),
    ensures
        found_view(s).len() == s.len(),
        found_view(s)[i] == (s[i].0@, s[i].1@),
{
}

} // verus!
