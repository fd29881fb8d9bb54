//! The resynthesis panel: audio files, the subtracks they fall into, and the
//! editors opened on them.

use vstd::prelude::*;

use crate::analysis::segmentation::Subtrack;
use crate::composer::project::text_view;
use crate::path::{folder_of, parent};
use crate::text::{chars_of, decimal, part, push_decimal, string_of, trim, trim_chars};
use crate::tracks::panel::OpenEditor;

verus! {

/// A subtrack and what is open on it.
#[derive(Debug)]
pub struct SubtrackView {
    pub sub: Subtrack,
    /// It is worth analysing.
    pub reasonable: bool,
    /// Its preview has been computed.
    pub previewed: bool,
    /// Its editor while the window is open.
    pub editor: Option<OpenEditor>,
}

/// One opened audio file.
#[derive(Debug)]
pub struct AudioFile {
    /// Stable, so that a file keeps its identity when those above it go.
    pub id: u64,
    pub file_path: String,
    pub status: String,
    /// How many samples were decoded; none where the file could not be.
    pub decoded: Option<usize>,
    pub subtracks: Vec<SubtrackView>,
}

/// What a file was decoded into.
#[derive(Debug)]
pub struct Decoded {
    pub samples: usize,
    /// How long it runs in seconds, and its rate, as they read.
    pub secs: String,
    pub rate: String,
    /// Its subtracks, and whether each is worth analysing.
    pub subs: Vec<(Subtrack, bool)>,
}

/// The panel.
#[derive(Debug)]
pub struct ResynthPanel {
    pub files: Vec<AudioFile>,
    pub next_id: u64,
    pub status: String,
}

/// Something to be done with a subtrack.
#[derive(Clone, Copy, PartialEq, Eq, Debug, Structural)]
pub enum SubtrackAction {
    Preview,
    Open,
    Close,
    Export,
}

/// The text behind the last separator of either kind.
pub open spec fn behind_separator(p: Seq<char>) -> Seq<char>
    decreases p.len(),
{
    if p.len() == 0 || p.last() == '/' || p.last() == '\\' {
        Seq::empty()
    } else {
        behind_separator(p.drop_last()).push(p.last())
    }
}

/// What a file is called in a header: its name, or its path where it ends in a
/// separator.
pub open spec fn header_name(path: Seq<char>) -> Seq<char> {
    let p = trim(path);
    let n = behind_separator(p);
    if n.len() == 0 {
        p
    } else {
        n
    }
}

/// How many of the first `n` subtracks are worth analysing.
pub open spec fn reasonable_count(s: Seq<(Subtrack, bool)>, n: int) -> int
    decreases n,
{
    if n <= 0 {
        0
    } else {
        reasonable_count(s, n - 1) + if s[n - 1].1 {
            1int
        } else {
            0
        }
    }
}

/// What is said of a decoded file.
pub open spec fn decoded_text(d: Decoded) -> Seq<char> {
    "Decoded "@ + d.secs@ + "s @ "@ + d.rate@ + " Hz → "@ + decimal(d.subs@.len())
        + " subtrack(s), "@ + decimal(
        reasonable_count(d.subs@, d.subs@.len() as int) as nat,
    ) + " reasonable to analyse."@
}

/// How many of the first `n` subtracks have their editor open.
pub open spec fn open_count(s: Seq<SubtrackView>, n: int) -> int
    decreases n,
{
    if n <= 0 {
        0
    } else {
        open_count(s, n - 1) + if s[n - 1].editor is Some {
            1int
        } else {
            0
        }
    }
}

/// Subtracks as they come from the decoder: nothing is open on them.
pub open spec fn fresh_subs(s: Seq<SubtrackView>, from: Seq<(Subtrack, bool)>) -> bool {
    &&& s.len() == from.len()
    &&& forall|i: int|
        0 <= i < s.len() ==> (#[trigger] s[i]).sub == from[i].0 && s[i].reasonable == from[i].1
            && !s[i].previewed && s[i].editor is None
}

impl AudioFile {
    /// A file that has been decoded and segmented, or could not be.
    pub fn new(id: u64, path: &str, outcome: Result<Decoded, String>) -> (r: AudioFile)
        ensures
            r.id == id,
            r.file_path@ == path@,
            match outcome {
                Ok(d) => {
                    &&& r.decoded == Some(d.samples)
                    &&& r.status@ == decoded_text(d)
                    &&& fresh_subs(r.subtracks@, d.subs@)
                },
                Err(why) => {
                    &&& r.decoded is None
                    &&& r.status@ == "Decode failed: "@ + why@
                    &&& r.subtracks@.len() == 0
                },
            },
    {
        match outcome {
            Ok(d) => {
                let ghost d0 = d;
                let mut subtracks: Vec<SubtrackView> = Vec::new();
                let mut left = d.subs;
                let ghost all = left@;
                let n: usize = left.len();
                let mut good: usize = 0;
                let mut k: usize = 0;
                while k < n
                    invariant
                        k <= n,
                        n == all.len(),
                        left@ == all.skip(k as int),
                        good == reasonable_count(all, k as int),
                        good <= k,
                        subtracks@.len() == k,
                        forall|i: int|
                            0 <= i < k ==> (#[trigger] subtracks@[i]).sub == all[i].0
                                && subtracks@[i].reasonable == all[i].1
                                && !subtracks@[i].previewed && subtracks@[i].editor is None,
                    decreases n - k,
                {
                    let (sub, reasonable) = left.remove(0);
                    assert(left@ =~= all.skip(k + 1));
                    if reasonable {
                        good = good + 1;
                    }
                    subtracks.push(
                        SubtrackView { sub, reasonable, previewed: false, editor: None },
                    );
                    k += 1;
                }
                let mut status = "Decoded ".to_owned();
                status.append(d.secs.as_str());
                status.append("s @ ");
                status.append(d.rate.as_str());
                status.append(" Hz → ");
                push_decimal(&mut status, n as u64);
                status.append(" subtrack(s), ");
                push_decimal(&mut status, good as u64);
                status.append(" reasonable to analyse.");
                AudioFile {
                    id,
                    file_path: path.to_owned(),
                    status,
                    decoded: Some(d.samples),
                    subtracks,
                }
            },
            Err(why) => {
                let mut status = "Decode failed: ".to_owned();
                status.append(why.as_str());
                AudioFile {
                    id,
                    file_path: path.to_owned(),
                    status,
                    decoded: None,
                    subtracks: Vec::new(),
                }
            },
        }
    }

    /// How many of its subtracks have their editor open.
    pub fn open_editor_count(&self) -> (r: usize)
        ensures
            r == open_count(self.subtracks@, self.subtracks@.len() as int),
    {
        let n: usize = self.subtracks.len();
        let mut count: usize = 0;
        let mut k: usize = 0;
        while k < n
            invariant
                k <= n,
                n == self.subtracks@.len(),
                count == open_count(self.subtracks@, k as int),
                count <= k,
            decreases n - k,
        {
            if self.subtracks[k].editor.is_some() {
                count = count + 1;
            }
            k += 1;
        }
        count
    }

    /// What it is called in its header.
    pub fn display_name(&self) -> (r: String)
        ensures
            r@ == header_name(self.file_path@),
    {
        let v = trim_chars(&chars_of(self.file_path.as_str()));
        let mut i: usize = v.len();
        let n: usize = v.len();
        let ghost p = v@;
        assert(p.take(n as int) =~= p);
        assert(behind_separator(p) =~= behind_separator(p.take(i as int)) + p.subrange(
            i as int,
            n as int,
        ));
        while i > 0 && v[i - 1] != '/' && v[i - 1] != '\\'
            invariant
                i <= n,
                n == v@.len(),
                p == v@,
                behind_separator(p) == behind_separator(p.take(i as int)) + p.subrange(
                    i as int,
                    n as int,
                ),
            decreases i,
        {
            proof {
                let t = p.take(i as int);
                assert(t.last() == p[i - 1]);
                assert(t.drop_last() =~= p.take(i - 1));
                assert(behind_separator(t) == behind_separator(p.take(i - 1)).push(p[i - 1]));
                assert(behind_separator(p.take(i - 1)).push(p[i - 1]) + p.subrange(
                    i as int,
                    n as int,
                ) =~= behind_separator(p.take(i - 1)) + p.subrange(i - 1, n as int));
            }
            i -= 1;
        }
        proof {
            if i > 0 {
                assert(p.take(i as int).last() == p[i - 1]);
            }
            assert(behind_separator(p.take(i as int)) =~= Seq::empty());
            assert(behind_separator(p) =~= p.subrange(i as int, n as int));
        }
        if i == n {
            string_of(&v)
        } else {
            string_of(&part(&v, i, n))
        }
    }

    /// The samples of a subtrack, from and to, where the file was decoded.
    pub fn analysis_range(&self, k: usize) -> (r: Option<(usize, usize)>)
        ensures
            r == (match self.decoded {
                Some(len) if k < self.subtracks@.len() => Some(
                    (
                        self.subtracks@[k as int].sub.start,
                        if self.subtracks@[k as int].sub.end <= len {
                            self.subtracks@[k as int].sub.end
                        } else {
                            len
                        },
                    ),
                ),
                _ => None,
            }),
    {
        match self.decoded {
            Some(len) => {
                if k < self.subtracks.len() {
                    let end: usize = self.subtracks[k].sub.end;
                    Some(
                        (
                            self.subtracks[k].sub.start,
                            if end <= len {
                                end
                            } else {
                                len
                            },
                        ),
                    )
                } else {
                    None
                }
            },
            None => None,
        }
    }
}

/// A subtrack without its editor where its window has gone.
pub open spec fn reaped(v: SubtrackView, gone: bool) -> SubtrackView {
    if gone {
        SubtrackView { editor: None, ..v }
    } else {
        v
    }
}

/// What a subtrack's card offers.
#[derive(Clone, Copy, PartialEq, Eq, Debug, Structural)]
pub struct CardOffer {
    pub preview: bool,
    pub open: bool,
    pub close: bool,
    pub export: bool,
}

/// What a subtrack's card offers: nothing where it is not pitched enough; to
/// close and to export where its editor is open, which is why there is never a
/// second one.
pub fn card_offer(v: &SubtrackView) -> (r: CardOffer)
    ensures
        r.preview == v.reasonable,
        r.open == (v.reasonable && v.editor is None),
        r.close == (v.reasonable && v.editor is Some),
        r.export == (v.reasonable && v.editor is Some),
{
    let open = v.editor.is_some();
    CardOffer {
        preview: v.reasonable,
        open: v.reasonable && !open,
        close: v.reasonable && open,
        export: v.reasonable && open,
    }
}

impl ResynthPanel {
    /// The same panel but for its status line.
    pub open spec fn same_but_status(&self, other: &ResynthPanel) -> bool {
        self.files == other.files && self.next_id == other.next_id
    }

    /// A panel without files.
    pub fn new() -> (r: ResynthPanel)
        ensures
            r.files@.len() == 0,
            r.next_id == 0,
            r.status@ == "Add a .wav, .mp3 or .m4a file to begin."@,
    {
        ResynthPanel {
            files: Vec::new(),
            next_id: 0,
            status: "Add a .wav, .mp3 or .m4a file to begin.".to_owned(),
        }
    }

    /// The folder the file picker starts from: that of the file added last.
    pub fn picker_folder(&self) -> (r: Option<String>)
        ensures
            text_view(r) == (if self.files@.len() == 0 {
                None
            } else {
                folder_of(trim(self.files@.last().file_path@))
            }),
    {
        let n: usize = self.files.len();
        if n == 0 {
            return None;
        }
        let p = string_of(&trim_chars(&chars_of(self.files[n - 1].file_path.as_str())));
        parent(p.as_str())
    }

    /// Add a file that has been picked, decoded or not.
    pub fn add_audio_file(&mut self, path: &str, outcome: Result<Decoded, String>)
        requires
            old(self).next_id < u64::MAX,
        ensures
            final(self).next_id == old(self).next_id + 1,
            final(self).files@.len() == old(self).files@.len() + 1,
            forall|i: int|
                0 <= i < old(self).files@.len() ==> final(self).files@[i] == old(self).files@[i],
            final(self).status@ == final(self).files@.last().status@,
            ({
                let f = final(self).files@.last();
                &&& f.id == old(self).next_id
                &&& f.file_path@ == path@
                &&& match outcome {
                    Ok(d) => f.decoded == Some(d.samples) && f.status@ == decoded_text(d)
                        && fresh_subs(f.subtracks@, d.subs@),
                    Err(why) => f.decoded is None && f.status@ == "Decode failed: "@ + why@
                        && f.subtracks@.len() == 0,
                }
            }),
    {
        let id: u64 = self.next_id;
        self.next_id = id + 1;
        let file = AudioFile::new(id, path, outcome);
        self.status = file.status.clone();
        self.files.push(file);
    }

    /// Whether a file and a subtrack of it are there.
    pub open spec fn has(&self, f: usize, k: usize) -> bool {
        f < self.files@.len() && k < self.files@[f as int].subtracks@.len()
    }

    /// Whether opening a subtrack would open anything: not where its editor is
    /// open already, and not where there is nothing to analyse.
    pub fn opens(&self, f: usize, k: usize) -> (r: bool)
        ensures
            r == (self.has(f, k) && self.files@[f as int].subtracks@[k as int].editor is None
                && self.files@[f as int].decoded is Some),
    {
        f < self.files.len() && k < self.files[f].subtracks.len()
            && self.files[f].subtracks[k].editor.is_none() && self.files[f].decoded.is_some()
    }

    /// An editor has opened on a subtrack, or has not.
    pub fn editor_opened(&mut self, f: usize, k: usize, outcome: Result<OpenEditor, String>)
        requires
            old(self).has(f, k),
        ensures
            final(self).next_id == old(self).next_id,
            final(self).files@.len() == old(self).files@.len(),
            forall|i: int|
                0 <= i < old(self).files@.len() && i != f ==> final(self).files@[i]
                    == old(self).files@[i],
            match outcome {
                Ok(o) => {
                    let a = old(self).files@[f as int];
                    let b = final(self).files@[f as int];
                    &&& b.subtracks@ == a.subtracks@.update(
                        k as int,
                        SubtrackView { editor: Some(o), ..a.subtracks@[k as int] },
                    )
                    &&& b == (AudioFile { subtracks: b.subtracks, ..a })
                    &&& final(self).status@ == "Opened subtrack "@ + decimal((k + 1) as nat) + (
                    if o.audible {
                        " in LeSynth (Analysis mode)."@
                    } else {
                        " in LeSynth (Analysis mode) — audio output unavailable."@
                    })
                },
                Err(why) => final(self).files == old(self).files && final(self).status@
                    == "Editor failed: "@ + why@,
            },
    {
        let count: usize = self.files[f].subtracks.len();
        assert(k < count);
        match outcome {
            Ok(o) => {
                let ghost a = self.files@[f as int];
                self.files[f].subtracks[k].editor = Some(o);
                proof {
                    let b = self.files@[f as int];
                    assert(b.subtracks@ =~= a.subtracks@.update(
                        k as int,
                        SubtrackView { editor: Some(o), ..a.subtracks@[k as int] },
                    ));
                }
                let mut out = "Opened subtrack ".to_owned();
                push_decimal(&mut out, k as u64 + 1);
                if o.audible {
                    out.append(" in LeSynth (Analysis mode).");
                } else {
                    out.append(" in LeSynth (Analysis mode) — audio output unavailable.");
                }
                self.status = out;
            },
            Err(why) => {
                let mut out = "Editor failed: ".to_owned();
                out.append(why.as_str());
                self.status = out;
            },
        }
    }

    /// Say what went wrong.
    pub fn failed(&mut self, what: Failure, why: &str)
        ensures
            final(self).same_but_status(old(self)),
            final(self).status@ == failure_text(what, why@),
    {
        let mut out = match what {
            Failure::AnalysisPlugin => "Could not load internal plugin for analysis: ".to_owned(),
            Failure::Analyse => "Analyze failed: ".to_owned(),
            Failure::NoPlugin => {
                self.status = "Could not locate internal plugin.".to_owned();
                return ;
            },
            Failure::PluginLoad => "Plugin load failed: ".to_owned(),
            Failure::PushAnalysis => "Push analysis failed: ".to_owned(),
            Failure::Export => "Export failed: ".to_owned(),
        };
        out.append(why);
        self.status = out;
    }

    /// A preview has been computed.
    pub fn previewed(&mut self, f: usize, k: usize)
        requires
            old(self).has(f, k),
        ensures
            final(self).next_id == old(self).next_id,
            final(self).status == old(self).status,
            final(self).files@.len() == old(self).files@.len(),
            forall|i: int|
                0 <= i < old(self).files@.len() && i != f ==> final(self).files@[i]
                    == old(self).files@[i],
            ({
                let a = old(self).files@[f as int];
                let b = final(self).files@[f as int];
                &&& b.subtracks@ == a.subtracks@.update(
                    k as int,
                    SubtrackView { previewed: true, ..a.subtracks@[k as int] },
                )
                &&& b == (AudioFile { subtracks: b.subtracks, ..a })
            }),
    {
        let ghost a = self.files@[f as int];
        self.files[f].subtracks[k].previewed = true;
        proof {
            let b = self.files@[f as int];
            assert(b.subtracks@ =~= a.subtracks@.update(
                k as int,
                SubtrackView { previewed: true, ..a.subtracks@[k as int] },
            ));
        }
    }

    /// Close the editor of a subtrack.
    pub fn close_editor(&mut self, f: usize, k: usize)
        ensures
            final(self).next_id == old(self).next_id,
            final(self).status == old(self).status,
            !old(self).has(f, k) ==> *final(self) == *old(self),
            old(self).has(f, k) ==> {
                let a = old(self).files@[f as int];
                let b = final(self).files@[f as int];
                &&& final(self).files@.len() == old(self).files@.len()
                &&& forall|i: int|
                    0 <= i < old(self).files@.len() && i != f ==> final(self).files@[i]
                        == old(self).files@[i]
                &&& b.subtracks@ == a.subtracks@.update(
                    k as int,
                    SubtrackView { editor: None, ..a.subtracks@[k as int] },
                )
                &&& b == (AudioFile { subtracks: b.subtracks, ..a })
            },
    {
        if f < self.files.len() && k < self.files[f].subtracks.len() {
            let ghost a = self.files@[f as int];
            self.files[f].subtracks[k].editor = None;
            proof {
                let b = self.files@[f as int];
                assert(b.subtracks@ =~= a.subtracks@.update(
                    k as int,
                    SubtrackView { editor: None, ..a.subtracks@[k as int] },
                ));
            }
        }
    }

    /// Drop the editors of a file whose windows are gone, or all of them. `gone`
    /// says which.
    pub fn reap_editors(&mut self, f: usize, gone: &Vec<bool>)
        requires
            f < old(self).files@.len(),
            gone@.len() == old(self).files@[f as int].subtracks@.len(),
        ensures
            final(self).next_id == old(self).next_id,
            final(self).status == old(self).status,
            final(self).files@.len() == old(self).files@.len(),
            forall|i: int|
                0 <= i < old(self).files@.len() && i != f ==> final(self).files@[i]
                    == old(self).files@[i],
            ({
                let a = old(self).files@[f as int];
                let b = final(self).files@[f as int];
                &&& b == (AudioFile { subtracks: b.subtracks, ..a })
                &&& b.subtracks@.len() == a.subtracks@.len()
                &&& forall|i: int|
                    0 <= i < a.subtracks@.len() ==> #[trigger] b.subtracks@[i] == reaped(
                        a.subtracks@[i],
                        gone@[i],
                    )
            }),
    {
        let ghost was = self.files@;
        let ghost a = self.files@[f as int];
        let n: usize = self.files[f].subtracks.len();
        let mut k: usize = 0;
        while k < n
            invariant
                k <= n,
                f < was.len(),
                a == was[f as int],
                n == a.subtracks@.len(),
                n == gone@.len(),
                self.next_id == old(self).next_id,
                self.status == old(self).status,
                self.files@.len() == was.len(),
                forall|i: int| 0 <= i < was.len() && i != f ==> self.files@[i] == was[i],
                self.files@[f as int] == (AudioFile {
                    subtracks: self.files@[f as int].subtracks,
                    ..a
                }),
                self.files@[f as int].subtracks@.len() == n,
                forall|i: int|
                    0 <= i < k ==> #[trigger] self.files@[f as int].subtracks@[i] == reaped(
                        a.subtracks@[i],
                        gone@[i],
                    ),
                forall|i: int|
                    k <= i < n ==> #[trigger] self.files@[f as int].subtracks@[i]
                        == a.subtracks@[i],
            decreases n - k,
        {
            let ghost before = self.files@;
            if gone[k] {
                self.files[f].subtracks[k].editor = None;
                assert(forall|i: int|
                    0 <= i < n && i != k ==> self.files@[f as int].subtracks@[i]
                        == before[f as int].subtracks@[i]);
            }
            assert(self.files@[f as int].subtracks@[k as int] == reaped(
                a.subtracks@[k as int],
                gone@[k as int],
            ));
            k += 1;
        }
    }

    /// Remove a file and all its subtracks.
    pub fn remove_file(&mut self, f: usize)
        ensures
            final(self).next_id == old(self).next_id,
            f >= old(self).files@.len() ==> *final(self) == *old(self),
            f < old(self).files@.len() ==> {
                &&& final(self).files@ == old(self).files@.remove(f as int)
                &&& final(self).status@ == "Removed "@ + header_name(
                    old(self).files@[f as int].file_path@,
                ) + "."@
            },
    {
        if f < self.files.len() {
            let gone = self.files.remove(f);
            let mut out = "Removed ".to_owned();
            out.append(gone.display_name().as_str());
            out.append(".");
            self.status = out;
        }
    }

    /// The name a subtrack's grid is offered to be exported under.
    pub fn export_name(&self, f: usize, k: usize) -> (r: Option<String>)
        ensures
            text_view(r) == (if self.has(f, k) && self.files@[f as int].subtracks@[k as int].editor
                is Some {
                Some("subtrack_"@ + decimal((k + 1) as nat) + ".lsft"@)
            } else {
                None
            }),
    {
        if f < self.files.len() && k < self.files[f].subtracks.len()
            && self.files[f].subtracks[k].editor.is_some() {
            let mut out = "subtrack_".to_owned();
            push_decimal(&mut out, k as u64 + 1);
            out.append(".lsft");
            Some(out)
        } else {
            None
        }
    }

    /// A subtrack's grid has been exported.
    pub fn exported(&mut self, k: usize, path: &str)
        requires
            k < usize::MAX,
        ensures
            final(self).same_but_status(old(self)),
            final(self).status@ == "Exported subtrack "@ + decimal((k + 1) as nat) + " to "@ + path@
                + "."@,
    {
        let mut out = "Exported subtrack ".to_owned();
        push_decimal(&mut out, k as u64 + 1);
        out.append(" to ");
        out.append(path);
        out.append(".");
        self.status = out;
    }

    /// How soon to look again, in milliseconds: while any editor is open its
    /// window may be closed directly.
    pub fn repaint_after(&self) -> (r: Option<u64>)
        ensures
            r == (if exists|f: int|
                0 <= f < self.files@.len() && open_count(
                    (#[trigger] self.files@[f]).subtracks@,
                    self.files@[f].subtracks@.len() as int,
                ) > 0 {
                Some(250u64)
            } else {
                None
            }),
    {
        let n: usize = self.files.len();
        let mut k: usize = 0;
        while k < n
            invariant
                k <= n,
                n == self.files@.len(),
                forall|f: int|
                    0 <= f < k ==> open_count(
                        (#[trigger] self.files@[f]).subtracks@,
                        self.files@[f].subtracks@.len() as int,
                    ) <= 0,
            decreases n - k,
        {
            if self.files[k].open_editor_count() > 0 {
                return Some(250);
            }
            k += 1;
        }
        None
    }
}

/// What went wrong.
#[derive(Clone, Copy, PartialEq, Eq, Debug, Structural)]
pub enum Failure {
    /// The plugin that analyses could not be loaded.
    AnalysisPlugin,
    /// A preview could not be computed.
    Analyse,
    /// Nobody knows where the plugin should be.
    NoPlugin,
    /// An instance could not be loaded.
    PluginLoad,
    /// The audio could not be handed over.
    PushAnalysis,
    /// A grid could not be read out or written.
    Export,
}

/// What a failure reads like.
pub open spec fn failure_text(what: Failure, why: Seq<char>) -> Seq<char> {
    match what {
        Failure::AnalysisPlugin => "Could not load internal plugin for analysis: "@ + why,
        Failure::Analyse => "Analyze failed: "@ + why,
        Failure::NoPlugin => "Could not locate internal plugin."@,
        Failure::PluginLoad => "Plugin load failed: "@ + why,
        Failure::PushAnalysis => "Push analysis failed: "@ + why,
        Failure::Export => "Export failed: "@ + why,
    }
}

/// What stands behind the last separator has none in it, is all there is where there
/// is none, and is nothing where the text ends in one: `k` is where it starts.
pub proof fn law_what_stands_behind_the_last_separator(p: Seq<char>) -> (k: int)
    ensures
        0 <= k <= p.len(),
        behind_separator(p) == p.skip(k),
        forall|i: int| k <= i < p.len() ==> #[trigger] p[i] != '/' && p[i] != '\\',
        k > 0 ==> p[k - 1] == '/' || p[k - 1] == '\\',
    decreases p.len(),
{
    if p.len() == 0 || p.last() == '/' || p.last() == '\\' {
        assert(p.skip(p.len() as int) =~= Seq::empty());
        p.len() as int
    } else {
        let init = p.drop_last();
        let k = law_what_stands_behind_the_last_separator(init);
        assert(init.skip(k).push(p.last()) =~= p.skip(k));
        assert forall|i: int| k <= i < p.len() implies #[trigger] p[i] != '/' && p[i] != '\\' by {
            if i < init.len() {
                assert(init[i] == p[i]);
            }
        }
        if k > 0 {
            assert(init[k - 1] == p[k - 1]);
        }
        k
    }
}

/// A file is shown by what stands behind its last separator, or by all of its path
/// where nothing does.
pub proof fn law_how_a_file_is_shown(path: Seq<char>)
    ensures
        behind_separator(trim(path)).len() > 0 ==> header_name(path) == behind_separator(
            trim(path),
        ),
        behind_separator(trim(path)).len() == 0 ==> header_name(path) == trim(path),
{
}

/// Subtracks are counted once each where they are worth analysing.
pub proof fn law_every_reasonable_subtrack_counts(s: Seq<(Subtrack, bool)>, n: int)
    requires
        0 <= n <= s.len(),
    ensures
        reasonable_count(s, n) == s.take(n).filter(|x: (Subtrack, bool)| x.1).len(),
    decreases n,
{
    reveal(Seq::filter);
    if n > 0 {
        law_every_reasonable_subtrack_counts(s, n - 1);
        assert(s.take(n).drop_last() =~= s.take(n - 1));
    }
}

/// Subtracks are counted once each where their editors are open.
pub proof fn law_every_open_editor_counts(s: Seq<SubtrackView>, n: int)
    requires
        0 <= n <= s.len(),
    ensures
        open_count(s, n) == s.take(n).filter(|x: SubtrackView| x.editor is Some).len(),
    decreases n,
{
    reveal(Seq::filter);
    if n > 0 {
        law_every_open_editor_counts(s, n - 1);
        assert(s.take(n).drop_last() =~= s.take(n - 1));
    }
}

/// An editor whose window is gone is let go, and nothing else of a subtrack changes.
pub proof fn law_only_gone_editors_are_reaped(v: SubtrackView, gone: bool)
    ensures
        gone ==> reaped(v, gone).editor is None,
        !gone ==> reaped(v, gone) == v,
        reaped(v, gone).sub == v.sub && reaped(v, gone).reasonable == v.reasonable && reaped(
            v,
            gone,
        ).previewed == v.previewed,
{
}

/// The subtracks of a file that was just decoded are those that were found, in order,
/// without a preview or an editor.
pub proof fn law_what_fresh_subtracks_are(s: Seq<SubtrackView>, from: Seq<(Subtrack, bool)>, i: int)
    requires
        fresh_subs(s, from),
        0 <= i < s.len(),
    ensures
        s.len() == from.len(),
        s[i].sub == from[i].0 && s[i].reasonable == from[i].1 && !s[i].previewed && s[i].editor is None,
{
}

/// What is said of a decoded file: how long it runs, at what rate, how many subtracks
/// it has and how many of them are worth analysing.
pub proof fn law_what_is_said_of_a_decoded_file(d: Decoded)
    ensures
        decoded_text(d) == "Decoded "@ + d.secs@ + "s @ "@ + d.rate@ + " Hz → "@ + decimal(
            d.subs@.len(),
        ) + " subtrack(s), "@ + decimal(
            d.subs@.filter(|x: (Subtrack, bool)| x.1).len(),
        ) + " reasonable to analyse."@,
{
    law_every_reasonable_subtrack_counts(d.subs@, d.subs@.len() as int);
    assert(d.subs@.take(d.subs@.len() as int) =~= d.subs@);
}

/// What is said of a failure: what failed, and why where that is known.
pub proof fn law_what_is_said_of_a_failure(why: Seq<char>)
    ensures
        failure_text(Failure::AnalysisPlugin, why)
            == "Could not load internal plugin for analysis: "@ + why,
        failure_text(Failure::Analyse, why) == "Analyze failed: "@ + why,
        failure_text(Failure::NoPlugin, why) == "Could not locate internal plugin."@,
        failure_text(Failure::PluginLoad, why) == "Plugin load failed: "@ + why,
        failure_text(Failure::PushAnalysis, why) == "Push analysis failed: "@ + why,
        failure_text(Failure::Export, why) == "Export failed: "@ + why,
{
}

/// What is the same but for its status has the same files, in order, and numbers the
/// next one alike.
pub proof fn law_what_is_the_same_but_for_the_status(a: ResynthPanel, b: ResynthPanel)
    ensures
        a.same_but_status(&b) <==> a.files == b.files && a.next_id == b.next_id,
{
}

} // verus!
