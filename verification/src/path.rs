//! Paths as text, with `/` between their parts. Where a system separates them with
//! `\` as well, [`with_slashes`] brings a path into this form.

use vstd::prelude::*;

use crate::text::{chars_of, part, same_chars, split, split_chars, string_of};

verus! {

/// A path with `/` between its parts, on a system that separates them with `\` as
/// well or on one that does not.
pub open spec fn slashed(p: Seq<char>, backslashes: bool) -> Seq<char> {
    p.map_values(
        |c: char|
            if backslashes && c == '\\' {
                '/'
            } else {
                c
            },
    )
}

/// A path without the separators and the `.` parts at its end.
pub open spec fn tidy(p: Seq<char>) -> Seq<char>
    decreases p.len(),
{
    if p.len() > 0 && p.last() == '/' {
        tidy(p.drop_last())
    } else if p.len() >= 2 && p.last() == '.' && p[p.len() - 2] == '/' {
        tidy(p.drop_last())
    } else {
        p
    }
}

/// How many characters stand behind the last `c`.
pub open spec fn tail_len(p: Seq<char>, c: char) -> nat
    decreases p.len(),
{
    if p.len() == 0 || p.last() == c {
        0
    } else {
        1 + tail_len(p.drop_last(), c)
    }
}

/// The text behind the last `c`, or all of it.
pub open spec fn behind_last(p: Seq<char>, c: char) -> Seq<char> {
    p.skip(p.len() - tail_len(p, c))
}

/// The last part of a path, where it is a name: not a root, not `.` and not
/// `..`.
pub open spec fn name_of(p: Seq<char>) -> Option<Seq<char>> {
    let n = behind_last(tidy(p), '/');
    if n.len() == 0 || n == seq!['.'] || n == seq!['.', '.'] {
        None
    } else {
        Some(n)
    }
}

/// What a path is called on screen.
pub open spec fn label_of(p: Seq<char>) -> Seq<char> {
    match name_of(p) {
        Some(n) => n,
        None => p,
    }
}

/// A path taken relative to a folder; an absolute one stands for itself.
pub open spec fn joined(dir: Seq<char>, file: Seq<char>) -> Seq<char> {
    if file.len() > 0 && file[0] == '/' {
        file
    } else if dir.len() == 0 || dir.last() == '/' {
        dir + file
    } else {
        dir.push('/') + file
    }
}

/// The folder a path stands in: the path without its last part.
pub open spec fn folder_of(p: Seq<char>) -> Option<Seq<char>> {
    let t = tidy(p);
    if t.len() == 0 {
        None
    } else {
        let before = t.take(t.len() - tail_len(t, '/'));
        if before.len() == 0 {
            Some(Seq::empty())
        } else if tidy(before).len() == 0 {
            Some(seq!['/'])
        } else {
            Some(tidy(before))
        }
    }
}

/// A file's name without its extension: up to the last dot, unless that dot
/// opens the name.
pub open spec fn stem_of(p: Seq<char>) -> Option<Seq<char>> {
    match name_of(p) {
        None => None,
        Some(n) => {
            let k = n.len() - tail_len(n, '.') - 1;
            if k <= 0 {
                Some(n)
            } else {
                Some(n.take(k))
            }
        },
    }
}

/// A file's extension: what stands behind the last dot of its name, unless that
/// dot opens it.
pub open spec fn extension_of(p: Seq<char>) -> Option<Seq<char>> {
    match name_of(p) {
        None => None,
        Some(n) => {
            let k = n.len() - tail_len(n, '.') - 1;
            if k <= 0 {
                None
            } else {
                Some(n.skip(k + 1))
            }
        },
    }
}

/// The parts of a path that lead somewhere: neither the empty ones that doubled
/// separators leave nor those that are `.`.
pub open spec fn leading_parts(s: Seq<Seq<char>>) -> Seq<Seq<char>> {
    s.filter(|c: Seq<char>| c.len() > 0 && c != seq!['.'])
}

/// Where a path leads: from the root or not, from an explicit `.` or not, and
/// through which parts.
pub open spec fn way_of(p: Seq<char>) -> (bool, bool, Seq<Seq<char>>) {
    (p.len() > 0 && p[0] == '/', split(p, '/')[0] == seq!['.'], leading_parts(split(p, '/')))
}

/// Whether two paths are the same path, part by part.
pub open spec fn same_path(a: Seq<char>, b: Seq<char>) -> bool {
    way_of(a) == way_of(b)
}

fn is_dot(v: &Vec<char>) -> (r: bool)
    ensures
        r == (v@ == seq!['.']),
{
    if v.len() == 1 && v[0] == '.' {
        assert(v@ =~= seq!['.']);
        true
    } else {
        false
    }
}

fn parts_of(path: &str) -> (r: (bool, bool, Vec<Vec<char>>))
    ensures
        way_of(path@) == (r.0, r.1, r.2@.map_values(|c: Vec<char>| c@)),
{
    let v = chars_of(path);
    let pieces = split_chars(&v, '/');
    let ghost all = split(path@, '/');
    proof {
        assert(all.len() > 0);
    }
    let dotted = is_dot(&pieces[0]);
    let mut out: Vec<Vec<char>> = Vec::new();
    let n: usize = pieces.len();
    let mut k: usize = 0;
    proof {
        reveal(Seq::filter);
        assert(leading_parts(all.take(0)) =~= Seq::empty());
        assert(out@.map_values(|c: Vec<char>| c@) =~= Seq::empty());
    }
    while k < n
        invariant
            k <= n,
            n == pieces@.len(),
            n == all.len(),
            forall|i: int| 0 <= i < n ==> (#[trigger] pieces@[i])@ == all[i],
            out@.map_values(|c: Vec<char>| c@) == leading_parts(all.take(k as int)),
        decreases n - k,
    {
        let ghost before = out@;
        proof {
            reveal(Seq::filter);
            let part = all.take(k + 1);
            assert(part.drop_last() =~= all.take(k as int));
            assert(part.last() == pieces@[k as int]@);
        }
        if pieces[k].len() > 0 && !is_dot(&pieces[k]) {
            let len: usize = pieces[k].len();
            let piece = part(&pieces[k], 0, len);
            assert(piece@ =~= all[k as int]);
            out.push(piece);
            assert(out@.map_values(|c: Vec<char>| c@) =~= before.map_values(
                |c: Vec<char>| c@,
            ).push(all[k as int]));
        }
        k += 1;
    }
    assert(all.take(n as int) =~= all);
    (v.len() > 0 && v[0] == '/', dotted, out)
}

/// Whether two paths are the same path, part by part: doubled separators, a
/// separator at the end and `.` in the middle do not matter.
pub fn is_same_path(a: &str, b: &str) -> (r: bool)
    ensures
        r == same_path(a@, b@),
{
    let x = parts_of(a);
    let y = parts_of(b);
    let ghost p = x.2@.map_values(|c: Vec<char>| c@);
    let ghost q = y.2@.map_values(|c: Vec<char>| c@);
    if x.0 != y.0 || x.1 != y.1 || x.2.len() != y.2.len() {
        assert(x.2@.len() != y.2@.len() ==> p.len() != q.len());
        return false;
    }
    let n: usize = x.2.len();
    let mut k: usize = 0;
    while k < n
        invariant
            k <= n,
            n == x.2@.len(),
            n == y.2@.len(),
            p == x.2@.map_values(|c: Vec<char>| c@),
            q == y.2@.map_values(|c: Vec<char>| c@),
            way_of(a@) == (x.0, x.1, p),
            way_of(b@) == (y.0, y.1, q),
            forall|i: int| 0 <= i < k ==> #[trigger] p[i] == q[i],
        decreases n - k,
    {
        if !same_chars(&x.2[k], &y.2[k]) {
            assert(p[k as int] != q[k as int]);
            return false;
        }
        k += 1;
    }
    assert(p =~= q);
    true
}

pub proof fn lemma_tail_len(p: Seq<char>, c: char)
    ensures
        tail_len(p, c) <= p.len(),
        tail_len(p, c) < p.len() ==> p[p.len() - tail_len(p, c) - 1] == c,
        forall|i: int| p.len() - tail_len(p, c) <= i < p.len() ==> #[trigger] p[i] != c,
    decreases p.len(),
{
    if p.len() > 0 && p.last() != c {
        lemma_tail_len(p.drop_last(), c);
        assert forall|i: int| p.len() - tail_len(p, c) <= i < p.len() implies #[trigger] p[i]
            != c by {
            if i < p.len() - 1 {
                assert(p.drop_last()[i] == p[i]);
            }
        }
    }
}

proof fn lemma_tidy(p: Seq<char>)
    ensures
        tidy(p).len() <= p.len(),
        tidy(p) == p.take(tidy(p).len() as int),
    decreases p.len(),
{
    if p.len() > 0 && (p.last() == '/' || (p.len() >= 2 && p.last() == '.' && p[p.len() - 2]
        == '/')) {
        lemma_tidy(p.drop_last());
        assert(p.drop_last().take(tidy(p).len() as int) =~= p.take(tidy(p).len() as int));
    } else {
        assert(p.take(p.len() as int) =~= p);
    }
}

/// The name of a path has no separator in it.
pub proof fn law_a_name_has_no_separator(p: Seq<char>)
    ensures
        name_of(p) matches Some(n) ==> n.len() > 0 && !n.contains('/'),
{
    lemma_tail_len(tidy(p), '/');
}

/// A name joined to a folder is called by that name.
pub proof fn law_a_joined_name_keeps_its_name(dir: Seq<char>, n: Seq<char>)
    requires
        n.len() > 0,
        !n.contains('/'),
        n != seq!['.'],
        n != seq!['.', '.'],
    ensures
        name_of(joined(dir, n)) == Some(n),
{
    assert(n[0] != '/');
    let all = joined(dir, n);
    let k = all.len() - n.len();
    assert(all.skip(k) =~= n);
    assert(all.last() == n.last());
    assert(all.last() != '/');
    if all.len() >= 2 && all.last() == '.' && all[all.len() - 2] == '/' {
        if n.len() >= 2 {
            assert(all[all.len() - 2] == n[n.len() - 2]);
        } else {
            assert(n =~= seq!['.']);
        }
        assert(false);
    }
    assert(tidy(all) == all);
    lemma_tail_len(all, '/');
    let t = tail_len(all, '/');
    assert(t >= n.len()) by {
        if t < n.len() {
            assert(all[all.len() - t - 1] == n[n.len() - t - 1]);
        }
    }
    if t > n.len() {
        if dir.len() > 0 {
            assert(all[k - 1] == '/');
            assert(false);
        }
    }
}

/// Where the characters behind the last `c` start.
fn last_start(v: &[char], c: char) -> (r: usize)
    ensures
        r == v@.len() - tail_len(v@, c),
        r <= v@.len(),
{
    let mut i: usize = v.len();
    assert(v@.take(i as int) =~= v@);
    while i > 0 && v[i - 1] != c
        invariant
            i <= v.len(),
            v@.len() - tail_len(v@, c) == i - tail_len(v@.take(i as int), c),
        decreases i,
    {
        assert(v@.take(i as int).drop_last() =~= v@.take(i - 1));
        i -= 1;
    }
    proof {
        lemma_tail_len(v@, c);
    }
    i
}

fn tidy_chars(v: &[char]) -> (r: Vec<char>)
    ensures
        r@ == tidy(v@),
{
    let mut n: usize = v.len();
    assert(v@.take(n as int) =~= v@);
    while n > 0 && (v[n - 1] == '/' || (n >= 2 && v[n - 1] == '.' && v[n - 2] == '/'))
        invariant
            n <= v.len(),
            tidy(v@) == tidy(v@.take(n as int)),
        decreases n,
    {
        assert(v@.take(n as int).drop_last() =~= v@.take(n - 1));
        n -= 1;
    }
    assert(v@.take(n as int) =~= v@.subrange(0, n as int));
    part(v, 0, n)
}

/// The characters of the last part of a path, where it is a name.
pub fn name_chars(path: &str) -> (r: Option<Vec<char>>)
    ensures
        match r {
            Some(n) => name_of(path@) == Some(n@),
            None => name_of(path@) is None,
        },
{
    let t = tidy_chars(&chars_of(path));
    let from: usize = last_start(&t, '/');
    let n = part(&t, from, t.len());
    assert(n@ =~= behind_last(tidy(path@), '/'));
    if n.len() == 0 {
        return None;
    }
    if n.len() == 1 && n[0] == '.' {
        assert(n@ =~= seq!['.']);
        return None;
    }
    if n.len() == 2 && n[0] == '.' && n[1] == '.' {
        assert(n@ =~= seq!['.', '.']);
        return None;
    }
    Some(n)
}

/// What a path is called on screen: its last part, never the whole thing. A path
/// that has no name to take, a root or one that ends in `..`, is shown as it is.
pub fn file_label(path: &str) -> (r: String)
    ensures
        r@ == label_of(path@),
{
    match name_chars(path) {
        Some(n) => string_of(&n),
        None => path.to_owned(),
    }
}

/// A path taken relative to a folder.
pub fn join(dir: &str, file: &str) -> (r: String)
    ensures
        r@ == joined(dir@, file@),
{
    let d = chars_of(dir);
    let f = chars_of(file);
    if f.len() > 0 && f[0] == '/' {
        return file.to_owned();
    }
    let mut out = dir.to_owned();
    if d.len() > 0 && d[d.len() - 1] != '/' {
        out.push('/');
    }
    out.append(file);
    out
}

/// The folder a path stands in.
pub fn parent(path: &str) -> (r: Option<String>)
    ensures
        match r {
            Some(p) => folder_of(path@) == Some(p@),
            None => folder_of(path@) is None,
        },
{
    let t = tidy_chars(&chars_of(path));
    if t.len() == 0 {
        return None;
    }
    let from: usize = last_start(&t, '/');
    let before = part(&t, 0, from);
    assert(before@ =~= tidy(path@).take(tidy(path@).len() - tail_len(tidy(path@), '/')));
    if before.len() == 0 {
        assert(before@ =~= Seq::<char>::empty());
        return Some(String::new());
    }
    let b = tidy_chars(&before);
    if b.len() == 0 {
        let mut root = String::new();
        root.push('/');
        assert(root@ =~= seq!['/']);
        return Some(root);
    }
    Some(string_of(&b))
}

/// A file's name without its extension.
pub fn file_stem(path: &str) -> (r: Option<String>)
    ensures
        match r {
            Some(p) => stem_of(path@) == Some(p@),
            None => stem_of(path@) is None,
        },
{
    match name_chars(path) {
        None => None,
        Some(n) => {
            let from: usize = last_start(&n, '.');
            if from <= 1 {
                Some(string_of(&n))
            } else {
                let stem = part(&n, 0, from - 1);
                assert(stem@ =~= n@.take(from - 1));
                Some(string_of(&stem))
            }
        },
    }
}

/// A file's extension.
pub fn extension(path: &str) -> (r: Option<Vec<char>>)
    ensures
        match r {
            Some(p) => extension_of(path@) == Some(p@),
            None => extension_of(path@) is None,
        },
{
    match name_chars(path) {
        None => None,
        Some(n) => {
            let from: usize = last_start(&n, '.');
            if from <= 1 {
                None
            } else {
                let ext = part(&n, from, n.len());
                assert(ext@ =~= n@.skip(from as int));
                Some(ext)
            }
        },
    }
}

/// A path of the system as it is held here: with `/` between its parts.
/// `backslashes` says whether the system separates them with `\` as well.
pub fn with_slashes(path: &str, backslashes: bool) -> (r: String)
    ensures
        r@ == slashed(path@, backslashes),
        backslashes ==> !r@.contains('\\'),
{
    let v = chars_of(path);
    let mut out = String::new();
    let mut i: usize = 0;
    while i < v.len()
        invariant
            i <= v.len(),
            v@ == path@,
            out@ == slashed(path@.take(i as int), backslashes),
        decreases v.len() - i,
    {
        out.push(
            if backslashes && v[i] == '\\' {
                '/'
            } else {
                v[i]
            },
        );
        assert(out@ =~= slashed(path@.take(i + 1), backslashes));
        i += 1;
    }
    assert(path@.take(i as int) =~= path@);
    out
}

/// A file that is put into a folder is in that folder.
pub proof fn law_a_joined_file_is_in_its_folder(dir: Seq<char>, n: Seq<char>)
    requires
        dir.len() > 0,
        tidy(dir) == dir,
        n.len() > 0,
        !n.contains('/'),
        n != seq!['.'],
    ensures
        folder_of(joined(dir, n)) == Some(dir),
        joined(dir, n) == dir + seq!['/'] + n,
{
    assert(n[0] != '/') by {
        assert(n.contains(n[0]));
    }
    assert(dir.last() != '/') by {
        lemma_tidy(dir.drop_last());
    }
    let j = joined(dir, n);
    assert(j =~= dir + seq!['/'] + n);
    assert(j.last() == n.last());
    assert(n.contains(n.last()));
    if j.last() == '.' && j[j.len() - 2] == '/' {
        if n.len() > 1 {
            assert(n.contains(n[n.len() - 2]));
            assert(j[j.len() - 2] == n[n.len() - 2]);
        }
        assert(n =~= seq!['.']);
    }
    assert(tidy(j) == j);
    lemma_tail_is(j, '/', n.len());
    let before = j.take(j.len() - n.len());
    assert(before =~= dir.push('/'));
    assert(before.drop_last() =~= dir);
    assert(tidy(before) == tidy(before.drop_last()));
}

proof fn lemma_tail_is(p: Seq<char>, c: char, n: nat)
    requires
        n <= p.len(),
        n < p.len() ==> p[p.len() - n - 1] == c,
        forall|i: int| p.len() - n <= i < p.len() ==> #[trigger] p[i] != c,
    ensures
        tail_len(p, c) == n,
    decreases n,
{
    if n > 0 {
        assert(p.last() == p[p.len() - 1]);
        let init = p.drop_last();
        assert forall|i: int| init.len() - (n - 1) <= i < init.len() implies #[trigger] init[i]
            != c by {
            assert(init[i] == p[i]);
        }
        lemma_tail_is(init, c, (n - 1) as nat);
    }
}

/// A name that is something, a dot and something without one has the first for its
/// stem and the second for its extension. A name without a dot is all stem.
pub proof fn law_a_name_is_its_stem_and_extension(a: Seq<char>, e: Seq<char>)
    requires
        a.len() > 0,
        !a.contains('/'),
        !e.contains('/'),
        !e.contains('.'),
        e.len() > 0,
    ensures
        stem_of(a + seq!['.'] + e) == Some(a),
        extension_of(a + seq!['.'] + e) == Some(e),
        stem_of(e) == Some(e),
        extension_of(e) is None,
{
    let n = a + seq!['.'] + e;
    assert(!n.contains('/')) by {
        if n.contains('/') {
            let i = choose|i: int| 0 <= i < n.len() && n[i] == '/';
            if i < a.len() {
                assert(a[i] == '/');
            } else if i > a.len() {
                assert(e[i - a.len() - 1] == '/');
            }
        }
    }
    lemma_plain_name(n);
    assert(e.contains(e.last()));
    assert(n.last() == e.last());
    assert(n != seq!['.'] && n != seq!['.', '.']) by {
        if n == seq!['.'] || n == seq!['.', '.'] {
            assert(n.last() == '.');
        }
    }
    assert forall|i: int| n.len() - e.len() <= i < n.len() implies #[trigger] n[i] != '.' by {
        assert(n[i] == e[i - (n.len() - e.len())]);
        assert(e.contains(n[i]));
    }
    lemma_tail_is(n, '.', e.len());
    assert(n.take(a.len() as int) =~= a);
    assert(n.skip(a.len() as int + 1) =~= e);
    lemma_plain_name(e);
    assert(e != seq!['.'] && e != seq!['.', '.']) by {
        if e == seq!['.'] || e == seq!['.', '.'] {
            assert(e.last() == '.');
        }
    }
    assert forall|i: int| 0 <= i < e.len() implies #[trigger] e[i] != '.' by {
        assert(e.contains(e[i]));
    }
    lemma_tail_is(e, '.', e.len());
}

proof fn lemma_plain_name(n: Seq<char>)
    requires
        n.len() > 0,
        !n.contains('/'),
    ensures
        tidy(n) == n,
        behind_last(n, '/') == n,
{
    assert(n.contains(n.last()));
    if n.len() >= 2 {
        assert(n.contains(n[n.len() - 2]));
    }
    assert forall|i: int| 0 <= i < n.len() implies #[trigger] n[i] != '/' by {
        assert(n.contains(n[i]));
    }
    lemma_tail_is(n, '/', n.len());
    assert(n.skip(0) =~= n);
}

/// Slashes stand where backslashes stood, where those are separators, and nothing
/// else changes.
pub proof fn law_what_slashing_changes(p: Seq<char>, backslashes: bool, i: int)
    requires
        0 <= i < p.len(),
    ensures
        slashed(p, backslashes).len() == p.len(),
        backslashes && p[i] == '\\' ==> slashed(p, backslashes)[i] == '/',
        !backslashes || p[i] != '\\' ==> slashed(p, backslashes)[i] == p[i],
{
}

/// A path is called by its name, or by all of it where it has none.
pub proof fn law_what_a_path_is_called(p: Seq<char>)
    ensures
        name_of(p) is Some ==> label_of(p) == name_of(p)->0,
        name_of(p) is None ==> label_of(p) == p,
{
}

/// A path is the same as itself, and two that are the same as a third are the same.
pub proof fn law_being_the_same_path_is_an_equivalence(a: Seq<char>, b: Seq<char>, c: Seq<char>)
    ensures
        same_path(a, a),
        same_path(a, b) ==> same_path(b, a),
        same_path(a, b) && same_path(b, c) ==> same_path(a, c),
        same_path(a, b) ==> (a.len() > 0 && a[0] == '/' <==> b.len() > 0 && b[0] == '/'),
{
}

/// Of the parts of a path the empty ones and single dots say nothing; the others say
/// where it leads, in order.
pub proof fn law_which_parts_lead(s: Seq<Seq<char>>, part: Seq<char>)
    ensures
        leading_parts(s).contains(part) <==> s.contains(part) && part.len() > 0 && part
            != seq!['.'],
{
    crate::order::lemma_filter(s, |c: Seq<char>| c.len() > 0 && c != seq!['.']);
}

/// Two paths are the same where both start at the root or neither does, both start
/// with a single dot or neither does, and the same parts lead on, in order; the empty
/// parts and the other single dots do not matter.
pub proof fn law_what_makes_two_paths_the_same(a: Seq<char>, b: Seq<char>)
    ensures
        same_path(a, b) <==> {
            let parts = |p: Seq<char>|
                split(p, '/').filter(|c: Seq<char>| c.len() > 0 && c != seq!['.']);
            let rooted = |p: Seq<char>| p.len() > 0 && p[0] == '/';
            let dotted = |p: Seq<char>| p.len() > 0 && p[0] == '.' && (p.len() == 1 || p[1] == '/');
            &&& rooted(a) == rooted(b)
            &&& dotted(a) == dotted(b)
            &&& parts(a) == parts(b)
        },
{
    lemma_starts_with_a_dot(a);
    lemma_starts_with_a_dot(b);
}

/// The first part of a path is a single dot where the path is one or a separator
/// stands behind the one it starts with.
proof fn lemma_starts_with_a_dot(p: Seq<char>)
    ensures
        split(p, '/')[0] == seq!['.'] <==> p.len() > 0 && p[0] == '.' && (p.len() == 1 || p[1]
            == '/'),
{
    let i = crate::text::first_index(p, '/');
    crate::text::lemma_first_index(p, '/');
    if p.len() > 0 && p[0] == '.' && (p.len() == 1 || p[1] == '/') {
        assert(p.take(1) =~= seq!['.']);
        if p.len() == 1 {
            assert(p =~= seq!['.']);
            assert(i == 1);
        } else {
            assert(i == 1);
            assert(split(p, '/')[0] =~= p.take(1));
        }
    } else if split(p, '/')[0] == seq!['.'] {
        if i < p.len() {
            assert(split(p, '/')[0] =~= p.take(i));
            assert(p.take(i).len() == 1);
            assert(p.take(i)[0] == '.');
        } else {
            assert(split(p, '/')[0] =~= p);
            assert(p[0] == '.');
        }
    }
}

/// A separator or a single dot behind a path changes nothing of how it ends; two dots
/// or nothing at all are no name.
pub proof fn law_where_a_path_has_its_name(p: Seq<char>)
    ensures
        name_of(p + seq!['/']) == name_of(p),
        name_of(p + seq!['/', '.']) == name_of(p),
        name_of(p + seq!['/', '.', '.']) is None,
        name_of(Seq::empty()) is None,
        name_of(seq!['.']) is None,
        name_of(seq!['.', '.']) is None,
        name_of(p) matches Some(n) ==> {
            let q = tidy(p);
            &&& q.len() >= n.len() && q.skip(q.len() - n.len()) == n
            &&& q.len() > n.len() ==> q[q.len() - n.len() - 1] == '/'
        },
{
    assert((p + seq!['/']).drop_last() =~= p);
    assert((p + seq!['/', '.']).drop_last() =~= p + seq!['/']);
    let up = p + seq!['/', '.', '.'];
    assert(tidy(up) == up);
    assert(up.drop_last() =~= p + seq!['/', '.']);
    assert((p + seq!['/', '.']).drop_last() =~= p + seq!['/']);
    reveal_with_fuel(tail_len, 4);
    assert(tail_len(p + seq!['/'], '/') == 0);
    assert(tail_len(p + seq!['/', '.'], '/') == 1);
    assert(tail_len(up, '/') == 2);
    assert(behind_last(up, '/') =~= seq!['.', '.']);
    let one = seq!['.'];
    assert(one.drop_last().len() == 0);
    assert(tail_len(one, '/') == 1);
    assert(behind_last(one, '/') =~= one);
    let two = seq!['.', '.'];
    assert(two.drop_last() =~= one);
    assert(tail_len(two, '/') == 2);
    assert(behind_last(two, '/') =~= two);
    lemma_tail_len(tidy(p), '/');
}

} // verus!
