//! Names that are safe to use as files, and files that do not collide.

use vstd::prelude::*;
use vstd::set_lib::{lemma_int_range, lemma_len_subset, set_int_range};

use crate::text::{
    alphanumeric, ascii_lower, ascii_lower_chars, chars_of, decimal, digits_value, is_alphanumeric,
    is_space, is_whitespace, lemma_decimal_reads_back, part, push_decimal, same_chars, string_of,
    trimmed,
};

verus! {

/// The file extension, and what a project folder's manifest is named after.
pub const EXTENSION: &'static str = "gmstn";

/// A character as it may stand in a file name.
pub open spec fn safe_char(c: char) -> char {
    if alphanumeric(c) || c == ' ' || c == '-' || c == '_' || c == '.' {
        c
    } else {
        '_'
    }
}

/// What may not stand at either end of a file name: a dot, and white space.
pub open spec fn is_edge(c: char) -> bool {
    c == '.' || is_space(c)
}

/// Text without the dots and the white space around it, however they alternate.
pub open spec fn without_edges(s: Seq<char>) -> Seq<char>
    decreases s.len(),
{
    if s.len() > 0 && is_edge(s[0]) {
        without_edges(s.skip(1))
    } else if s.len() > 0 && is_edge(s.last()) {
        without_edges(s.drop_last())
    } else {
        s
    }
}

/// A typed name as a file name: every character a safe one, no white space and
/// no dots around it, and never empty.
pub open spec fn safe_name(name: Seq<char>) -> Seq<char> {
    let bare = without_edges(name.map_values(|c: char| safe_char(c)));
    if bare.len() == 0 {
        "Untitled"@
    } else {
        bare
    }
}

proof fn lemma_without_edges(s: Seq<char>)
    ensures
        without_edges(s).len() <= s.len(),
        without_edges(s).len() > 0 ==> !is_edge(without_edges(s)[0]) && !is_edge(
            without_edges(s).last(),
        ),
        forall|i: int|
            0 <= i < without_edges(s).len() ==> s.contains(#[trigger] without_edges(s)[i]),
    decreases s.len(),
{
    if s.len() > 0 && is_edge(s[0]) {
        lemma_without_edges(s.skip(1));
        assert forall|i: int| 0 <= i < without_edges(s).len() implies s.contains(
            #[trigger] without_edges(s)[i],
        ) by {
            let c = without_edges(s)[i];
            let k = choose|k: int| 0 <= k < s.skip(1).len() && s.skip(1)[k] == c;
            assert(s[k + 1] == c);
        }
    } else if s.len() > 0 && is_edge(s.last()) {
        lemma_without_edges(s.drop_last());
        assert forall|i: int| 0 <= i < without_edges(s).len() implies s.contains(
            #[trigger] without_edges(s)[i],
        ) by {
            let c = without_edges(s)[i];
            let k = choose|k: int| 0 <= k < s.drop_last().len() && s.drop_last()[k] == c;
            assert(s[k] == c);
        }
    }
}

/// Whatever was typed, a safe name is not empty, has no white space around it and
/// neither starts nor ends with a dot: it names no hidden folder, not this one and
/// not the one above.
pub proof fn law_a_safe_name_is_not_hidden(name: Seq<char>)
    ensures
        safe_name(name).len() > 0,
        safe_name(name)[0] != '.',
        safe_name(name).last() != '.',
        trimmed(safe_name(name)),
{
    lemma_without_edges(name.map_values(|c: char| safe_char(c)));
    reveal_strlit("Untitled");
}

fn edgeless(v: &Vec<char>) -> (r: Vec<char>)
    ensures
        r@ == without_edges(v@),
{
    let mut a: usize = 0;
    assert(v@.skip(0) =~= v@);
    while a < v.len() && (v[a] == '.' || is_whitespace(v[a]))
        invariant
            a <= v.len(),
            without_edges(v@) == without_edges(v@.skip(a as int)),
        decreases v.len() - a,
    {
        assert(v@.skip(a as int).skip(1) =~= v@.skip(a + 1));
        a += 1;
    }
    let mut b: usize = v.len();
    assert(v@.subrange(a as int, b as int) =~= v@.skip(a as int));
    while b > a && (v[b - 1] == '.' || is_whitespace(v[b - 1]))
        invariant
            a <= b <= v.len(),
            a < v.len() ==> !is_edge(v@[a as int]),
            without_edges(v@) == without_edges(v@.subrange(a as int, b as int)),
        decreases b - a,
    {
        assert(v@.subrange(a as int, b as int).drop_last() =~= v@.subrange(a as int, b - 1));
        b -= 1;
    }
    assert(without_edges(v@) == v@.subrange(a as int, b as int));
    part(v, a, b)
}

/// Turn a typed project name into something safe to use as a folder and file
/// name: one path component, no separators, no surprises.
pub fn sanitize_name(name: &str) -> (r: String)
    ensures
        r@ == safe_name(name@),
        r@.len() > 0,
        r@[0] != '.',
        r@.last() != '.',
        trimmed(r@),
        !r@.contains('/') && !r@.contains('\\') && !r@.contains('\0') && !r@.contains('\n')
            && !r@.contains(':'),
{
    let v = chars_of(name);
    let mut out: Vec<char> = Vec::new();
    let mut i: usize = 0;
    while i < v.len()
        invariant
            i <= v.len(),
            v@ == name@,
            out@ == name@.take(i as int).map_values(|c: char| safe_char(c)),
            forall|k: int|
                0 <= k < out@.len() ==> #[trigger] out@[k] != '/' && out@[k] != '\\' && out@[k]
                    != '\0' && out@[k] != '\n' && out@[k] != ':',
        decreases v.len() - i,
    {
        let c = v[i];
        if is_alphanumeric(c) || c == ' ' || c == '-' || c == '_' || c == '.' {
            out.push(c);
        } else {
            out.push('_');
        }
        assert(out@ =~= name@.take(i + 1).map_values(|c: char| safe_char(c)));
        i += 1;
    }
    assert(name@.take(i as int) =~= name@);
    let ghost cleaned = out@;
    let bare = edgeless(&out);
    proof {
        law_a_safe_name_is_not_hidden(name@);
        lemma_without_edges(cleaned);
        reveal_strlit("Untitled");
    }
    if bare.len() == 0 {
        return "Untitled".to_owned();
    }
    string_of(&bare)
}

/// The `k`-th name a file of a stem may be given: the plain one, then numbered
/// from two.
pub open spec fn candidate(stem: Seq<char>, ext: Seq<char>, k: nat) -> Seq<char> {
    if k == 0 {
        stem + seq!['.'] + ext
    } else {
        stem + seq![' '] + decimal(k + 1) + seq!['.'] + ext
    }
}

/// Whether a name is taken, whatever the case of its letters.
pub open spec fn is_taken(taken: Seq<String>, name: Seq<char>) -> bool {
    exists|i: int| 0 <= i < taken.len() && ascii_lower((#[trigger] taken[i])@) == ascii_lower(name)
}

/// Whether `name` is the first candidate that is not taken.
pub open spec fn first_free(stem: Seq<char>, ext: Seq<char>, taken: Seq<String>, k: nat) -> bool {
    &&& !is_taken(taken, candidate(stem, ext, k))
    &&& forall|j: nat| j < k ==> #[trigger] is_taken(taken, candidate(stem, ext, j))
}

proof fn lemma_lower_digits(s: Seq<char>)
    requires
        forall|i: int| 0 <= i < s.len() ==> '0' <= #[trigger] s[i] <= '9',
    ensures
        ascii_lower(s) == s,
{
    assert(ascii_lower(s) =~= s);
}

/// Two candidates are different names, whatever the case of their letters.
proof fn lemma_candidates_differ(stem: Seq<char>, ext: Seq<char>, j: nat, k: nat)
    requires
        j < k,
    ensures
        ascii_lower(candidate(stem, ext, j)) != ascii_lower(candidate(stem, ext, k)),
{
    let a = ascii_lower(candidate(stem, ext, j));
    let b = ascii_lower(candidate(stem, ext, k));
    let n = stem.len() as int;
    lemma_decimal_reads_back(k + 1);
    lemma_lower_digits(decimal(k + 1));
    if a == b {
        assert(b[n] == ' ');
        if j == 0 {
            assert(a[n] == '.');
            assert(false);
        } else {
            lemma_decimal_reads_back(j + 1);
            lemma_lower_digits(decimal(j + 1));
            let m = a.len() - n - 1 - 1 - ext.len();
            assert(decimal(j + 1).len() == m && decimal(k + 1).len() == m);
            let dj = decimal(j + 1);
            let dk = decimal(k + 1);
            assert(dj =~= dk) by {
                assert forall|i: int| 0 <= i < m implies #[trigger] dj[i] == dk[i] by {
                    assert(a[n + 1 + i] == ascii_lower(dj)[i]);
                    assert(b[n + 1 + i] == ascii_lower(dk)[i]);
                }
            }
            assert(digits_value(decimal(j + 1)) == j + 1);
            assert(false);
        }
    }
}

fn taken_at(taken: &[String], name: &str) -> (r: Option<usize>)
    ensures
        match r {
            Some(i) => i < taken@.len() && ascii_lower(taken@[i as int]@) == ascii_lower(name@),
            None => !is_taken(taken@, name@),
        },
{
    let want = ascii_lower_chars(&chars_of(name));
    let mut i: usize = 0;
    while i < taken.len()
        invariant
            i <= taken.len(),
            want@ == ascii_lower(name@),
            forall|k: int| 0 <= k < i ==> ascii_lower((#[trigger] taken@[k])@) != want@,
        decreases taken.len() - i,
    {
        let have = ascii_lower_chars(&chars_of(taken[i].as_str()));
        if same_chars(&have, &want) {
            return Some(i);
        }
        i += 1;
    }
    None
}

fn candidate_name(stem: &str, ext: &str, k: usize) -> (r: String)
    requires
        k < usize::MAX,
    ensures
        r@ == candidate(stem@, ext@, k as nat),
{
    let mut out = stem.to_owned();
    if k > 0 {
        out.push(' ');
        push_decimal(&mut out, (k + 1) as u64);
    }
    out.push('.');
    out.append(ext);
    assert(out@ =~= candidate(stem@, ext@, k as nat));
    out
}

/// A file named after a track, with extension `ext`, that is none of `taken`.
pub fn unique_file_name(track_name: &str, ext: &str, taken: &[String]) -> (r: String)
    requires
        taken@.len() < usize::MAX,
    ensures
        !is_taken(taken@, r@),
        exists|k: nat|
            r@ == candidate(safe_name(track_name@), ext@, k) && first_free(
                safe_name(track_name@),
                ext@,
                taken@,
                k,
            ),
{
    let stem = sanitize_name(track_name);
    let ghost s = safe_name(track_name@);
    let ghost mut used: Set<int> = Set::empty();
    let count: usize = taken.len();
    let mut k: usize = 0;
    loop
        invariant
            k <= count,
            count == taken@.len(),
            count < usize::MAX,
            stem@ == s,
            s == safe_name(track_name@),
            used.finite(),
            used.len() == k,
            forall|i: int|
                #[trigger]
                used.contains(i) ==> 0 <= i < count && exists|j: nat|
                    j < k && ascii_lower(taken@[i]@) == #[trigger] ascii_lower(
                        candidate(s, ext@, j),
                    ),
            forall|j: nat| j < k ==> #[trigger] is_taken(taken@, candidate(s, ext@, j)),
        decreases count - k,
    {
        let name = candidate_name(stem.as_str(), ext, k);
        match taken_at(taken, name.as_str()) {
            None => {
                assert(first_free(s, ext@, taken@, k as nat));
                return name;
            },
            Some(i) => {
                proof {
                    if used.contains(i as int) {
                        let j = choose|j: nat|
                            j < k && ascii_lower(taken@[i as int]@) == #[trigger] ascii_lower(
                                candidate(s, ext@, j),
                            );
                        lemma_candidates_differ(s, ext@, j, k as nat);
                    }
                    assert(is_taken(taken@, candidate(s, ext@, k as nat)));
                    assert(ascii_lower(taken@[i as int]@) == ascii_lower(
                        candidate(s, ext@, k as nat),
                    ));
                    let grown = used.insert(i as int);
                    assert forall|x: int| #[trigger] grown.contains(x) implies 0 <= x < count
                        && exists|j: nat|
                        j < k + 1 && ascii_lower(taken@[x]@) == #[trigger] ascii_lower(
                            candidate(s, ext@, j),
                        ) by {
                        if x != i {
                            assert(used.contains(x));
                        }
                    }
                    lemma_int_range(0, count as int);
                    assert(grown.subset_of(set_int_range(0, count as int)));
                    lemma_len_subset(grown, set_int_range(0, count as int));
                    used = grown;
                }
                k += 1;
            },
        }
    }
}

/// A grid file name for a track, unique within `taken`.
pub fn grid_file_name(track_name: &str, taken: &[String]) -> (r: String)
    requires
        taken@.len() < usize::MAX,
    ensures
        !is_taken(taken@, r@),
        exists|k: nat|
            r@ == candidate(safe_name(track_name@), "lsft"@, k) && first_free(
                safe_name(track_name@),
                "lsft"@,
                taken@,
                k,
            ),
{
    unique_file_name(track_name, "lsft", taken)
}

/// Two tracks may share a name; their files may not: a name given while another
/// is taken differs from it.
pub proof fn law_a_free_name_differs_from_every_taken_one(
    stem: Seq<char>,
    ext: Seq<char>,
    taken: Seq<String>,
    k: nat,
    i: int,
)
    requires
        first_free(stem, ext, taken, k),
        0 <= i < taken.len(),
    ensures
        taken[i]@ != candidate(stem, ext, k),
        ascii_lower(taken[i]@) != ascii_lower(candidate(stem, ext, k)),
{
}

/// The first free name is one: there are not two of them.
pub proof fn law_the_first_free_name_is_one(
    stem: Seq<char>,
    ext: Seq<char>,
    taken: Seq<String>,
    j: nat,
    k: nat,
)
    requires
        first_free(stem, ext, taken, j),
        first_free(stem, ext, taken, k),
    ensures
        j == k,
{
}

/// A letter or a digit stays as it is in a file name, and so do a space, a dash, an
/// underscore and a dot; anything else becomes an underscore.
pub proof fn law_what_is_safe_in_a_name(c: char)
    ensures
        alphanumeric(c) || c == ' ' || c == '-' || c == '_' || c == '.' ==> safe_char(c) == c,
        !(alphanumeric(c) || c == ' ' || c == '-' || c == '_' || c == '.') ==> safe_char(c) == '_',
{
}

/// A name that is safe already stays as it is, character for character, and any name
/// gives one no longer than itself whose characters are its own, made safe; only a
/// name with nothing left to it is called "Untitled".
pub proof fn law_a_safe_name_stays(name: Seq<char>)
    ensures
        name.len() > 0 && !is_edge(name[0]) && !is_edge(name.last()) && (forall|i: int|
            0 <= i < name.len() ==> safe_char(#[trigger] name[i]) == name[i]) ==> safe_name(name)
            == name,
        without_edges(name.map_values(|c: char| safe_char(c))).len() > 0 ==> safe_name(name).len()
            <= name.len(),
        (forall|i: int| 0 <= i < name.len() ==> is_edge(#[trigger] name[i])) ==> safe_name(name)
            == "Untitled"@ || exists|i: int|
            0 <= i < name.len() && safe_char(#[trigger] name[i]) != name[i],
{
    let f = |c: char| safe_char(c);
    let m = name.map_values(f);
    lemma_without_edges(m);
    if forall|i: int| 0 <= i < name.len() ==> safe_char(#[trigger] name[i]) == name[i] {
        assert(m =~= name);
    }
    if (forall|i: int| 0 <= i < name.len() ==> is_edge(#[trigger] name[i])) && !(exists|i: int|
        0 <= i < name.len() && safe_char(#[trigger] name[i]) != name[i]) {
        assert(m =~= name);
        if without_edges(m).len() > 0 {
            let c = without_edges(m)[0];
            assert(m.contains(c));
            let i = choose|i: int| 0 <= i < m.len() && m[i] == c;
            assert(is_edge(name[i]));
        }
    }
}

/// What is taken off a name are dots and white space at its two ends, and nothing
/// else: `r` is where what is left begins and ends.
pub proof fn law_only_edges_are_taken_off(s: Seq<char>) -> (r: (int, int))
    ensures
        0 <= r.0 <= r.1 <= s.len(),
        without_edges(s) == s.subrange(r.0, r.1),
        forall|i: int| 0 <= i < r.0 || r.1 <= i < s.len() ==> #[trigger] s[i] == '.' || is_space(s[i]),
        r.0 < r.1 ==> !(s[r.0] == '.' || is_space(s[r.0])) && !(s[r.1 - 1] == '.' || is_space(
            s[r.1 - 1],
        )),
    decreases s.len(),
{
    if s.len() > 0 && is_edge(s[0]) {
        let rest = s.skip(1);
        let q = law_only_edges_are_taken_off(rest);
        assert(rest.subrange(q.0, q.1) =~= s.subrange(q.0 + 1, q.1 + 1));
        assert forall|i: int| 0 <= i < q.0 + 1 || q.1 + 1 <= i < s.len() implies #[trigger] s[i]
            == '.' || is_space(s[i]) by {
            if i > 0 {
                assert(rest[i - 1] == s[i]);
            }
        }
        if q.0 < q.1 {
            assert(rest[q.0] == s[q.0 + 1] && rest[q.1 - 1] == s[q.1]);
        }
        (q.0 + 1, q.1 + 1)
    } else if s.len() > 0 && is_edge(s.last()) {
        let init = s.drop_last();
        let q = law_only_edges_are_taken_off(init);
        assert(init.subrange(q.0, q.1) =~= s.subrange(q.0, q.1));
        assert forall|i: int| 0 <= i < q.0 || q.1 <= i < s.len() implies #[trigger] s[i] == '.'
            || is_space(s[i]) by {
            if i < init.len() {
                assert(init[i] == s[i]);
            }
        }
        if q.0 < q.1 {
            assert(init[q.0] == s[q.0] && init[q.1 - 1] == s[q.1 - 1]);
        }
        q
    } else {
        assert(s.subrange(0, s.len() as int) =~= s);
        (0, s.len() as int)
    }
}

/// The first candidate is the name and its extension; the further ones have a number
/// between them, the second a two, and so on.
pub proof fn law_how_candidates_are_numbered(stem: Seq<char>, ext: Seq<char>, k: nat)
    ensures
        candidate(stem, ext, 0) == stem + seq!['.'] + ext,
        k > 0 ==> candidate(stem, ext, k) == stem + seq![' '] + decimal(k + 1) + seq!['.'] + ext,
{
}

/// A name is the first that is free exactly where no file has it, whatever the case
/// of its letters, and some file has every candidate before it.
pub proof fn law_what_the_first_free_name_is(
    stem: Seq<char>,
    ext: Seq<char>,
    taken: Seq<String>,
    k: nat,
)
    requires
        first_free(stem, ext, taken, k),
    ensures
        forall|i: int|
            0 <= i < taken.len() ==> ascii_lower((#[trigger] taken[i])@) != ascii_lower(
                candidate(stem, ext, k),
            ),
        forall|j: nat|
            #![trigger candidate(stem, ext, j)]
            j < k ==> is_taken(taken, candidate(stem, ext, j)),
{
    assert forall|j: nat| #![trigger candidate(stem, ext, j)] j < k implies is_taken(
        taken,
        candidate(stem, ext, j),
    ) by {}
}

} // verus!
