//! Which rows one plugin instance can play.
//!
//! An instrument is polyphonic, and an instance is not cheap: the rows of a
//! chord are one instrument playing three notes, not three instruments. A row
//! gets an instance of its own only when it needs one: a different sound, a
//! different level, or notes that would collide with another row's, because a
//! note-off names a pitch and not a note.

use vstd::prelude::*;

use super::row::PlannedNote;
use crate::number::{equal_numbers, same_number};
use crate::registry::{identical, PlaybackSource, PlaybackView};
use crate::path::{is_same_path, same_path};

verus! {

/// One row, ready to play.
#[derive(Clone, Debug)]
pub struct RowPlan {
    /// The row's id, which is how a live edit finds the voice again.
    pub row_id: u64,
    pub source: PlaybackSource,
    /// The row's level, as the bits of the number.
    pub gain: u32,
    /// The row's notes, in units.
    pub notes: Vec<PlannedNote>,
}

/// What a plan holds.
pub struct PlanView {
    pub row_id: u64,
    pub source: PlaybackView,
    pub gain: u32,
    pub notes: Seq<PlannedNote>,
}

impl View for RowPlan {
    type V = PlanView;

    open spec fn view(&self) -> PlanView {
        PlanView {
            row_id: self.row_id,
            source: self.source@,
            gain: self.gain,
            notes: self.notes@,
        }
    }
}

/// What plans hold.
pub open spec fn plans_view(s: Seq<RowPlan>) -> Seq<PlanView> {
    s.map_values(|p: RowPlan| p@)
}

/// Whether two notes sound at the same time on the same pitch.
pub open spec fn collide(a: PlannedNote, b: PlannedNote) -> bool {
    &&& a.pitch == b.pitch
    &&& a.at < b.at + b.dur
    &&& b.at < a.at + a.dur
}

/// Whether any note of one row collides with one of another.
pub open spec fn any_collide(a: Seq<PlannedNote>, b: Seq<PlannedNote>) -> bool {
    exists|i: int, j: int|
        0 <= i < a.len() && 0 <= j < b.len() && collide(#[trigger] a[i], #[trigger] b[j])
}

/// Whether two rows are one sound at one level.
pub open spec fn alike(a: PlanView, b: PlanView) -> bool {
    identical(a.source, b.source) && equal_numbers(a.gain, b.gain)
}

/// Whether the instance that plays a group of rows can play one more. The first
/// row of a group is the one it is named by.
pub open spec fn can_join(plans: Seq<PlanView>, group: Seq<int>, i: int) -> bool {
    &&& alike(plans[group[0]], plans[i])
    &&& forall|p: int|
        0 <= p < group.len() ==> !any_collide(plans[#[trigger] group[p]].notes, plans[i].notes)
}

/// The first group, from the one at `k` on, that a row can join; past the last
/// if there is none.
pub open spec fn group_for(plans: Seq<PlanView>, groups: Seq<Seq<int>>, i: int, k: int) -> int
    decreases groups.len() - k,
{
    if k >= groups.len() {
        groups.len() as int
    } else if can_join(plans, groups[k], i) {
        k
    } else {
        group_for(plans, groups, i, k + 1)
    }
}

/// Groups with one more row.
pub open spec fn with_row(plans: Seq<PlanView>, groups: Seq<Seq<int>>, i: int) -> Seq<Seq<int>> {
    let k = group_for(plans, groups, i, 0);
    if k < groups.len() {
        groups.update(k, groups[k].push(i))
    } else {
        groups.push(seq![i])
    }
}

/// The first `n` rows in groups that one instance can play, by place.
pub open spec fn groups_of(plans: Seq<PlanView>, n: int) -> Seq<Seq<int>>
    decreases n,
{
    if n <= 0 {
        Seq::empty()
    } else {
        with_row(plans, groups_of(plans, n - 1), n - 1)
    }
}

proof fn lemma_group_for(plans: Seq<PlanView>, groups: Seq<Seq<int>>, i: int, k: int)
    requires
        0 <= k <= groups.len(),
    ensures
        k <= group_for(plans, groups, i, k) <= groups.len(),
        group_for(plans, groups, i, k) < groups.len() ==> can_join(
            plans,
            groups[group_for(plans, groups, i, k)],
            i,
        ),
    decreases groups.len() - k,
{
    if k < groups.len() && !can_join(plans, groups[k], i) {
        lemma_group_for(plans, groups, i, k + 1);
    }
}

/// Whether every group is one sound at one level without a collision.
pub open spec fn safe(plans: Seq<PlanView>, groups: Seq<Seq<int>>) -> bool {
    &&& forall|g: int, q: int|
        0 <= g < groups.len() && 1 <= q < groups[g].len() ==> alike(
            plans[groups[g][0]],
            plans[#[trigger] groups[g][q]],
        )
    &&& forall|g: int, p: int, q: int|
        0 <= g < groups.len() && 0 <= p < q < groups[g].len() ==> !any_collide(
            plans[#[trigger] groups[g][p]].notes,
            plans[#[trigger] groups[g][q]].notes,
        )
}

/// Whether a row is in a group.
pub open spec fn is_in(groups: Seq<Seq<int>>, g: int, i: int) -> bool {
    0 <= g < groups.len() && groups[g].contains(i)
}

/// Whether a row is in any group.
pub open spec fn is_grouped(groups: Seq<Seq<int>>, i: int) -> bool {
    exists|g: int| #[trigger] is_in(groups, g, i)
}

/// Whether the first `n` rows are each in one group, once, and every group has a
/// row.
pub open spec fn partition(groups: Seq<Seq<int>>, n: int) -> bool {
    &&& forall|g: int, p: int|
        0 <= g < groups.len() && 0 <= p < groups[g].len() ==> 0 <= #[trigger] groups[g][p] < n
    &&& forall|g: int| 0 <= g < groups.len() ==> (#[trigger] groups[g]).len() > 0
    &&& forall|i: int| 0 <= i < n ==> #[trigger] is_grouped(groups, i)
    &&& forall|g: int, p: int, h: int, q: int|
        0 <= g < groups.len() && 0 <= p < groups[g].len() && 0 <= h < groups.len() && 0 <= q
            < groups[h].len() && #[trigger] groups[g][p] == #[trigger] groups[h][q] ==> g == h && p
            == q
}

proof fn lemma_safe_step(plans: Seq<PlanView>, groups: Seq<Seq<int>>, i: int)
    requires
        safe(plans, groups),
        forall|g: int| 0 <= g < groups.len() ==> (#[trigger] groups[g]).len() > 0,
    ensures
        safe(plans, with_row(plans, groups, i)),
{
    lemma_group_for(plans, groups, i, 0);
    let k = group_for(plans, groups, i, 0);
    let after = with_row(plans, groups, i);
    assert forall|g: int, q: int| 0 <= g < after.len() && 1 <= q < after[g].len() implies alike(
        plans[after[g][0]],
        plans[#[trigger] after[g][q]],
    ) by {
        if g < groups.len() && q < groups[g].len() {
            assert(after[g][q] == groups[g][q]);
            assert(after[g][0] == groups[g][0]);
        } else {
            assert(g == k);
            assert(after[g][0] == groups[g][0]);
        }
    }
    assert forall|g: int, p: int, q: int|
        0 <= g < after.len() && 0 <= p < q < after[g].len() implies !any_collide(
        plans[#[trigger] after[g][p]].notes,
        plans[#[trigger] after[g][q]].notes,
    ) by {
        if g < groups.len() && q < groups[g].len() {
            assert(after[g][q] == groups[g][q]);
            assert(after[g][p] == groups[g][p]);
        } else {
            assert(g == k);
            assert(after[g][p] == groups[g][p]);
            assert(after[g][q] == i);
        }
    }
}

proof fn lemma_partition_step(plans: Seq<PlanView>, groups: Seq<Seq<int>>, n: int)
    requires
        n >= 0,
        partition(groups, n),
    ensures
        partition(with_row(plans, groups, n), n + 1),
{
    lemma_group_for(plans, groups, n, 0);
    let k = group_for(plans, groups, n, 0);
    let after = with_row(plans, groups, n);
    let p0 = if k < groups.len() {
        groups[k].len() as int
    } else {
        0
    };
    assert forall|g: int, p: int|
        0 <= g < after.len() && 0 <= p < after[g].len() implies 0 <= #[trigger] after[g][p] < n + 1
        && ((g != k || p != p0) ==> g < groups.len() && p < groups[g].len() && after[g][p]
        == groups[g][p] && after[g][p] < n) && ((g == k && p == p0) ==> after[g][p] == n) by {
        if g < groups.len() && p < groups[g].len() {
            assert(after[g][p] == groups[g][p]);
        }
    }
    assert forall|i: int| 0 <= i < n + 1 implies #[trigger] is_grouped(after, i) by {
        if i < n {
            assert(is_grouped(groups, i));
            let g = choose|g: int| #[trigger] is_in(groups, g, i);
            let p = choose|p: int| 0 <= p < groups[g].len() && groups[g][p] == i;
            assert(after[g][p] == i);
            assert(is_in(after, g, i));
        } else {
            assert(after[k][p0] == n);
            assert(is_in(after, k, i));
        }
    }
    assert forall|g: int, p: int, h: int, q: int|
        0 <= g < after.len() && 0 <= p < after[g].len() && 0 <= h < after.len() && 0 <= q
            < after[h].len() && #[trigger] after[g][p] == #[trigger] after[h][q] implies g == h
        && p == q by {
        if (g != k || p != p0) && (h != k || q != p0) {
            assert(groups[g][p] == groups[h][q]);
        }
    }
}

/// However rows are grouped, each is played once, and no group would be heard:
/// every row of it is the same sound at the same level, and no two of its rows
/// sound one pitch at once.
pub proof fn law_sharing_changes_nothing(plans: Seq<PlanView>, n: int)
    requires
        0 <= n,
    ensures
        partition(groups_of(plans, n), n),
        safe(plans, groups_of(plans, n)),
    decreases n,
{
    if n > 0 {
        law_sharing_changes_nothing(plans, n - 1);
        lemma_partition_step(plans, groups_of(plans, n - 1), n - 1);
        lemma_safe_step(plans, groups_of(plans, n - 1), n - 1);
    }
}

/// Rows that no one shares with come out as they went in, one group each.
pub proof fn law_unrelated_rows_stay_apart(plans: Seq<PlanView>, n: int)
    requires
        0 <= n,
        forall|i: int, j: int| 0 <= i < j < n ==> !alike(#[trigger] plans[i], #[trigger] plans[j]),
    ensures
        groups_of(plans, n) == Seq::new(n as nat, |i: int| seq![i]),
    decreases n,
{
    if n > 0 {
        law_unrelated_rows_stay_apart(plans, n - 1);
        let before = groups_of(plans, n - 1);
        lemma_group_for(plans, before, n - 1, 0);
        let k = group_for(plans, before, n - 1, 0);
        if k < before.len() {
            assert(before[k][0] == k);
            assert(alike(plans[k], plans[n - 1]));
        }
        assert(groups_of(plans, n) =~= Seq::new(n as nat, |i: int| seq![i]));
    } else {
        assert(groups_of(plans, n) =~= Seq::new(0, |i: int| seq![i]));
    }
}

impl PlannedNote {
    /// Whether this note sounds at the same time as `other` on the same pitch.
    pub fn collides_with(&self, other: &PlannedNote) -> (r: bool)
        ensures
            r == collide(*self, *other),
    {
        self.pitch == other.pitch && (self.at as i128) < other.at as i128 + other.dur as i128 && (
        other.at as i128) < self.at as i128 + self.dur as i128
    }
}

/// Whether any note of `a` sounds at the same time as one of `b` on the same
/// pitch.
pub fn notes_collide(a: &Vec<PlannedNote>, b: &Vec<PlannedNote>) -> (r: bool)
    ensures
        r == any_collide(a@, b@),
{
    let mut i: usize = 0;
    while i < a.len()
        invariant
            i <= a.len(),
            forall|x: int, y: int|
                0 <= x < i && 0 <= y < b@.len() ==> !collide(#[trigger] a@[x], #[trigger] b@[y]),
        decreases a.len() - i,
    {
        let mut j: usize = 0;
        while j < b.len()
            invariant
                i < a.len(),
                j <= b.len(),
                forall|y: int| 0 <= y < j ==> !collide(a@[i as int], #[trigger] b@[y]),
            decreases b.len() - j,
        {
            if a[i].collides_with(&b[j]) {
                assert(collide(a@[i as int], b@[j as int]));
                return true;
            }
            j += 1;
        }
        i += 1;
    }
    false
}

/// The groups as places.
pub open spec fn places(v: Seq<Vec<usize>>) -> Seq<Seq<int>> {
    v.map_values(|g: Vec<usize>| g@.map_values(|i: usize| i as int))
}

/// Whether the instance that plays a group can play one more row.
fn joins(plans: &Vec<RowPlan>, group: &Vec<usize>, i: usize) -> (r: bool)
    requires
        i < plans@.len(),
        group@.len() > 0,
        forall|p: int| 0 <= p < group@.len() ==> (#[trigger] group@[p]) < plans@.len(),
    ensures
        r == can_join(plans_view(plans@), group@.map_values(|i: usize| i as int), i as int),
{
    let ghost pv = plans_view(plans@);
    let ghost gv = group@.map_values(|i: usize| i as int);
    let host = &plans[group[0]];
    let plan = &plans[i];
    assert(pv[gv[0]] == host@ && pv[i as int] == plan@);
    if !host.source.same_recipe(&plan.source) || !same_number(host.gain, plan.gain) {
        return false;
    }
    let mut p: usize = 0;
    while p < group.len()
        invariant
            p <= group.len(),
            i < plans@.len(),
            plan@ == plans@[i as int]@,
            pv == plans_view(plans@),
            gv == group@.map_values(|i: usize| i as int),
            forall|p: int| 0 <= p < group@.len() ==> (#[trigger] group@[p]) < plans@.len(),
            forall|q: int|
                0 <= q < p ==> !any_collide(pv[#[trigger] gv[q]].notes, pv[i as int].notes),
        decreases group.len() - p,
    {
        assert(gv[p as int] == group@[p as int]);
        let other = &plans[group[p]];
        assert(pv[gv[p as int]] == other@);
        if notes_collide(&other.notes, &plan.notes) {
            assert(any_collide(pv[gv[p as int]].notes, pv[i as int].notes));
            return false;
        }
        p += 1;
    }
    true
}

/// Which rows can be played by one plugin instance, as groups of places in
/// `plans`. First-fit, in row order.
pub fn share_groups(plans: &Vec<RowPlan>) -> (r: Vec<Vec<usize>>)
    ensures
        places(r@) == groups_of(plans_view(plans@), plans@.len() as int),
{
    let ghost pv = plans_view(plans@);
    let mut groups: Vec<Vec<usize>> = Vec::new();
    let mut i: usize = 0;
    assert(places(groups@) =~= groups_of(pv, 0));
    while i < plans.len()
        invariant
            i <= plans.len(),
            pv == plans_view(plans@),
            places(groups@) == groups_of(pv, i as int),
            forall|g: int| 0 <= g < groups@.len() ==> (#[trigger] groups@[g])@.len() > 0,
            forall|g: int, p: int|
                0 <= g < groups@.len() && 0 <= p < groups@[g]@.len() ==> (#[trigger] groups@[g]@[p])
                    < i,
        decreases plans.len() - i,
    {
        let ghost before = places(groups@);
        let mut k: usize = 0;
        while k < groups.len() && !joins(plans, &groups[k], i)
            invariant
                k <= groups.len(),
                i < plans.len(),
                pv == plans_view(plans@),
                before == places(groups@),
                forall|g: int| 0 <= g < groups@.len() ==> (#[trigger] groups@[g])@.len() > 0,
                forall|g: int, p: int|
                    0 <= g < groups@.len() && 0 <= p < groups@[g]@.len() ==> (
                    #[trigger] groups@[g]@[p]) < i,
                group_for(pv, before, i as int, 0) == group_for(pv, before, i as int, k as int),
            decreases groups.len() - k,
        {
            assert(before[k as int] == groups@[k as int]@.map_values(|i: usize| i as int));
            k += 1;
        }
        proof {
            if k < groups@.len() {
                assert(before[k as int] == groups@[k as int]@.map_values(|i: usize| i as int));
            }
            assert(group_for(pv, before, i as int, 0) == k);
        }
        let ghost was = groups@;
        if k < groups.len() {
            groups[k].push(i);
            proof {
                assert(groups@[k as int]@.map_values(|i: usize| i as int) =~= before[k as int].push(
                    i as int,
                ));
                assert(places(groups@) =~= before.update(
                    k as int,
                    before[k as int].push(i as int),
                ));
            }
        } else {
            let mut fresh: Vec<usize> = Vec::new();
            fresh.push(i);
            groups.push(fresh);
            proof {
                assert(fresh@.map_values(|i: usize| i as int) =~= seq![i as int]);
                assert(places(groups@) =~= before.push(seq![i as int]));
            }
        }
        proof {
            assert forall|g: int, p: int|
                0 <= g < groups@.len() && 0 <= p < groups@[g]@.len() implies (
            #[trigger] groups@[g]@[p]) < i + 1 by {
                if g < was.len() && p < was[g]@.len() {
                    assert(groups@[g]@[p] == was[g]@[p]);
                } else {
                    assert(groups@[g]@[p] == i);
                }
            }
        }
        i += 1;
    }
    groups
}

/// Whether a path is among some.
pub open spec fn has_path(s: Seq<Seq<char>>, path: Seq<char>) -> bool {
    exists|k: int| 0 <= k < s.len() && same_path(#[trigger] s[k], path)
}

/// The libraries that the first `n` plans load, each once, in the order they
/// are first named.
pub open spec fn libraries(plans: Seq<PlanView>, n: int) -> Seq<Seq<char>>
    decreases n,
{
    if n <= 0 {
        Seq::empty()
    } else {
        let before = libraries(plans, n - 1);
        let path = plans[n - 1].source.plugin_path;
        if has_path(before, path) {
            before
        } else {
            before.push(path)
        }
    }
}

/// What strings say.
pub open spec fn strings_view(s: Seq<String>) -> Seq<Seq<char>> {
    s.map_values(|t: String| t@)
}

/// Whether a path is among some.
fn lists_path(v: &Vec<String>, path: &str) -> (r: bool)
    ensures
        r == has_path(strings_view(v@), path@),
{
    let mut i: usize = 0;
    while i < v.len()
        invariant
            i <= v.len(),
            forall|k: int| 0 <= k < i ==> !same_path(#[trigger] strings_view(v@)[k], path@),
        decreases v.len() - i,
    {
        if is_same_path(v[i].as_str(), path) {
            assert(same_path(strings_view(v@)[i as int], path@));
            return true;
        }
        i += 1;
    }
    false
}

/// The libraries to open, one module for each: that is what a module is for.
pub fn distinct_libraries(plans: &Vec<RowPlan>) -> (r: Vec<String>)
    ensures
        strings_view(r@) == libraries(plans_view(plans@), plans@.len() as int),
{
    let ghost pv = plans_view(plans@);
    let mut out: Vec<String> = Vec::new();
    let mut i: usize = 0;
    assert(strings_view(out@) =~= libraries(pv, 0));
    while i < plans.len()
        invariant
            i <= plans.len(),
            pv == plans_view(plans@),
            strings_view(out@) == libraries(pv, i as int),
        decreases plans.len() - i,
    {
        let path = plans[i].source.plugin_path.as_str();
        assert(pv[i as int] == plans@[i as int]@);
        let ghost before = strings_view(out@);
        if !lists_path(&out, path) {
            out.push(path.to_owned());
            assert(strings_view(out@) =~= before.push(path@));
        }
        i += 1;
    }
    out
}

/// Every library is opened once, and none is missed.
pub proof fn law_a_library_is_opened_once(plans: Seq<PlanView>, n: int)
    requires
        0 <= n <= plans.len(),
    ensures
        forall|i: int|
            0 <= i < n ==> has_path(libraries(plans, n), (#[trigger] plans[i]).source.plugin_path),
        forall|a: int, b: int|
            0 <= a < b < libraries(plans, n).len() ==> !same_path(
                #[trigger] libraries(plans, n)[a],
                #[trigger] libraries(plans, n)[b],
            ),
    decreases n,
{
    if n > 0 {
        law_a_library_is_opened_once(plans, n - 1);
        let before = libraries(plans, n - 1);
        let path = plans[n - 1].source.plugin_path;
        let all = libraries(plans, n);
        assert forall|i: int| 0 <= i < n implies has_path(
            all,
            (#[trigger] plans[i]).source.plugin_path,
        ) by {
            let x = plans[i].source.plugin_path;
            if i < n - 1 {
                let k = choose|k: int| 0 <= k < before.len() && same_path(#[trigger] before[k], x);
                assert(all[k] == before[k]);
            } else if !has_path(before, path) {
                assert(same_path(all[all.len() - 1], path));
            }
        }
        if !has_path(before, path) {
            assert forall|a: int, b: int| 0 <= a < b < all.len() implies !same_path(
                #[trigger] all[a],
                #[trigger] all[b],
            ) by {
                assert(all[a] == before[a]);
                if b < before.len() {
                    assert(all[b] == before[b]);
                }
            }
        }
    }
}

/// Whether a fresh instance has to be given the state that was saved: only where
/// it would change something, because restoring is not free.
pub fn needs_restore(saved: &Option<Vec<u8>>, current: &Option<Vec<u8>>) -> (r: bool)
    ensures
        r == (match (*saved, *current) {
            (Some(s), Some(c)) => s@ != c@,
            (Some(_), None) => true,
            (None, _) => false,
        }),
{
    match (saved, current) {
        (Some(s), Some(c)) => !crate::bytes::same_bytes(s, c),
        (Some(_), None) => true,
        (None, _) => false,
    }
}

/// Two notes collide exactly when one pitch would sound in both at some instant.
pub proof fn law_what_collides(a: PlannedNote, b: PlannedNote)
    requires
        a.dur > 0,
        b.dur > 0,
    ensures
        collide(a, b) <==> a.pitch == b.pitch && exists|t: int|
            #![trigger identity(t)]
            a.at <= identity(t) < a.at + a.dur && b.at <= t < b.at + b.dur,
        collide(a, b) == collide(b, a),
{
    if collide(a, b) {
        let t: int = if a.at > b.at {
            a.at as int
        } else {
            b.at as int
        };
        assert(a.at <= identity(t) < a.at + a.dur && b.at <= t < b.at + b.dur);
    }
}

/// An instant, as it is.
pub open spec fn identity(t: int) -> int {
    t
}

/// Two rows share only where both are one sound and one level, and no note of one
/// collides with a note of the other.
pub proof fn law_what_lets_a_row_join(plans: Seq<PlanView>, group: Seq<int>, i: int)
    ensures
        can_join(plans, group, i) <==> identical(plans[group[0]].source, plans[i].source)
            && equal_numbers(plans[group[0]].gain, plans[i].gain) && forall|p: int, x: int, y: int|
            0 <= p < group.len() && 0 <= x < plans[group[p]].notes.len() && 0 <= y
                < plans[i].notes.len() ==> !collide(
                #[trigger] plans[group[p]].notes[x],
                #[trigger] plans[i].notes[y],
            ),
{
    if can_join(plans, group, i) {
        assert forall|p: int, x: int, y: int|
            0 <= p < group.len() && 0 <= x < plans[group[p]].notes.len() && 0 <= y
                < plans[i].notes.len() implies !collide(
            #[trigger] plans[group[p]].notes[x],
            #[trigger] plans[i].notes[y],
        ) by {
            assert(!any_collide(plans[group[p]].notes, plans[i].notes));
        }
    }
    if forall|p: int, x: int, y: int|
        0 <= p < group.len() && 0 <= x < plans[group[p]].notes.len() && 0 <= y
            < plans[i].notes.len() ==> !collide(
            #[trigger] plans[group[p]].notes[x],
            #[trigger] plans[i].notes[y],
        ) {
        assert forall|p: int| 0 <= p < group.len() implies !any_collide(
            plans[#[trigger] group[p]].notes,
            plans[i].notes,
        ) by {}
    }
}

/// A row stands in the first group that could take it when it came: of any group
/// before its own, either the first row is another sound or another level, or a row
/// that had come before collides with it. Rows stand in a group in the order they
/// came.
pub proof fn law_a_row_joins_the_first_that_takes_it(plans: Seq<PlanView>, n: int)
    requires
        0 <= n,
    ensures
        forall|h: int, g: int, p: int|
            0 <= h < g < groups_of(plans, n).len() && 0 <= p < groups_of(plans, n)[g].len() ==> {
                ||| !alike(
                    plans[groups_of(plans, n)[h][0]],
                    plans[#[trigger] groups_of(plans, n)[g][p]],
                )
                ||| exists|q: int|
                    0 <= q < groups_of(plans, n)[h].len() && groups_of(plans, n)[h][q]
                        < groups_of(plans, n)[g][p] && any_collide(
                        plans[#[trigger] groups_of(plans, n)[h][q]].notes,
                        plans[groups_of(plans, n)[g][p]].notes,
                    )
            } || #[trigger] groups_of(plans, n)[h].len() == 0,
        forall|g: int, p: int, q: int|
            0 <= g < groups_of(plans, n).len() && 0 <= p < q < groups_of(plans, n)[g].len()
                ==> #[trigger] groups_of(plans, n)[g][p] < #[trigger] groups_of(plans, n)[g][q],
    decreases n,
{
    law_sharing_changes_nothing(plans, n);
    if n > 0 {
        law_sharing_changes_nothing(plans, n - 1);
        law_a_row_joins_the_first_that_takes_it(plans, n - 1);
        let groups = groups_of(plans, n - 1);
        let after = groups_of(plans, n);
        let i = n - 1;
        let k = group_for(plans, groups, i, 0);
        lemma_group_for(plans, groups, i, 0);
        assert forall|h: int, g: int, p: int|
            0 <= h < g < after.len() && 0 <= p < after[g].len() implies {
            ||| !alike(plans[after[h][0]], plans[#[trigger] after[g][p]])
            ||| exists|q: int|
                0 <= q < after[h].len() && after[h][q] < after[g][p] && any_collide(
                    plans[#[trigger] after[h][q]].notes,
                    plans[after[g][p]].notes,
                )
        } || #[trigger] after[h].len() == 0 by {
            assert(h < groups.len());
            assert(groups[h].len() > 0);
            assert(after[h][0] == groups[h][0]);
            if g < groups.len() && p < groups[g].len() {
                assert(after[g][p] == groups[g][p]);
                if alike(plans[groups[h][0]], plans[groups[g][p]]) {
                    let q = choose|q: int|
                        0 <= q < groups[h].len() && groups[h][q] < groups[g][p] && any_collide(
                            plans[#[trigger] groups[h][q]].notes,
                            plans[groups[g][p]].notes,
                        );
                    assert(after[h][q] == groups[h][q]);
                }
            } else {
                assert(after[g][p] == i && g == k);
                lemma_no_group_before(plans, groups, i, 0, h);
                if alike(plans[groups[h][0]], plans[i]) {
                    let q = choose|q: int|
                        0 <= q < groups[h].len() && any_collide(
                            plans[#[trigger] groups[h][q]].notes,
                            plans[i].notes,
                        );
                    assert(after[h][q] == groups[h][q]);
                }
            }
        }
        assert forall|g: int, p: int, q: int|
            0 <= g < after.len() && 0 <= p < q < after[g].len() implies #[trigger] after[g][p]
            < #[trigger] after[g][q] by {
            assert(after[g][p] == groups[g][p]);
            if q < groups[g].len() {
                assert(after[g][q] == groups[g][q]);
            } else {
                assert(after[g][q] == i);
            }
        }
    }
}

proof fn lemma_no_group_before(
    plans: Seq<PlanView>,
    groups: Seq<Seq<int>>,
    i: int,
    k: int,
    h: int,
)
    requires
        0 <= k <= h < group_for(plans, groups, i, k),
        h < groups.len(),
    ensures
        !can_join(plans, groups[h], i),
    decreases groups.len() - k,
{
    if k < h {
        lemma_no_group_before(plans, groups, i, k + 1, h);
    }
}

/// A library that is opened is one that a row names, and rows that come later
/// change nothing of those before.
pub proof fn law_only_named_libraries_are_opened(plans: Seq<PlanView>, n: int)
    requires
        0 <= n <= plans.len(),
    ensures
        forall|k: int|
            0 <= k < libraries(plans, n).len() ==> exists|i: int|
                0 <= i < n && (#[trigger] plans[i]).source.plugin_path
                    == #[trigger] libraries(plans, n)[k],
        n > 0 ==> libraries(plans, n - 1).is_prefix_of(libraries(plans, n)),
    decreases n,
{
    if n > 0 {
        law_only_named_libraries_are_opened(plans, n - 1);
        let before = libraries(plans, n - 1);
        let all = libraries(plans, n);
        assert forall|k: int| 0 <= k < all.len() implies exists|i: int|
            0 <= i < n && (#[trigger] plans[i]).source.plugin_path == #[trigger] all[k] by {
            if k < before.len() {
                assert(all[k] == before[k]);
            } else {
                assert(plans[n - 1].source.plugin_path == all[k]);
            }
        }
    }
}

/// What is seen of plans, of groups and of texts is what they are, one by one.
pub proof fn law_what_is_seen_of_plans(
    plans: Seq<RowPlan>,
    groups: Seq<Vec<usize>>,
    texts: Seq<String>,
    i: int,
)
    ensures
        plans_view(plans).len() == plans.len(),
        places(groups).len() == groups.len(),
        strings_view(texts).len() == texts.len(),
        0 <= i < plans.len() ==> {
            let v = plans_view(plans)[i];
            v.row_id == plans[i].row_id && v.source == plans[i].source@ && v.gain == plans[i].gain
                && v.notes == plans[i].notes@
        },
        0 <= i < groups.len() ==> places(groups)[i].len() == groups[i]@.len() && forall|p: int|
            0 <= p < groups[i]@.len() ==> #[trigger] places(groups)[i][p] == groups[i]@[p],
        0 <= i < texts.len() ==> strings_view(texts)[i] == texts[i]@,
{
}

} // verus!
