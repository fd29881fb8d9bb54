//! Repeating and moving stretches of frames.
//!
//! A copy of a stretch has to land exactly where arithmetic puts it, on every
//! row at once. Silence that no single length can say is therefore laid out over
//! frames that play nothing, and never rounded.

use vstd::prelude::*;

use super::length::{
    exact, law_a_split_adds_up_exactly, lemma_exact_sound, split_lengths, total_span, zero_length,
    Duration, Fraction, MAX_SPAN,
};
use super::row::{
    ids_below, items_span, lemma_items_span_add, range_selection, same_but_frames, Item, Row,
};
use crate::number::ZERO;

verus! {

/// Extra silence put into a space: what the space becomes, and the lengths that
/// would not fit into it.
pub open spec fn gap_into(space: Duration, units: int) -> (Duration, Seq<Duration>) {
    if units <= 0 {
        (space, Seq::empty())
    } else if exact(space.span() + units) is Some {
        (exact(space.span() + units)->0, Seq::empty())
    } else {
        (space, split_lengths(units))
    }
}

/// Silence put into a space lands exactly: the space and what would not fit into
/// it are longer by just that much.
pub proof fn law_a_gap_lands_exactly(space: Duration, units: int)
    requires
        units >= 0,
    ensures
        ({
            let (after, extra) = gap_into(space, units);
            after.span() + total_span(extra) == space.span() + units
        }),
{
    if units > 0 {
        if exact(space.span() + units) is Some {
            lemma_exact_sound(space.span() + units);
        } else {
            law_a_split_adds_up_exactly(units);
        }
    }
}

/// Put `units` of extra silence into `space`, the space of whatever frame the
/// insertion follows, and report what would not fit.
pub fn add_gap(space: &mut Duration, units: i64) -> (r: Vec<Duration>)
    requires
        units <= i64::MAX - MAX_SPAN,
    ensures
        *final(space) == gap_into(*old(space), units as int).0,
        r@ == gap_into(*old(space), units as int).1,
        units >= 0 ==> final(space).span() + total_span(r@) == old(space).span() + units,
{
    proof {
        if units >= 0 {
            law_a_gap_lands_exactly(*old(space), units as int);
        }
    }
    if units <= 0 {
        return Vec::new();
    }
    match Duration::exact(space.units() + units) {
        Some(d) => {
            *space = d;
            Vec::new()
        },
        None => Duration::split(units),
    }
}

/// A frame that is nothing but silence.
pub open spec fn silent_item(id: u64, pitch: u8, space: Duration) -> Item {
    Item { id, pitch, start: ZERO, dur: zero_length(), space }
}

/// A frame that is nothing but silence: a note of no length carrying `space`
/// behind it.
pub fn spacer(id: u64, pitch: u8, space: Duration) -> (r: Item)
    ensures
        r == silent_item(id, pitch, space),
        r.span() == space.span(),
{
    Item { id, pitch, start: ZERO, dur: Duration::new(0, Fraction::Zero), space }
}

/// Silent frames for lengths, with ids counting up.
pub open spec fn spacers(extra: Seq<Duration>, id: int, pitch: u8) -> Seq<Item> {
    Seq::new(extra.len(), |i: int| silent_item((id + i) as u64, pitch, extra[i]))
}

/// The same frames with new ids, counting up.
pub open spec fn renumbered(src: Seq<Item>, id: int) -> Seq<Item> {
    Seq::new(src.len(), |i: int| Item { id: (id + i) as u64, ..src[i] })
}

/// A chain with silence put into the space of its last frame.
pub open spec fn with_gap(head: Seq<Item>, gap: int) -> Seq<Item> {
    head.update(
        head.len() - 1,
        Item { space: gap_into(head.last().space, gap).0, ..head.last() },
    )
}

/// A chain with a copy of `src` behind it, `gap` units on.
pub open spec fn one_copy(head: Seq<Item>, src: Seq<Item>, gap: int, id: int) -> Seq<Item> {
    let extra = gap_into(head.last().space, gap).1;
    with_gap(head, gap) + spacers(extra, id, src[0].pitch) + renumbered(src, id + extra.len())
}

/// A chain with `times` copies of `src` behind it, each `gap` units on from the
/// one before.
pub open spec fn copies(head: Seq<Item>, src: Seq<Item>, gap: int, times: nat, id: int) -> Seq<Item>
    decreases times,
{
    if times == 0 {
        head
    } else {
        let h = copies(head, src, gap, (times - 1) as nat, id);
        one_copy(h, src, gap, id + h.len() - head.len())
    }
}

pub proof fn lemma_spacers_span(extra: Seq<Duration>, id: int, pitch: u8)
    ensures
        items_span(spacers(extra, id, pitch)) == total_span(extra),
    decreases extra.len(),
{
    let s = spacers(extra, id, pitch);
    if extra.len() > 0 {
        lemma_spacers_span(extra.drop_last(), id, pitch);
        assert(s.drop_last() =~= spacers(extra.drop_last(), id, pitch));
    }
}

pub proof fn lemma_renumbered_span(src: Seq<Item>, id: int)
    ensures
        items_span(renumbered(src, id)) == items_span(src),
    decreases src.len(),
{
    let s = renumbered(src, id);
    if src.len() > 0 {
        lemma_renumbered_span(src.drop_last(), id);
        assert(s.drop_last() =~= renumbered(src.drop_last(), id));
    }
}

/// What one copy does to a chain: it is longer by the gap and the frames copied.
pub proof fn lemma_one_copy(head: Seq<Item>, src: Seq<Item>, gap: int, id: int)
    requires
        head.len() > 0,
        src.len() > 0,
        gap >= 0,
    ensures
        ({
            let extra = gap_into(head.last().space, gap).1;
            let h = one_copy(head, src, gap, id);
            &&& h.len() == head.len() + extra.len() + src.len()
            &&& items_span(h) == items_span(head) + gap + items_span(src)
            &&& items_span(h.take((head.len() + extra.len()) as int)) == items_span(head) + gap
            &&& h.last().space == src.last().space
            &&& h.take(head.len() - 1) == head.take(head.len() - 1)
            &&& h.skip((head.len() + extra.len()) as int) == renumbered(src, id + extra.len())
        }),
{
    let (after, extra) = gap_into(head.last().space, gap);
    let g = with_gap(head, gap);
    let sp = spacers(extra, id, src[0].pitch);
    let re = renumbered(src, id + extra.len());
    let h = one_copy(head, src, gap, id);
    law_a_gap_lands_exactly(head.last().space, gap);
    lemma_spacers_span(extra, id, src[0].pitch);
    lemma_renumbered_span(src, id + extra.len());
    lemma_items_span_add(g, sp);
    lemma_items_span_add(g + sp, re);
    assert(g.drop_last() =~= head.drop_last());
    assert(h.take((head.len() + extra.len()) as int) =~= g + sp);
    assert(h.take(head.len() - 1) =~= head.take(head.len() - 1));
    assert(h.skip((head.len() + extra.len()) as int) =~= re);
}

/// What several copies do to a chain.
pub proof fn lemma_copies(head: Seq<Item>, src: Seq<Item>, gap: int, times: nat, id: int)
    requires
        head.len() > 0,
        src.len() > 0,
        gap >= 0,
        head.last().space == src.last().space,
    ensures
        ({
            let e = gap_into(src.last().space, gap).1.len();
            let h = copies(head, src, gap, times, id);
            &&& h.len() == head.len() + times * (e + src.len())
            &&& items_span(h) == items_span(head) + times * (gap + items_span(src))
            &&& h.last().space == src.last().space
            &&& h.take(head.len() - 1) == head.take(head.len() - 1)
        }),
    decreases times,
{
    let e = gap_into(src.last().space, gap).1.len();
    if times > 0 {
        let t = (times - 1) as nat;
        lemma_copies(head, src, gap, t, id);
        let h = copies(head, src, gap, t, id);
        lemma_one_copy(h, src, gap, id + h.len() - head.len());
        let a = (e + src.len()) as int;
        let w = gap + items_span(src);
        assert(times * a == t * a + a) by (nonlinear_arith)
            requires
                times == t + 1,
        ;
        assert(times * w == t * w + w) by (nonlinear_arith)
            requires
                times == t + 1,
        ;
        assert(t * a >= 0) by (nonlinear_arith)
            requires
                t >= 0,
                a >= 0,
        ;
        let n = copies(head, src, gap, times, id);
        assert(n.take(head.len() - 1) =~= n.take(h.len() - 1).take(head.len() - 1));
        assert(h.take(h.len() - 1).take(head.len() - 1) =~= h.take(head.len() - 1));
    } else {
        assert(0 * (e + src.len()) == 0) by (nonlinear_arith);
        assert(0 * (gap + items_span(src)) == 0) by (nonlinear_arith);
    }
}

/// Whether two frames play the same, their ids and the silence behind them
/// aside.
pub open spec fn same_note(a: Item, b: Item) -> bool {
    &&& a.pitch == b.pitch
    &&& a.start == b.start
    &&& a.dur == b.dur
}

/// The place of frame `i` of copy `c` in a chain of copies.
pub open spec fn copy_place(head: Seq<Item>, src: Seq<Item>, gap: int, c: int, i: int) -> int {
    let e = gap_into(src.last().space, gap).1.len();
    head.len() + (c - 1) * (e + src.len()) + e + i
}

/// Every frame of every copy is the frame it was copied from, and starts one gap
/// and one stretch further on than in the copy before.
pub proof fn lemma_copy_position(
    head: Seq<Item>,
    src: Seq<Item>,
    gap: int,
    times: nat,
    id: int,
    c: int,
    i: int,
)
    requires
        head.len() > 0,
        src.len() > 0,
        gap >= 0,
        head.last().space == src.last().space,
        1 <= c <= times,
        0 <= i < src.len(),
    ensures
        ({
            let h = copies(head, src, gap, times, id);
            let p = copy_place(head, src, gap, c, i);
            &&& 0 <= p < h.len()
            &&& same_note(h[p], src[i])
            &&& items_span(h.take(p)) == items_span(head) + (c - 1) * (gap + items_span(src)) + gap
                + items_span(src.take(i))
        }),
    decreases times,
{
    let t = (times - 1) as nat;
    let h = copies(head, src, gap, t, id);
    let base = id + h.len() - head.len();
    let n = copies(head, src, gap, times, id);
    let e = gap_into(src.last().space, gap).1.len();
    let p = copy_place(head, src, gap, c, i);
    lemma_copies(head, src, gap, t, id);
    lemma_one_copy(h, src, gap, base);
    let a = (e + src.len()) as int;
    assert(0 <= (c - 1) * a <= t * a) by (nonlinear_arith)
        requires
            1 <= c <= t + 1,
            a >= 0,
    ;
    if c == times {
        let re = renumbered(src, base + e);
        let cut = (h.len() + e) as int;
        assert(p == cut + i);
        assert(n[p] == n.skip(cut)[i]);
        assert(n.take(p) =~= n.take(cut) + re.take(i)) by {
            assert forall|k: int| 0 <= k < p implies n.take(p)[k] == (n.take(cut) + re.take(i))[k] by {
                if k >= cut {
                    assert(n[k] == n.skip(cut)[k - cut]);
                }
            }
        }
        lemma_items_span_add(n.take(cut), re.take(i));
        assert(re.take(i) =~= renumbered(src.take(i), base + e));
        lemma_renumbered_span(src.take(i), base + e);
    } else {
        lemma_copy_position(head, src, gap, t, id, c, i);
        assert(n.take(p) =~= n.take(h.len() - 1).take(p));
        assert(h.take(h.len() - 1).take(p) =~= h.take(p));
        if p < h.len() - 1 {
            assert(n[p] == n.take(h.len() - 1)[p]);
            assert(h[p] == h.take(h.len() - 1)[p]);
        } else {
            assert(n[p] == with_gap(h, gap)[p]);
        }
    }
}

/// Ids stay unique through a copy: the frames there keep theirs, and the frames
/// that come get theirs in order.
pub proof fn lemma_one_copy_ids(head: Seq<Item>, src: Seq<Item>, gap: int, id: int)
    requires
        head.len() > 0,
        src.len() > 0,
        0 <= id,
        id + gap_into(head.last().space, gap).1.len() + src.len() <= u64::MAX,
    ensures
        ids_below(head, id) ==> ids_below(
            one_copy(head, src, gap, id),
            id + gap_into(head.last().space, gap).1.len() + src.len(),
        ),
        forall|i: int|
            0 <= i < one_copy(head, src, gap, id).len() ==> (#[trigger] one_copy(
                head,
                src,
                gap,
                id,
            )[i]).id == (if i < head.len() {
                head[i].id as int
            } else {
                id + (i - head.len())
            }),
{
    let extra = gap_into(head.last().space, gap).1;
    let h = one_copy(head, src, gap, id);
    assert forall|i: int| 0 <= i < h.len() implies (#[trigger] h[i]).id == (if i < head.len() {
        head[i].id as int
    } else {
        id + (i - head.len())
    }) by {}
}

/// Behind a chain, put a copy of `src`, `gap` units on.
pub fn copy_behind(head: &mut Vec<Item>, next_id: &mut u64, src: &Vec<Item>, gap: i64)
    requires
        old(head)@.len() > 0,
        src@.len() > 0,
        gap <= i64::MAX - MAX_SPAN,
        *old(next_id) + gap_into(old(head)@.last().space, gap as int).1.len() + src@.len()
            <= u64::MAX,
    ensures
        final(head)@ == one_copy(old(head)@, src@, gap as int, *old(next_id) as int),
        *final(next_id) == *old(next_id) + gap_into(old(head)@.last().space, gap as int).1.len()
            + src@.len(),
{
    let n: usize = head.len();
    let mut last = head[n - 1];
    let extra = add_gap(&mut last.space, gap);
    head.set(n - 1, last);
    assert(head@ =~= with_gap(old(head)@, gap as int));
    append_frames(head, next_id, &extra, src);
}

/// Append silent frames for `extra`, then a copy of `src`, with fresh ids.
pub fn append_frames(
    out: &mut Vec<Item>,
    next_id: &mut u64,
    extra: &Vec<Duration>,
    src: &Vec<Item>,
)
    requires
        src@.len() > 0,
        *old(next_id) + extra@.len() + src@.len() <= u64::MAX,
    ensures
        final(out)@ == old(out)@ + spacers(extra@, *old(next_id) as int, src@[0].pitch)
            + renumbered(src@, *old(next_id) + extra@.len()),
        *final(next_id) == *old(next_id) + extra@.len() + src@.len(),
{
    let pitch: u8 = src[0].pitch;
    let ghost id0 = *next_id as int;
    let mut k: usize = 0;
    while k < extra.len()
        invariant
            k <= extra.len(),
            *next_id == id0 + k,
            id0 + extra@.len() + src@.len() <= u64::MAX,
            out@ == old(out)@ + spacers(extra@, id0, pitch).take(k as int),
        decreases extra.len() - k,
    {
        let id: u64 = *next_id;
        *next_id = id + 1;
        out.push(spacer(id, pitch, extra[k]));
        assert(out@ =~= old(out)@ + spacers(extra@, id0, pitch).take(k + 1));
        k += 1;
    }
    assert(spacers(extra@, id0, pitch).take(k as int) =~= spacers(extra@, id0, pitch));
    let ghost mid = out@;
    let ghost id1 = id0 + extra@.len();
    let mut i: usize = 0;
    while i < src.len()
        invariant
            i <= src.len(),
            *next_id == id1 + i,
            id1 + src@.len() <= u64::MAX,
            out@ == mid + renumbered(src@, id1).take(i as int),
        decreases src.len() - i,
    {
        let id: u64 = *next_id;
        *next_id = id + 1;
        out.push(Item { id, ..src[i] });
        assert(out@ =~= mid + renumbered(src@, id1).take(i + 1));
        i += 1;
    }
    assert(renumbered(src@, id1).take(i as int) =~= renumbered(src@, id1));
}

/// The frames at places `first` to `last` of a row.
pub open spec fn stretch(s: Seq<Item>, first: int, last: int) -> Seq<Item> {
    s.subrange(first, last + 1)
}

/// How many ids `times` copies of a stretch take.
pub open spec fn ids_for_copies(src: Seq<Item>, gap: int, times: int) -> int {
    times * (gap_into(src.last().space, gap).1.len() + src.len())
}

/// A row whose frames `first` to `last` have been repeated `times` over, in
/// place, each copy `gap` units behind the one before.
pub open spec fn repeated_items(
    s: Seq<Item>,
    next_id: int,
    first: int,
    last: int,
    gap: int,
    times: nat,
) -> Seq<Item> {
    copies(s.take(last + 1), stretch(s, first, last), gap, times, next_id) + s.skip(last + 1)
}

impl Row {
    /// Repeat the frames `first` to `last` `times` over, each copy `gap` units
    /// behind the one before, and select the last copy.
    pub fn repeat_frames(&mut self, first: usize, last: usize, gap: i64, times: u8)
        requires
            first <= last < old(self).items@.len(),
            0 <= gap <= i64::MAX - MAX_SPAN,
            times > 0,
            old(self).next_item_id + ids_for_copies(
                stretch(old(self).items@, first as int, last as int),
                gap as int,
                times as int,
            ) <= u64::MAX,
        ensures
            final(self).items@ == repeated_items(
                old(self).items@,
                old(self).next_item_id as int,
                first as int,
                last as int,
                gap as int,
                times as nat,
            ),
            final(self).next_item_id == old(self).next_item_id + ids_for_copies(
                stretch(old(self).items@, first as int, last as int),
                gap as int,
                times as int,
            ),
            ({
                let end = last + 1 + ids_for_copies(
                    stretch(old(self).items@, first as int, last as int),
                    gap as int,
                    times as int,
                );
                final(self).sel == range_selection(
                    final(self).items@,
                    end - (last - first + 1),
                    end - 1,
                )
            }),
            same_but_frames(*old(self), *final(self)),
            old(self).ids_unique() ==> final(self).ids_unique(),
    {
        let ghost was = self.items@;
        let ghost id0 = self.next_item_id as int;
        let ghost all = stretch(was, first as int, last as int);
        let ghost e = gap_into(all.last().space, gap as int).1.len();
        let ghost a = (e + all.len()) as int;
        let count: usize = self.items.len();
        let stop: usize = last + 1;
        let mut head: Vec<Item> = Vec::new();
        let mut i: usize = 0;
        while i < stop
            invariant
                i <= stop,
                stop == last + 1,
                last < was.len(),
                self.items@ == was,
                head@ == was.take(i as int),
            decreases stop - i,
        {
            head.push(self.items[i]);
            assert(head@ =~= was.take(i + 1));
            i += 1;
        }
        let ghost head0 = head@;
        let mut src: Vec<Item> = Vec::new();
        let mut j: usize = first;
        while j < stop
            invariant
                first <= j <= stop,
                stop == last + 1,
                last < was.len(),
                self.items@ == was,
                src@ == was.subrange(first as int, j as int),
            decreases stop - j,
        {
            src.push(self.items[j]);
            assert(src@ =~= was.subrange(first as int, j + 1));
            j += 1;
        }
        assert(src@ == all);
        assert(head0.last() == was[last as int] && all.last() == was[last as int]);
        let mut next: u64 = self.next_item_id;
        let mut c: u8 = 0;
        assert(0 * a == 0) by (nonlinear_arith);
        while c < times
            invariant
                c <= times,
                src@ == all,
                all.len() > 0,
                head0.len() > 0,
                head0.last().space == all.last().space,
                e == gap_into(all.last().space, gap as int).1.len(),
                a == e + all.len(),
                0 <= gap <= i64::MAX - MAX_SPAN,
                id0 >= 0,
                id0 + times * a <= u64::MAX,
                head@ == copies(head0, all, gap as int, c as nat, id0),
                next == id0 + c * a,
                ids_below(head0, id0) ==> ids_below(head@, next as int),
                head@.len() >= head0.len(),
                forall|i: int|
                    0 <= i < head@.len() ==> (if i < head0.len() {
                        (#[trigger] head@[i]).id == head0[i].id
                    } else {
                        head@[i].id >= id0
                    }),
            decreases times - c,
        {
            proof {
                lemma_copies(head0, all, gap as int, c as nat, id0);
                assert((c + 1) * a == c * a + a && (c + 1) * a <= times * a) by (nonlinear_arith)
                    requires
                        c + 1 <= times,
                        a >= 0,
                ;
                lemma_one_copy_ids(head@, all, gap as int, next as int);
            }
            copy_behind(&mut head, &mut next, &src, gap);
            c += 1;
        }
        proof {
            lemma_copies(head0, all, gap as int, times as nat, id0);
        }
        let ghost h = head@;
        let mut t: usize = stop;
        while t < self.items.len()
            invariant
                stop == last + 1,
                stop <= t <= self.items.len(),
                self.items@ == was,
                head@ == h + was.subrange(last + 1, t as int),
            decreases self.items.len() - t,
        {
            head.push(self.items[t]);
            assert(head@ =~= h + was.subrange(last + 1, t + 1));
            t += 1;
        }
        assert(was.subrange(last + 1, was.len() as int) =~= was.skip(last + 1));
        proof {
            if ids_below(was, id0) {
                lemma_tail_ids(was, h, last as int, id0, next as int);
            }
        }
        let behind: usize = count - stop;
        let end: usize = head.len() - behind;
        self.items = head;
        self.next_item_id = next;
        self.select_range(end - src.len(), end - 1);
    }
}

proof fn lemma_tail_ids(was: Seq<Item>, h: Seq<Item>, last: int, id0: int, next: int)
    requires
        0 <= last < was.len(),
        ids_below(was, id0),
        ids_below(h, next),
        id0 <= next,
        h.len() > last,
        forall|i: int| 0 <= i <= last ==> (#[trigger] h[i]).id == was[i].id,
        forall|i: int| last < i < h.len() ==> (#[trigger] h[i]).id >= id0,
    ensures
        ids_below(h + was.skip(last + 1), next),
{
    let all = h + was.skip(last + 1);
    assert forall|i: int, j: int| 0 <= i < j < all.len() implies (#[trigger] all[i]).id != (
    #[trigger] all[j]).id by {
        if i >= h.len() {
            assert(all[i] == was[i - h.len() + last + 1]);
            assert(all[j] == was[j - h.len() + last + 1]);
        } else if j >= h.len() {
            assert(all[j] == was[j - h.len() + last + 1]);
        }
    }
    assert forall|i: int| 0 <= i < all.len() implies (#[trigger] all[i]).id < next by {
        if i >= h.len() {
            assert(all[i] == was[i - h.len() + last + 1]);
        }
    }
}

/// Repeating a stretch in place moves everything on by whole stretches: each
/// frame of copy `c` starts `c` stretches behind the frame it repeats, what
/// followed the stretch starts `times` stretches later, and nothing before it
/// moves. A stretch here is the frames' own length and the gap.
pub proof fn law_a_repeat_moves_on_by_whole_stretches(
    s: Seq<Item>,
    next_id: int,
    first: int,
    last: int,
    gap: int,
    times: nat,
)
    requires
        0 <= first <= last < s.len(),
        gap >= 0,
    ensures
        ({
            let src = stretch(s, first, last);
            let window = gap + items_span(src);
            let r = repeated_items(s, next_id, first, last, gap, times);
            &&& r.len() == s.len() + ids_for_copies(src, gap, times as int)
            &&& items_span(r) == items_span(s) + times * window
            &&& forall|k: int|
                0 <= k <= last ==> #[trigger] items_span(r.take(k)) == items_span(s.take(k))
            &&& forall|c: int, i: int|
                #![trigger copy_place(s.take(last + 1), src, gap, c, i)]
                1 <= c <= times && 0 <= i < src.len() ==> {
                    let p = copy_place(s.take(last + 1), src, gap, c, i);
                    &&& 0 <= p < r.len()
                    &&& same_note(r[p], s[first + i])
                    &&& items_span(r.take(p)) == items_span(s.take(first + i)) + c * window
                }
            &&& forall|k: int|
                last < k <= s.len() ==> items_span(
                    r.take(k + ids_for_copies(src, gap, times as int)),
                ) == #[trigger] items_span(s.take(k)) + times * window
        }),
{
    let src = stretch(s, first, last);
    let head = s.take(last + 1);
    let window = gap + items_span(src);
    let h = copies(head, src, gap, times, next_id);
    let tail = s.skip(last + 1);
    let r = repeated_items(s, next_id, first, last, gap, times);
    let more = ids_for_copies(src, gap, times as int);
    let a = (gap_into(src.last().space, gap).1.len() + src.len()) as int;
    assert(more >= 0) by (nonlinear_arith)
        requires
            more == times * a,
            a >= 0,
    ;
    lemma_copies(head, src, gap, times, next_id);
    lemma_items_span_add(h, tail);
    lemma_items_span_add(head, tail);
    assert(head + tail =~= s);
    lemma_items_span_add(s.take(first), src);
    assert(s.take(first) + src =~= head);
    assert forall|k: int| 0 <= k <= last implies #[trigger] items_span(r.take(k)) == items_span(
        s.take(k),
    ) by {
        assert(r.take(k) =~= h.take(head.len() - 1).take(k));
        assert(s.take(k) =~= head.take(head.len() - 1).take(k));
    }
    assert forall|c: int, i: int|
        #![trigger copy_place(head, src, gap, c, i)]
        1 <= c <= times && 0 <= i < src.len() implies {
        let p = copy_place(head, src, gap, c, i);
        &&& 0 <= p < r.len()
        &&& same_note(r[p], s[first + i])
        &&& items_span(r.take(p)) == items_span(s.take(first + i)) + c * window
    } by {
        let p = copy_place(head, src, gap, c, i);
        lemma_copy_position(head, src, gap, times, next_id, c, i);
        assert(r.take(p) =~= h.take(p));
        lemma_items_span_add(s.take(first), src.take(i));
        assert(s.take(first) + src.take(i) =~= s.take(first + i));
        assert(c * window == (c - 1) * window + window) by (nonlinear_arith);
    }
    assert forall|k: int| last < k <= s.len() implies items_span(r.take(k + more))
        == #[trigger] items_span(s.take(k)) + times * window by {
        let x = tail.take(k - last - 1);
        assert(r.take(k + more) =~= h + x);
        assert(s.take(k) =~= head + x);
        lemma_items_span_add(h, x);
        lemma_items_span_add(head, x);
    }
}

/// The frames of a row with a copy of `src` put behind them, `pad` units on. An
/// empty row has no frame to put the silence in: its lead space is that silence.
pub open spec fn pasted_items(
    s: Seq<Item>,
    next_id: int,
    src: Seq<Item>,
    pad: int,
) -> Seq<Item> {
    if s.len() == 0 {
        let extra = gap_into(zero_length(), pad).1;
        spacers(extra, next_id, src[0].pitch) + renumbered(src, next_id + extra.len())
    } else {
        one_copy(s, src, pad, next_id)
    }
}

/// How many frames a paste adds in front of the copy.
pub open spec fn padding_frames(s: Seq<Item>, pad: int) -> nat {
    if s.len() == 0 {
        gap_into(zero_length(), pad).1.len()
    } else {
        gap_into(s.last().space, pad).1.len()
    }
}

/// A row's lead space once something is pasted `pad` units behind its end.
pub open spec fn pasted_lead(s: Seq<Item>, lead: Duration, pad: int) -> Duration {
    if s.len() == 0 {
        gap_into(zero_length(), pad).0
    } else {
        lead
    }
}

impl Row {
    /// Put a copy of `src` behind the row, `pad` units on, and select it.
    pub fn paste_frames(&mut self, src: &Vec<Item>, pad: i64)
        requires
            src@.len() > 0,
            0 <= pad <= i64::MAX - MAX_SPAN,
            old(self).next_item_id + padding_frames(old(self).items@, pad as int)
                + src@.len() <= u64::MAX,
        ensures
            final(self).items@ == pasted_items(
                old(self).items@,
                old(self).next_item_id as int,
                src@,
                pad as int,
            ),
            final(self).lead == pasted_lead(old(self).items@, old(self).lead, pad as int),
            final(self).next_item_id == old(self).next_item_id + padding_frames(
                old(self).items@,
                pad as int,
            ) + src@.len(),
            final(self).sel == range_selection(
                final(self).items@,
                final(self).items@.len() - src@.len(),
                final(self).items@.len() - 1,
            ),
            same_but_frames(*old(self), Row { lead: old(self).lead, ..*final(self) }),
            old(self).ids_unique() ==> final(self).ids_unique(),
    {
        let mut next: u64 = self.next_item_id;
        if self.items.len() == 0 {
            let mut lead = Duration::new(0, Fraction::Zero);
            let extra = add_gap(&mut lead, pad);
            self.lead = lead;
            append_frames(&mut self.items, &mut next, &extra, src);
            assert(self.items@ =~= pasted_items(
                old(self).items@,
                old(self).next_item_id as int,
                src@,
                pad as int,
            ));
        } else {
            proof {
                lemma_one_copy_ids(self.items@, src@, pad as int, next as int);
            }
            copy_behind(&mut self.items, &mut next, src, pad);
        }
        self.next_item_id = next;
        let end: usize = self.items.len();
        self.select_range(end - src.len(), end - 1);
    }
}

/// Where a row ends: an empty row has no first note and so no lead.
pub open spec fn ends_at(s: Seq<Item>, lead: Duration) -> int {
    if s.len() == 0 {
        0
    } else {
        lead.span() + items_span(s)
    }
}

/// A paste puts every frame of the copy where it was in the source, `pad` units
/// behind the end of the row.
pub proof fn law_a_paste_lands_behind_the_row(
    s: Seq<Item>,
    lead: Duration,
    next_id: int,
    src: Seq<Item>,
    pad: int,
    i: int,
)
    requires
        src.len() > 0,
        pad >= 0,
        0 <= i < src.len(),
    ensures
        ({
            let r = pasted_items(s, next_id, src, pad);
            let p = s.len() + padding_frames(s, pad) + i;
            &&& 0 <= p < r.len()
            &&& r.len() == s.len() + padding_frames(s, pad) + src.len()
            &&& same_note(r[p], src[i])
            &&& pasted_lead(s, lead, pad).span() + items_span(r.take(p)) == ends_at(s, lead) + pad
                + items_span(src.take(i))
            &&& pasted_lead(s, lead, pad).span() + items_span(r) == ends_at(s, lead) + pad
                + items_span(src)
        }),
{
    let r = pasted_items(s, next_id, src, pad);
    let e = padding_frames(s, pad);
    let p = (s.len() + e + i) as int;
    let cut = (s.len() + e) as int;
    let re = renumbered(src, next_id + e);
    if s.len() == 0 {
        let extra = gap_into(zero_length(), pad).1;
        law_a_gap_lands_exactly(zero_length(), pad);
        assert(zero_length().span() == 0);
        lemma_spacers_span(extra, next_id, src[0].pitch);
        assert(r.take(cut) =~= spacers(extra, next_id, src[0].pitch));
        assert(r.skip(cut) =~= re);
    } else {
        lemma_one_copy(s, src, pad, next_id);
    }
    assert(r.take(p) =~= r.take(cut) + re.take(i)) by {
        assert forall|k: int| 0 <= k < p implies r.take(p)[k] == (r.take(cut) + re.take(i))[k] by {
            if k >= cut {
                assert(r[k] == r.skip(cut)[k - cut]);
            }
        }
    }
    assert(r[p] == r.skip(cut)[i]);
    lemma_items_span_add(r.take(cut), re.take(i));
    assert(re.take(i) =~= renumbered(src.take(i), next_id + e));
    lemma_renumbered_span(src.take(i), next_id + e);
    assert(r =~= r.take(cut) + re) by {
        assert forall|k: int| 0 <= k < r.len() implies r[k] == (r.take(cut) + re)[k] by {
            if k >= cut {
                assert(r[k] == r.skip(cut)[k - cut]);
            }
        }
    }
    lemma_items_span_add(r.take(cut), re);
    lemma_renumbered_span(src, next_id + e);
}

/// Silence goes into the space that is there where one length can say the sum, and
/// else into frames of its own, the space staying as it is. No silence changes
/// nothing.
pub proof fn law_where_a_gap_goes(space: Duration, units: int)
    ensures
        units <= 0 ==> gap_into(space, units).0 == space && gap_into(space, units).1.len() == 0,
        units > 0 && exact(space.span() + units) is Some ==> gap_into(space, units).0.span()
            == space.span() + units && gap_into(space, units).1.len() == 0,
        units > 0 && exact(space.span() + units) is None ==> gap_into(space, units).0 == space
            && total_span(gap_into(space, units).1) == units,
{
    if units > 0 {
        law_a_gap_lands_exactly(space, units);
        if exact(space.span() + units) is Some {
            lemma_exact_sound(space.span() + units);
        }
    }
}

/// A copy adds frames behind a chain and changes none of it but the space of the
/// last. Of the frames it adds, the last are the notes copied, in order, and those in
/// front of them play nothing; each has an id of its own.
pub proof fn law_a_copy_adds_its_notes_and_silence(
    head: Seq<Item>,
    src: Seq<Item>,
    gap: int,
    id: int,
)
    requires
        head.len() > 0,
        src.len() > 0,
        0 <= id,
        id + gap_into(head.last().space, gap).1.len() + src.len() <= u64::MAX,
    ensures
        ({
            let r = one_copy(head, src, gap, id);
            let from = r.len() - src.len();
            &&& from >= head.len()
            &&& forall|k: int| 0 <= k < head.len() - 1 ==> #[trigger] r[k] == head[k]
            &&& r[head.len() - 1] == (Item { space: r[head.len() - 1].space, ..head.last() })
            &&& forall|k: int|
                head.len() <= k < from ==> (#[trigger] r[k]).dur.span() == 0 && r[k].start == 0
                    && r[k].pitch == src[0].pitch
            &&& forall|i: int|
                0 <= i < src.len() ==> #[trigger] r[from + i] == (Item {
                    id: r[from + i].id,
                    ..src[i]
                })
            &&& forall|k: int|
                head.len() <= k < r.len() ==> (#[trigger] r[k]).id == id + (k - head.len())
        }),
{
    lemma_one_copy_ids(head, src, gap, id);
    let r = one_copy(head, src, gap, id);
    let extra = gap_into(head.last().space, gap).1;
    let from = r.len() - src.len();
    assert forall|i: int| 0 <= i < src.len() implies #[trigger] r[from + i] == (Item {
        id: r[from + i].id,
        ..src[i]
    }) by {
        assert(r[from + i] == renumbered(src, id + extra.len())[i]);
    }
    assert forall|k: int| head.len() <= k < from implies (#[trigger] r[k]).dur.span() == 0
        && r[k].start == 0 && r[k].pitch == src[0].pitch by {
        assert(r[k] == spacers(extra, id, src[0].pitch)[k - head.len()]);
    }
}

/// A repeat leaves the frames in front of the stretch's end and those behind it as
/// they were: only the space of the last frame repeated may change.
pub proof fn law_a_repeat_keeps_the_rest(
    s: Seq<Item>,
    next_id: int,
    first: int,
    last: int,
    gap: int,
    times: nat,
)
    requires
        0 <= first <= last < s.len(),
        gap >= 0,
    ensures
        ({
            let r = repeated_items(s, next_id, first, last, gap, times);
            &&& r.len() >= s.len()
            &&& forall|k: int| 0 <= k < last ==> #[trigger] r[k] == s[k]
            &&& r[last] == (Item { space: r[last].space, ..s[last] })
            &&& forall|k: int|
                last < k < s.len() ==> r[k + (r.len() - s.len())] == #[trigger] s[k]
        }),
{
    let head = s.take(last + 1);
    let src = stretch(s, first, last);
    lemma_copies_keep(head, src, gap, times, next_id);
    let c = copies(head, src, gap, times, next_id);
    let r = repeated_items(s, next_id, first, last, gap, times);
    assert forall|k: int| last < k < s.len() implies r[k + (r.len() - s.len())]
        == #[trigger] s[k] by {
        assert(s.skip(last + 1)[k - last - 1] == s[k]);
    }
    assert forall|k: int| 0 <= k < last implies #[trigger] r[k] == s[k] by {
        assert(c[k] == head[k]);
    }
    assert(r[last] == c[last]);
}

proof fn lemma_copies_keep(head: Seq<Item>, src: Seq<Item>, gap: int, times: nat, id: int)
    requires
        head.len() > 0,
    ensures
        ({
            let c = copies(head, src, gap, times, id);
            let n = head.len() as int;
            &&& c.len() >= n
            &&& forall|k: int| 0 <= k < n - 1 ==> #[trigger] c[k] == head[k]
            &&& c[n - 1] == (Item { space: c[n - 1].space, ..head[n - 1] })
        }),
    decreases times,
{
    if times > 0 {
        lemma_copies_keep(head, src, gap, (times - 1) as nat, id);
    }
}

/// Every frame that a repeat adds is a copy of a frame repeated, or plays nothing:
/// `i` is the frame it is a copy of, where it plays.
pub proof fn law_a_repeat_adds_only_copies(
    s: Seq<Item>,
    next_id: int,
    first: int,
    last: int,
    gap: int,
    times: nat,
    k: int,
) -> (i: int)
    requires
        0 <= first <= last < s.len(),
        last < k < repeated_items(s, next_id, first, last, gap, times).len() - (s.len() - last - 1),
        repeated_items(s, next_id, first, last, gap, times)[k].dur.span() > 0,
    ensures
        first <= i <= last,
        repeated_items(s, next_id, first, last, gap, times)[k].pitch == s[i].pitch,
        repeated_items(s, next_id, first, last, gap, times)[k].start == s[i].start,
        repeated_items(s, next_id, first, last, gap, times)[k].dur == s[i].dur,
{
    let head = s.take(last + 1);
    let src = stretch(s, first, last);
    let c = copies(head, src, gap, times, next_id);
    assert(repeated_items(s, next_id, first, last, gap, times)[k] == c[k]);
    let i = lemma_added_is_a_copy(head, src, gap, times, next_id, k);
    assert(src[i] == s[first + i]);
    first + i
}

proof fn lemma_added_is_a_copy(
    head: Seq<Item>,
    src: Seq<Item>,
    gap: int,
    times: nat,
    id: int,
    k: int,
) -> (i: int)
    requires
        head.len() > 0,
        src.len() > 0,
        head.len() <= k < copies(head, src, gap, times, id).len(),
        copies(head, src, gap, times, id)[k].dur.span() > 0,
    ensures
        0 <= i < src.len(),
        same_note(copies(head, src, gap, times, id)[k], src[i]),
    decreases times,
{
    let t = (times - 1) as nat;
    let h = copies(head, src, gap, t, id);
    lemma_copies_keep(head, src, gap, t, id);
    let all = copies(head, src, gap, times, id);
    let base = id + h.len() - head.len();
    let extra = gap_into(h.last().space, gap).1;
    assert(all == one_copy(h, src, gap, base));
    if k < h.len() {
        assert(all[k] == with_gap(h, gap)[k]);
        lemma_added_is_a_copy(head, src, gap, t, id, k)
    } else {
        if k < h.len() + extra.len() {
            assert(all[k] == spacers(extra, base, src[0].pitch)[k - h.len()]);
            assert(all[k].dur.span() == 0);
        }
        assert(all[k] == renumbered(src, base + extra.len())[k - h.len() - extra.len()]);
        k - h.len() - extra.len()
    }
}

/// A paste into an empty row starts with frames that play nothing, behind the lead,
/// and then has the notes pasted, in order.
pub proof fn law_a_paste_into_an_empty_row(next_id: int, src: Seq<Item>, pad: int)
    requires
        src.len() > 0,
        0 <= next_id,
        next_id + padding_frames(Seq::empty(), pad) + src.len() <= u64::MAX,
    ensures
        ({
            let r = pasted_items(Seq::empty(), next_id, src, pad);
            let from = r.len() - src.len();
            &&& from == padding_frames(Seq::empty(), pad)
            &&& forall|k: int| 0 <= k < from ==> (#[trigger] r[k]).dur.span() == 0
            &&& forall|i: int|
                0 <= i < src.len() ==> #[trigger] r[from + i] == (Item {
                    id: r[from + i].id,
                    ..src[i]
                })
            &&& forall|k: int| 0 <= k < r.len() ==> (#[trigger] r[k]).id == next_id + k
        }),
{
    let r = pasted_items(Seq::empty(), next_id, src, pad);
    let extra = gap_into(zero_length(), pad).1;
    let from = r.len() - src.len();
    assert forall|i: int| 0 <= i < src.len() implies #[trigger] r[from + i] == (Item {
        id: r[from + i].id,
        ..src[i]
    }) by {
        assert(r[from + i] == renumbered(src, next_id + extra.len())[i]);
    }
    assert forall|k: int| 0 <= k < from implies (#[trigger] r[k]).dur.span() == 0 by {
        assert(r[k] == spacers(extra, next_id, src[0].pitch)[k]);
    }
}

/// A paste behind a row that has frames is a copy behind it.
pub proof fn law_a_paste_is_a_copy(s: Seq<Item>, next_id: int, src: Seq<Item>, pad: int)
    requires
        s.len() > 0,
    ensures
        pasted_items(s, next_id, src, pad) == one_copy(s, src, pad, next_id),
        padding_frames(s, pad) + s.len() + src.len() == pasted_items(s, next_id, src, pad).len(),
        forall|lead: Duration| #[trigger] pasted_lead(s, lead, pad) == lead,
{
}

} // verus!
