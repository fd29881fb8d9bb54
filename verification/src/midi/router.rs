//! Which keyboard feeds which instance.
//!
//! A subscription is a queue of its own and the port it wants, so that two
//! instances open at once each hear everything, each can be pointed at a
//! different keyboard, and a port is open as long as anything listens to it.

use vstd::prelude::*;

use super::input::{
    arrive, arrived, held_after, new_midi_queue, queued, tap, tapped, MidiEventQueue, MidiTaps,
    OctaveShift, TapView, MAX_QUEUED_EVENTS,
};
use crate::text::same_str;

verus! {

/// One instance's feed.
#[derive(Debug)]
struct Sub {
    id: u64,
    /// The port it asked for, or `None` to follow the panel's.
    want: Option<String>,
    /// Its instance is still there.
    live: bool,
    queue: MidiEventQueue,
}

/// One instance's feed, as the contracts see it.
pub ghost struct SubView {
    pub id: u64,
    pub want: Option<Seq<char>>,
    pub live: bool,
    pub queue: Seq<[u8; 3]>,
}

impl View for Sub {
    type V = SubView;

    closed spec fn view(&self) -> SubView {
        SubView { id: self.id, want: text_of(self.want), live: self.live, queue: self.queue@ }
    }
}

/// What an optional text holds.
pub open spec fn text_of(s: Option<String>) -> Option<Seq<char>> {
    match s {
        Some(t) => Some(t@),
        None => None,
    }
}

/// A subscription handed to one instance: the id that its queue is drained and
/// its source is changed by.
#[derive(Clone, Copy, PartialEq, Eq, Debug, Structural)]
pub struct MidiFeed {
    pub id: u64,
}

/// The router: who listens to what.
#[derive(Debug)]
pub struct MidiRouter {
    default_port: Option<String>,
    open: Vec<String>,
    subs: Vec<Sub>,
    next_id: u64,
}

/// The router, as the contracts see it.
pub ghost struct RouterView {
    /// The port a subscriber gets when it has not asked for one of its own.
    pub default_port: Option<Seq<char>>,
    /// The ports that are open.
    pub open: Seq<Seq<char>>,
    pub subs: Seq<SubView>,
    pub next_id: u64,
}

/// The texts of a list.
pub open spec fn texts(v: Seq<String>) -> Seq<Seq<char>> {
    v.map_values(|s: String| s@)
}

/// Whether a subscription hears a port. A subscription that has asked for none
/// follows the panel's, which is looked up when the message comes.
pub open spec fn hears(s: SubView, default: Option<Seq<char>>, port: Seq<char>) -> bool {
    match s.want {
        Some(name) => name == port,
        None => default == Some(port),
    }
}

/// A subscription after a message from a port.
pub open spec fn fed(s: SubView, default: Option<Seq<char>>, port: Seq<char>, msg: [u8; 3]) -> SubView {
    if hears(s, default, port) {
        SubView { queue: queued(s.queue, msg), ..s }
    } else {
        s
    }
}

/// The subscriptions whose instance is still there.
pub open spec fn living(subs: Seq<SubView>) -> Seq<SubView> {
    subs.filter(|s: SubView| s.live)
}

/// The subscriptions after a message: everyone who listens to the port gets it,
/// and those whose instance is gone go.
pub open spec fn delivered(
    subs: Seq<SubView>,
    default: Option<Seq<char>>,
    port: Seq<char>,
    msg: [u8; 3],
) -> Seq<SubView> {
    living(subs).map_values(|s: SubView| fed(s, default, port, msg))
}

/// Whether a port has anything listening to it: the panel is connected to it, or
/// an instance asked for it by name.
pub open spec fn wanted(name: Seq<char>, default: Option<Seq<char>>, subs: Seq<SubView>) -> bool {
    default == Some(name) || exists|k: int|
        0 <= k < subs.len() && (#[trigger] subs[k]).want == Some(name)
}

/// The open ports that something listens to.
pub open spec fn still_open(
    open: Seq<Seq<char>>,
    default: Option<Seq<char>>,
    subs: Seq<SubView>,
) -> Seq<Seq<char>> {
    open.filter(|name: Seq<char>| wanted(name, default, subs))
}

/// The open ports that nothing listens to.
pub open spec fn to_close(
    open: Seq<Seq<char>>,
    default: Option<Seq<char>>,
    subs: Seq<SubView>,
) -> Seq<Seq<char>> {
    open.filter(|name: Seq<char>| !wanted(name, default, subs))
}

/// Where the subscription of an id stands, or how many there are.
pub open spec fn sub_place(s: Seq<SubView>, id: u64) -> int
    decreases s.len(),
{
    if s.len() == 0 || s[0].id == id {
        0
    } else {
        1 + sub_place(s.skip(1), id)
    }
}

/// A router's invariant: ids are one's own, a port is open once, and what is
/// wanted is open.
pub open spec fn router_wf(v: RouterView) -> bool {
    &&& forall|a: int, b: int|
        0 <= a < b < v.subs.len() ==> (#[trigger] v.subs[a]).id != (#[trigger] v.subs[b]).id
    &&& forall|a: int| 0 <= a < v.subs.len() ==> (#[trigger] v.subs[a]).id < v.next_id
    &&& v.open.no_duplicates()
    &&& v.default_port matches Some(p) ==> v.open.contains(p)
    &&& forall|a: int|
        0 <= a < v.subs.len() ==> match (#[trigger] v.subs[a]).want {
            Some(p) => v.open.contains(p),
            None => true,
        }
}

proof fn lemma_sub_place_is(s: Seq<SubView>, id: u64, k: int)
    requires
        0 <= k <= s.len(),
        k < s.len() ==> s[k].id == id,
        forall|i: int| 0 <= i < k ==> (#[trigger] s[i]).id != id,
    ensures
        sub_place(s, id) == k,
    decreases k,
{
    if k > 0 {
        assert(s[0].id != id);
        let rest = s.skip(1);
        assert forall|i: int| 0 <= i < k - 1 implies (#[trigger] rest[i]).id != id by {
            assert(rest[i] == s[i + 1]);
        }
        if k < s.len() {
            assert(rest[k - 1] == s[k]);
        }
        lemma_sub_place_is(rest, id, k - 1);
    }
}

/// The living subscriptions are some of those there were, still apart.
proof fn lemma_living(s: Seq<SubView>)
    requires
        forall|a: int, b: int|
            0 <= a < b < s.len() ==> (#[trigger] s[a]).id != (#[trigger] s[b]).id,
    ensures
        forall|a: int, b: int|
            0 <= a < b < living(s).len() ==> (#[trigger] living(s)[a]).id != (#[trigger] living(
                s,
            )[b]).id,
        forall|a: int|
            0 <= a < living(s).len() ==> (#[trigger] living(s)[a]).live && s.contains(living(s)[a]),
        forall|k: int| 0 <= k < s.len() && (#[trigger] s[k]).live ==> living(s).contains(s[k]),
    decreases s.len(),
{
    reveal(Seq::filter);
    if s.len() > 0 {
        let front = s.drop_last();
        assert forall|a: int, b: int| 0 <= a < b < front.len() implies (#[trigger] front[a]).id != (
        #[trigger] front[b]).id by {
            assert(front[a] == s[a] && front[b] == s[b]);
        }
        lemma_living(front);
        let kept = living(front);
        assert forall|a: int| 0 <= a < kept.len() implies (#[trigger] kept[a]).id != s.last().id
            && s.contains(kept[a]) by {
            let i = choose|i: int| 0 <= i < front.len() && front[i] == kept[a];
            assert(front[i] == s[i]);
            assert(s[i].id != s[s.len() - 1].id);
        }
        assert(s[s.len() - 1] == s.last());
        assert forall|k: int| 0 <= k < s.len() && (#[trigger] s[k]).live implies living(
            s,
        ).contains(s[k]) by {
            if k < s.len() - 1 {
                assert(front[k] == s[k]);
                assert(kept.contains(front[k]));
                let j = choose|j: int| 0 <= j < kept.len() && kept[j] == s[k];
                assert(living(s)[j] == s[k]);
            } else {
                assert(living(s)[kept.len() as int] == s[k]);
            }
        }
    }
}

proof fn lemma_still_open(
    open: Seq<Seq<char>>,
    default: Option<Seq<char>>,
    subs: Seq<SubView>,
)
    requires
        open.no_duplicates(),
    ensures
        still_open(open, default, subs).no_duplicates(),
        forall|p: Seq<char>| #[trigger]
            still_open(open, default, subs).contains(p) <==> open.contains(p) && wanted(
                p,
                default,
                subs,
            ),
    decreases open.len(),
{
    reveal(Seq::filter);
    if open.len() > 0 {
        let front = open.drop_last();
        let last = open.last();
        assert(front.no_duplicates());
        lemma_still_open(front, default, subs);
        let kept = still_open(front, default, subs);
        let all = still_open(open, default, subs);
        assert(!front.contains(last)) by {
            if front.contains(last) {
                let i = choose|i: int| 0 <= i < front.len() && front[i] == last;
                assert(open[i] == open[open.len() - 1]);
            }
        }
        assert(!kept.contains(last));
        assert forall|p: Seq<char>| #[trigger] all.contains(p) <==> open.contains(p) && wanted(
            p,
            default,
            subs,
        ) by {
            if all.contains(p) {
                let i = choose|i: int| 0 <= i < all.len() && all[i] == p;
                if i < kept.len() {
                    assert(kept[i] == p);
                    assert(kept.contains(p));
                    assert(front.contains(p));
                    let j = choose|j: int| 0 <= j < front.len() && front[j] == p;
                    assert(open[j] == p);
                } else {
                    assert(p == last && open[open.len() - 1] == p);
                }
            }
            if open.contains(p) && wanted(p, default, subs) {
                let j = choose|j: int| 0 <= j < open.len() && open[j] == p;
                if j < front.len() {
                    assert(front[j] == p);
                    assert(front.contains(p));
                    assert(kept.contains(p));
                    let i = choose|i: int| 0 <= i < kept.len() && kept[i] == p;
                    assert(all[i] == p);
                } else {
                    assert(all[kept.len() as int] == p);
                }
            }
        }
        assert(all.no_duplicates()) by {
            assert forall|a: int, b: int| 0 <= a < all.len() && 0 <= b < all.len() && a
                != b implies all[a] != all[b] by {
                if a < kept.len() && b < kept.len() {
                    assert(all[a] == kept[a] && all[b] == kept[b]);
                } else if a < kept.len() {
                    assert(all[a] == kept[a] && kept.contains(kept[a]));
                } else if b < kept.len() {
                    assert(all[b] == kept[b] && kept.contains(kept[b]));
                }
            }
        }
    } else {
        assert(still_open(open, default, subs) =~= Seq::empty());
    }
}

fn same_port(want: &Option<String>, port: &str) -> (r: bool)
    ensures
        r == (text_of(*want) == Some(port@)),
{
    match want {
        Some(name) => same_str(name.as_str(), port),
        None => false,
    }
}

impl MidiRouter {
    /// What the router holds.
    pub closed spec fn view(&self) -> RouterView {
        RouterView {
            default_port: text_of(self.default_port),
            open: texts(self.open@),
            subs: self.subs@.map_values(|s: Sub| s@),
            next_id: self.next_id,
        }
    }

    /// A router without any port.
    pub fn new() -> (r: Self)
        ensures
            router_wf(r@),
            r@ == (RouterView {
                default_port: None,
                open: Seq::empty(),
                subs: Seq::empty(),
                next_id: 0,
            }),
    {
        let r = MidiRouter {
            default_port: None,
            open: Vec::new(),
            subs: Vec::new(),
            next_id: 0,
        };
        proof {
            assert(r@.open =~= Seq::empty());
            assert(r@.subs =~= Seq::empty());
        }
        r
    }

    /// The port everything that has not chosen one of its own listens to.
    pub fn default_port(&self) -> (r: Option<String>)
        ensures
            text_of(r) == self@.default_port,
    {
        match &self.default_port {
            Some(p) => Some(p.as_str().to_owned()),
            None => None,
        }
    }

    /// Whether a port is open already.
    pub fn is_open(&self, name: &str) -> (r: bool)
        ensures
            r == self@.open.contains(name@),
    {
        let n: usize = self.open.len();
        let mut k: usize = 0;
        while k < n
            invariant
                k <= n,
                n == self.open@.len(),
                forall|i: int| 0 <= i < k ==> self@.open[i] != name@,
            decreases n - k,
        {
            assert(self@.open[k as int] == self.open@[k as int]@);
            if same_str(self.open[k].as_str(), name) {
                return true;
            }
            k += 1;
        }
        false
    }

    /// A port has been opened and its messages come in. One that was open already
    /// stays so.
    pub fn opened(&mut self, name: &str)
        requires
            router_wf(old(self)@),
        ensures
            router_wf(final(self)@),
            final(self)@ == (RouterView {
                open: if old(self)@.open.contains(name@) {
                    old(self)@.open
                } else {
                    old(self)@.open.push(name@)
                },
                ..old(self)@
            }),
    {
        let ghost was = self@;
        if !self.is_open(name) {
            self.open.push(name.to_owned());
            proof {
                assert(self@.open =~= was.open.push(name@));
                assert(self@.subs =~= was.subs);
                assert forall|p: Seq<char>| was.open.contains(p) implies
                    #[trigger] self@.open.contains(p) by {
                    let i = choose|i: int| 0 <= i < was.open.len() && was.open[i] == p;
                    assert(self@.open[i] == p);
                }
            }
        }
    }

    /// Whether a port has anything listening to it.
    pub fn port_is_wanted(&self, name: &str) -> (r: bool)
        ensures
            r == wanted(name@, self@.default_port, self@.subs),
    {
        if same_port(&self.default_port, name) {
            return true;
        }
        let n: usize = self.subs.len();
        let mut k: usize = 0;
        while k < n
            invariant
                k <= n,
                n == self.subs@.len(),
                self@.default_port != Some(name@),
                forall|i: int| 0 <= i < k ==> (#[trigger] self@.subs[i]).want != Some(name@),
            decreases n - k,
        {
            assert(self@.subs[k as int] == self.subs@[k as int]@);
            if same_port(&self.subs[k].want, name) {
                return true;
            }
            k += 1;
        }
        false
    }

    /// Drop the subscriptions whose instance is gone.
    fn sweep(&mut self)
        requires
            router_wf(old(self)@),
        ensures
            router_wf(final(self)@),
            final(self)@ == (RouterView { subs: living(old(self)@.subs), ..old(self)@ }),
    {
        let ghost all = self@.subs;
        let ghost was = self@;
        let mut kept: Vec<Sub> = Vec::new();
        let n: usize = self.subs.len();
        let mut left: Vec<Sub> = Vec::new();
        std::mem::swap(&mut left, &mut self.subs);
        let ghost from = left@;
        let mut k: usize = 0;
        proof {
            assert(from.map_values(|s: Sub| s@) =~= all);
            reveal(Seq::filter);
            assert(living(all.take(0)) =~= Seq::empty());
            assert(kept@.map_values(|s: Sub| s@) =~= Seq::empty());
        }
        while k < n
            invariant
                k <= n,
                n == from.len(),
                left@ == from.skip(k as int),
                all == from.map_values(|s: Sub| s@),
                kept@.map_values(|s: Sub| s@) == living(all.take(k as int)),
                self.default_port == old(self).default_port,
                self.open == old(self).open,
                self.next_id == old(self).next_id,
            decreases n - k,
        {
            let ghost before = kept@;
            let sub = left.remove(0);
            proof {
                assert(sub == from[k as int]);
                assert(left@ =~= from.skip(k + 1));
                let part = all.take(k + 1);
                assert(part.drop_last() =~= all.take(k as int));
                assert(part.last() == sub@);
                reveal(Seq::filter);
            }
            if sub.live {
                kept.push(sub);
                assert(kept@.map_values(|s: Sub| s@) =~= before.map_values(|s: Sub| s@).push(
                    sub@,
                ));
            }
            k += 1;
        }
        assert(all.take(n as int) =~= all);
        self.subs = kept;
        proof {
            lemma_living(all);
            let now = self@.subs;
            assert(now == living(all));
            assert forall|a: int| 0 <= a < now.len() implies (#[trigger] now[a]).id
                < was.next_id && match now[a].want {
                Some(p) => was.open.contains(p),
                None => true,
            } by {
                assert(all.contains(now[a]));
                let i = choose|i: int| 0 <= i < all.len() && all[i] == now[a];
                assert(all[i].id < was.next_id);
            }
        }
    }

    /// Close the ports nothing listens to, and say which. A device held open by a
    /// closed editor is a device another program cannot have.
    fn close_unused(&mut self) -> (r: Vec<String>)
        requires
            old(self)@.open.no_duplicates(),
        ensures
            texts(r@) == to_close(old(self)@.open, old(self)@.default_port, old(self)@.subs),
            final(self)@ == (RouterView {
                open: still_open(old(self)@.open, old(self)@.default_port, old(self)@.subs),
                ..old(self)@
            }),
    {
        let ghost was = self@;
        let ghost all = self@.open;
        let ghost d = self@.default_port;
        let ghost subs = self@.subs;
        let mut kept: Vec<String> = Vec::new();
        let mut closed: Vec<String> = Vec::new();
        let n: usize = self.open.len();
        let mut k: usize = 0;
        proof {
            reveal(Seq::filter);
            assert(still_open(all.take(0), d, subs) =~= Seq::empty());
            assert(to_close(all.take(0), d, subs) =~= Seq::empty());
            assert(texts(kept@) =~= Seq::empty());
            assert(texts(closed@) =~= Seq::empty());
        }
        while k < n
            invariant
                k <= n,
                n == self.open@.len(),
                *self == *old(self),
                self@ == was,
                all == was.open,
                d == was.default_port,
                subs == was.subs,
                texts(kept@) == still_open(all.take(k as int), d, subs),
                texts(closed@) == to_close(all.take(k as int), d, subs),
            decreases n - k,
        {
            let ghost kept_before = kept@;
            let ghost closed_before = closed@;
            proof {
                reveal(Seq::filter);
                let part = all.take(k + 1);
                assert(part.drop_last() =~= all.take(k as int));
                assert(part.last() == self.open@[k as int]@);
            }
            let name = self.open[k].as_str().to_owned();
            if self.port_is_wanted(name.as_str()) {
                kept.push(name);
                assert(texts(kept@) =~= texts(kept_before).push(all[k as int]));
            } else {
                closed.push(name);
                assert(texts(closed@) =~= texts(closed_before).push(all[k as int]));
            }
            k += 1;
        }
        assert(all.take(n as int) =~= all);
        self.open = kept;
        assert(self@.subs =~= was.subs);
        closed
    }

    /// Connect the panel's own port, the default feed. Every feed that follows the
    /// default moves with it. Returns the ports to close.
    pub fn set_default_port(&mut self, port: Option<String>) -> (r: Vec<String>)
        requires
            router_wf(old(self)@),
            port matches Some(p) ==> old(self)@.open.contains(p@),
        ensures
            router_wf(final(self)@),
            texts(r@) == to_close(old(self)@.open, text_of(port), old(self)@.subs),
            final(self)@ == (RouterView {
                default_port: text_of(port),
                open: still_open(old(self)@.open, text_of(port), old(self)@.subs),
                ..old(self)@
            }),
    {
        let ghost was = self@;
        self.default_port = port;
        assert(self@.subs =~= was.subs);
        let closed = self.close_unused();
        proof {
            lemma_still_open(was.open, text_of(port), was.subs);
        }
        closed
    }

    /// Whether there is an id for one more instance.
    pub fn has_room(&self) -> (r: bool)
        ensures
            r == (self@.next_id < u64::MAX),
    {
        self.next_id < u64::MAX
    }

    /// Start feeding a new instance. `want` is the port it should listen to, or
    /// `None` to follow the panel's.
    pub fn subscribe(&mut self, want: Option<String>) -> (r: MidiFeed)
        requires
            router_wf(old(self)@),
            want matches Some(p) ==> old(self)@.open.contains(p@),
            old(self)@.next_id < u64::MAX,
        ensures
            router_wf(final(self)@),
            r.id == old(self)@.next_id,
            final(self)@ == (RouterView {
                subs: living(old(self)@.subs).push(
                    SubView { id: r.id, want: text_of(want), live: true, queue: Seq::empty() },
                ),
                next_id: (old(self)@.next_id + 1) as u64,
                ..old(self)@
            }),
    {
        self.sweep();
        let ghost was = self@;
        let id: u64 = self.next_id;
        self.next_id = id + 1;
        let sub = Sub { id, want, live: true, queue: new_midi_queue() };
        let ghost new = sub@;
        self.subs.push(sub);
        proof {
            assert(self@.subs =~= was.subs.push(new));
            assert(self@.open =~= was.open);
        }
        MidiFeed { id }
    }

    fn place_of(&self, id: u64) -> (r: usize)
        ensures
            r == sub_place(self@.subs, id),
            r <= self.subs@.len(),
            self.subs@.len() == self@.subs.len(),
            r < self.subs@.len() ==> self.subs@[r as int].id == id,
    {
        let n: usize = self.subs.len();
        let mut k: usize = 0;
        while k < n && self.subs[k].id != id
            invariant
                k <= n,
                n == self.subs@.len(),
                forall|i: int| 0 <= i < k ==> (#[trigger] self@.subs[i]).id != id,
            decreases n - k,
        {
            assert(self@.subs[k as int] == self.subs@[k as int]@);
            k += 1;
        }
        proof {
            if k < n {
                assert(self@.subs[k as int] == self.subs@[k as int]@);
            }
            lemma_sub_place_is(self@.subs, id, k as int);
        }
        k
    }

    /// Point an existing feed at another keyboard, from the next message on.
    /// Returns the ports to close.
    pub fn set_source(&mut self, feed_id: u64, want: Option<String>) -> (r: Vec<String>)
        requires
            router_wf(old(self)@),
            want matches Some(p) ==> old(self)@.open.contains(p@),
        ensures
            router_wf(final(self)@),
            ({
                let k = sub_place(old(self)@.subs, feed_id);
                let subs = if 0 <= k < old(self)@.subs.len() {
                    old(self)@.subs.update(
                        k,
                        SubView { want: text_of(want), ..old(self)@.subs[k] },
                    )
                } else {
                    old(self)@.subs
                };
                &&& texts(r@) == to_close(old(self)@.open, old(self)@.default_port, subs)
                &&& final(self)@ == (RouterView {
                    open: still_open(old(self)@.open, old(self)@.default_port, subs),
                    subs,
                    ..old(self)@
                })
            }),
    {
        let ghost was = self@;
        let k: usize = self.place_of(feed_id);
        if k < self.subs.len() {
            let ghost old_sub = self.subs@[k as int];
            self.subs[k].want = want;
            proof {
                assert(was.subs[k as int] == old_sub@);
                assert(self@.subs =~= was.subs.update(
                    k as int,
                    SubView { want: text_of(want), ..was.subs[k as int] },
                ));
            }
        }
        let ghost mid = self@;
        let closed = self.close_unused();
        proof {
            lemma_still_open(was.open, mid.default_port, mid.subs);
            let now = self@;
            assert forall|a: int| 0 <= a < now.subs.len() implies match (
            #[trigger] now.subs[a]).want {
                Some(p) => now.open.contains(p),
                None => true,
            } by {
                if let Some(p) = now.subs[a].want {
                    assert(mid.subs[a].want == Some(p));
                    assert(wanted(p, mid.default_port, mid.subs));
                }
            }
        }
        closed
    }

    /// An instance has gone: its feed will be swept out.
    pub fn unsubscribe(&mut self, feed: MidiFeed)
        requires
            router_wf(old(self)@),
        ensures
            router_wf(final(self)@),
            ({
                let k = sub_place(old(self)@.subs, feed.id);
                final(self)@ == (if 0 <= k < old(self)@.subs.len() {
                    RouterView {
                        subs: old(self)@.subs.update(
                            k,
                            SubView { live: false, ..old(self)@.subs[k] },
                        ),
                        ..old(self)@
                    }
                } else {
                    old(self)@
                })
            }),
    {
        let ghost was = self@;
        let k: usize = self.place_of(feed.id);
        if k < self.subs.len() {
            let ghost old_sub = self.subs@[k as int];
            self.subs[k].live = false;
            proof {
                assert(was.subs[k as int] == old_sub@);
                assert(self@.subs =~= was.subs.update(
                    k as int,
                    SubView { live: false, ..was.subs[k as int] },
                ));
            }
        }
    }

    /// Drop the connections nothing is listening to any more. Returns the ports to
    /// close.
    pub fn release_unused(&mut self) -> (r: Vec<String>)
        requires
            router_wf(old(self)@),
        ensures
            router_wf(final(self)@),
            texts(r@) == to_close(
                old(self)@.open,
                old(self)@.default_port,
                living(old(self)@.subs),
            ),
            final(self)@ == (RouterView {
                open: still_open(
                    old(self)@.open,
                    old(self)@.default_port,
                    living(old(self)@.subs),
                ),
                subs: living(old(self)@.subs),
                ..old(self)@
            }),
    {
        self.sweep();
        let ghost mid = self@;
        let closed = self.close_unused();
        proof {
            lemma_still_open(mid.open, mid.default_port, mid.subs);
            let now = self@;
            assert forall|a: int| 0 <= a < now.subs.len() implies match (
            #[trigger] now.subs[a]).want {
                Some(p) => now.open.contains(p),
                None => true,
            } by {
                if let Some(p) = now.subs[a].want {
                    assert(mid.subs[a].want == Some(p));
                    assert(wanted(p, mid.default_port, mid.subs));
                }
            }
        }
        closed
    }

    /// Push one message to every instance listening to a port, dropping the
    /// subscriptions whose instance is gone.
    pub fn deliver(&mut self, port: &str, msg: [u8; 3])
        requires
            router_wf(old(self)@),
        ensures
            router_wf(final(self)@),
            final(self)@ == (RouterView {
                subs: delivered(old(self)@.subs, old(self)@.default_port, port@, msg),
                ..old(self)@
            }),
    {
        self.sweep();
        let follows = same_port(&self.default_port, port);
        let ghost was = self@;
        let ghost from = self.subs@;
        let n: usize = self.subs.len();
        let mut k: usize = 0;
        while k < n
            invariant
                k <= n,
                n == from.len(),
                self.subs@.len() == n,
                was.subs == from.map_values(|s: Sub| s@),
                follows == (was.default_port == Some(port@)),
                text_of(self.default_port) == was.default_port,
                texts(self.open@) == was.open,
                self.next_id == was.next_id,
                forall|i: int| k <= i < n ==> self.subs@[i] == from[i],
                forall|i: int|
                    0 <= i < k ==> (#[trigger] self.subs@[i])@ == fed(
                        from[i]@,
                        was.default_port,
                        port@,
                        msg,
                    ),
            decreases n - k,
        {
            let ghost before = self.subs@;
            let wanted = match &self.subs[k].want {
                Some(name) => same_str(name.as_str(), port),
                None => follows,
            };
            if wanted {
                self.subs[k].queue.push(msg);
                assert(forall|i: int| 0 <= i < n && i != k ==> self.subs@[i] == before[i]);
            }
            assert(self.subs@[k as int]@ == fed(from[k as int]@, was.default_port, port@, msg));
            k += 1;
        }
        proof {
            assert(self@.subs =~= was.subs.map_values(
                |s: SubView| fed(s, was.default_port, port@, msg),
            ));
            assert(self@.open =~= was.open);
            assert forall|a: int| 0 <= a < self@.subs.len() implies (#[trigger] self@.subs[a]).id
                == was.subs[a].id && self@.subs[a].want == was.subs[a].want by {}
        }
    }

    /// Take everything out of an instance's queue, oldest first. A feed that is
    /// not there has heard nothing.
    pub fn drain(&mut self, feed: MidiFeed) -> (r: Vec<[u8; 3]>)
        requires
            router_wf(old(self)@),
        ensures
            router_wf(final(self)@),
            ({
                let k = sub_place(old(self)@.subs, feed.id);
                if 0 <= k < old(self)@.subs.len() {
                    &&& r@ == old(self)@.subs[k].queue
                    &&& final(self)@ == (RouterView {
                        subs: old(self)@.subs.update(
                            k,
                            SubView { queue: Seq::empty(), ..old(self)@.subs[k] },
                        ),
                        ..old(self)@
                    })
                } else {
                    r@.len() == 0 && final(self)@ == old(self)@
                }
            }),
    {
        let ghost was = self@;
        let k: usize = self.place_of(feed.id);
        if k < self.subs.len() {
            let ghost old_sub = self.subs@[k as int];
            let out = self.subs[k].queue.drain();
            proof {
                assert(was.subs[k as int] == old_sub@);
                assert(self@.subs =~= was.subs.update(
                    k as int,
                    SubView { queue: Seq::empty(), ..was.subs[k as int] },
                ));
            }
            out
        } else {
            Vec::new()
        }
    }

    /// One message of a port, as the driver hands it over: shifted once, here, so
    /// that every instance and every recorder sees the same note.
    pub fn receive(
        &mut self,
        port: &str,
        bytes: &[u8],
        octave_shift: &OctaveShift,
        held_shift: &mut [i8; 128],
        taps: &mut MidiTaps,
        stamp: u64,
    ) -> (r: Option<[u8; 3]>)
        requires
            router_wf(old(self)@),
            old(taps).wf(),
        ensures
            router_wf(final(self)@),
            final(taps).wf(),
            final(taps).next() == old(taps).next(),
            final(held_shift)@ == (if bytes@.len() < 3 {
                old(held_shift)@
            } else {
                held_after(bytes@.take(3), octave_shift.octaves as int, old(held_shift)@)
            }),
            match r {
                Some(msg) => {
                    &&& arrived(bytes@, octave_shift.octaves as int, old(held_shift)@) == Some(
                        msg@,
                    )
                    &&& final(self)@ == (RouterView {
                        subs: delivered(old(self)@.subs, old(self)@.default_port, port@, msg),
                        ..old(self)@
                    })
                    &&& final(taps)@ == old(taps)@.map_values(|t: TapView| tapped(t, stamp, msg))
                },
                None => {
                    &&& arrived(bytes@, octave_shift.octaves as int, old(held_shift)@) is None
                    &&& final(self)@ == old(self)@
                    &&& final(taps)@ == old(taps)@
                },
            },
    {
        match arrive(bytes, octave_shift, held_shift) {
            Some(msg) => {
                self.deliver(port, msg);
                tap(taps, stamp, msg);
                Some(msg)
            },
            None => None,
        }
    }
}

/// What went wrong with a port.
pub fn missing_port(name: &str) -> (r: String)
    ensures
        r@ == "MIDI port '"@ + name@ + "' is not there any more"@,
{
    let mut out = "MIDI port '".to_owned();
    out.append(name);
    out.append("' is not there any more");
    out
}

/// What is said where a port could not be opened.
pub fn unopened_port(name: &str, why: &str) -> (r: String)
    ensures
        r@ == "could not open MIDI port '"@ + name@ + "': "@ + why@,
{
    let mut out = "could not open MIDI port '".to_owned();
    out.append(name);
    out.append("': ");
    out.append(why);
    out
}

/// One message of one port.
pub ghost struct Sent {
    pub port: Seq<char>,
    pub msg: [u8; 3],
}

/// The subscriptions after a run of messages.
pub open spec fn delivered_all(
    subs: Seq<SubView>,
    default: Option<Seq<char>>,
    log: Seq<Sent>,
) -> Seq<SubView>
    decreases log.len(),
{
    if log.len() == 0 {
        subs
    } else {
        delivered(
            delivered_all(subs, default, log.drop_last()),
            default,
            log.last().port,
            log.last().msg,
        )
    }
}

/// The messages of a run that a subscription hears.
pub open spec fn heard(s: SubView, default: Option<Seq<char>>, log: Seq<Sent>) -> Seq<[u8; 3]>
    decreases log.len(),
{
    if log.len() == 0 {
        Seq::empty()
    } else {
        let before = heard(s, default, log.drop_last());
        if hears(s, default, log.last().port) {
            before.push(log.last().msg)
        } else {
            before
        }
    }
}

/// The newest of the messages, as many as a queue holds.
pub open spec fn newest(q: Seq<[u8; 3]>) -> Seq<[u8; 3]> {
    if q.len() > MAX_QUEUED_EVENTS {
        q.skip(q.len() - MAX_QUEUED_EVENTS)
    } else {
        q
    }
}

proof fn lemma_living_all(subs: Seq<SubView>)
    requires
        forall|k: int| 0 <= k < subs.len() ==> (#[trigger] subs[k]).live,
    ensures
        living(subs) == subs,
    decreases subs.len(),
{
    reveal(Seq::filter);
    if subs.len() > 0 {
        let front = subs.drop_last();
        assert forall|k: int| 0 <= k < front.len() implies (#[trigger] front[k]).live by {
            assert(front[k] == subs[k]);
        }
        lemma_living_all(front);
        assert(subs.last() == subs[subs.len() - 1]);
        assert(front.push(subs.last()) =~= subs);
    } else {
        assert(living(subs) =~= subs);
    }
}

/// Every instance that is open hears everything its keyboard sends, in order,
/// and nothing else, however many others listen to the same one: what its queue
/// holds after a run of messages is what it held and what it heard since, up to
/// what a queue holds.
pub proof fn law_every_instance_hears_its_whole_keyboard(
    subs: Seq<SubView>,
    default: Option<Seq<char>>,
    log: Seq<Sent>,
    k: int,
)
    requires
        forall|i: int| 0 <= i < subs.len() ==> (#[trigger] subs[i]).live,
        0 <= k < subs.len(),
        subs[k].queue.len() <= MAX_QUEUED_EVENTS,
    ensures
        delivered_all(subs, default, log).len() == subs.len(),
        delivered_all(subs, default, log)[k] == (SubView {
            queue: newest(subs[k].queue + heard(subs[k], default, log)),
            ..subs[k]
        }),
    decreases log.len(),
{
    if log.len() == 0 {
        assert(subs[k].queue + Seq::<[u8; 3]>::empty() =~= subs[k].queue);
    } else {
        let before = delivered_all(subs, default, log.drop_last());
        law_every_instance_hears_its_whole_keyboard(subs, default, log.drop_last(), k);
        lemma_all_stay(subs, default, log.drop_last());
        lemma_living_all(before);
        let old_heard = heard(subs[k], default, log.drop_last());
        let all = subs[k].queue + old_heard;
        if hears(subs[k], default, log.last().port) {
            assert(subs[k].queue + old_heard.push(log.last().msg) =~= all.push(log.last().msg));
            assert(queued(newest(all), log.last().msg) =~= newest(all.push(log.last().msg)));
        }
    }
}

proof fn lemma_all_stay(subs: Seq<SubView>, default: Option<Seq<char>>, log: Seq<Sent>)
    requires
        forall|i: int| 0 <= i < subs.len() ==> (#[trigger] subs[i]).live,
    ensures
        delivered_all(subs, default, log).len() == subs.len(),
        forall|i: int|
            0 <= i < subs.len() ==> (#[trigger] delivered_all(subs, default, log)[i]).live,
    decreases log.len(),
{
    if log.len() > 0 {
        lemma_all_stay(subs, default, log.drop_last());
        lemma_living_all(delivered_all(subs, default, log.drop_last()));
    }
}

/// Once the unused ports are closed, the open ones are those that were open and
/// are listened to, each of them once: a port is held by the instances that
/// still want it and by the panel, and by nothing else.
pub proof fn law_an_unwanted_keyboard_is_let_go(v: RouterView, p: Seq<char>)
    requires
        router_wf(v),
    ensures
        ({
            let open = still_open(v.open, v.default_port, living(v.subs));
            &&& open.no_duplicates()
            &&& open.contains(p) <==> v.open.contains(p) && (v.default_port == Some(p) || exists|
                k: int,
            |
                0 <= k < v.subs.len() && (#[trigger] v.subs[k]).live && v.subs[k].want == Some(p))
        }),
{
    let subs = living(v.subs);
    lemma_living(v.subs);
    lemma_still_open(v.open, v.default_port, subs);
    if wanted(p, v.default_port, subs) && v.default_port != Some(p) {
        let k = choose|k: int| 0 <= k < subs.len() && (#[trigger] subs[k]).want == Some(p);
        assert(v.subs.contains(subs[k]));
        let i = choose|i: int| 0 <= i < v.subs.len() && v.subs[i] == subs[k];
        assert(v.subs[i].live && v.subs[i].want == Some(p));
    }
    if exists|k: int|
        0 <= k < v.subs.len() && (#[trigger] v.subs[k]).live && v.subs[k].want == Some(p) {
        let k = choose|k: int|
            0 <= k < v.subs.len() && (#[trigger] v.subs[k]).live && v.subs[k].want == Some(p);
        assert(subs.contains(v.subs[k]));
        let i = choose|i: int| 0 <= i < subs.len() && subs[i] == v.subs[k];
        assert(subs[i].want == Some(p));
    }
}

/// A message goes to every subscriber that is there and asked for its port, or asked
/// for none while the port is the default; each of those has it behind what it had,
/// and a full queue loses its oldest. Nobody else hears it.
pub proof fn law_a_message_goes_to_who_listens_to_its_port(
    subs: Seq<SubView>,
    default: Option<Seq<char>>,
    port: Seq<char>,
    msg: [u8; 3],
    k: int,
)
    requires
        forall|i: int| 0 <= i < subs.len() ==> (#[trigger] subs[i]).live,
        0 <= k < subs.len(),
        subs[k].queue.len() <= 1024,
    ensures
        delivered(subs, default, port, msg).len() == subs.len(),
        ({
            let s = subs[k];
            let r = delivered(subs, default, port, msg)[k];
            let mine = s.want == Some(port) || (s.want is None && default == Some(port));
            &&& r.id == s.id && r.want == s.want && r.live
            &&& mine && s.queue.len() < 1024 ==> r.queue == s.queue.push(msg)
            &&& mine && s.queue.len() == 1024 ==> r.queue == s.queue.skip(1).push(msg)
            &&& !mine ==> r.queue == s.queue
        }),
{
    lemma_all_live(subs);
}

proof fn lemma_all_live(s: Seq<SubView>)
    requires
        forall|k: int| 0 <= k < s.len() ==> (#[trigger] s[k]).live,
    ensures
        living(s) == s,
    decreases s.len(),
{
    reveal(Seq::filter);
    if s.len() > 0 {
        let front = s.drop_last();
        assert forall|k: int| 0 <= k < front.len() implies (#[trigger] front[k]).live by {
            assert(front[k] == s[k]);
        }
        lemma_all_live(front);
        assert(s.last() == s[s.len() - 1]);
        assert(front.push(s.last()) =~= s);
    } else {
        assert(living(s) =~= s);
    }
}

/// The subscribers that are kept are those that are there.
pub proof fn law_who_has_gone_is_swept_out(s: Seq<SubView>)
    ensures
        forall|x: SubView| #[trigger] living(s).contains(x) <==> s.contains(x) && x.live,
{
    crate::order::lemma_filter(s, |x: SubView| x.live);
}

/// A subscriber is found by its id, and is not there only where none has it.
pub proof fn law_a_subscriber_is_found_by_its_id(s: Seq<SubView>, id: u64)
    ensures
        0 <= sub_place(s, id) <= s.len(),
        sub_place(s, id) < s.len() ==> s[sub_place(s, id)].id == id,
        forall|k: int| 0 <= k < s.len() && (#[trigger] s[k]).id == id ==> sub_place(s, id) <= k,
    decreases s.len(),
{
    if s.len() > 0 && s[0].id != id {
        let rest = s.skip(1);
        law_a_subscriber_is_found_by_its_id(rest, id);
        assert forall|k: int| 0 <= k < s.len() && (#[trigger] s[k]).id == id implies sub_place(
            s,
            id,
        ) <= k by {
            if k > 0 {
                assert(rest[k - 1] == s[k]);
            }
        }
    }
}

/// Every port that is open is kept or closed, never both: it is kept where it is the
/// default or a subscriber asked for it, and closed where neither holds.
pub proof fn law_a_port_is_kept_or_closed(
    open: Seq<Seq<char>>,
    default: Option<Seq<char>>,
    subs: Seq<SubView>,
    port: Seq<char>,
)
    ensures
        still_open(open, default, subs).contains(port) <==> open.contains(port) && (default == Some(
            port,
        ) || exists|k: int| 0 <= k < subs.len() && (#[trigger] subs[k]).want == Some(port)),
        to_close(open, default, subs).contains(port) <==> open.contains(port) && default != Some(
            port,
        ) && forall|k: int| 0 <= k < subs.len() ==> (#[trigger] subs[k]).want != Some(port),
{
    crate::order::lemma_filter(open, |name: Seq<char>| wanted(name, default, subs));
    crate::order::lemma_filter(open, |name: Seq<char>| !wanted(name, default, subs));
}

/// What a port is asked for as a text.
pub proof fn law_a_port_is_asked_for_by_name(s: Option<String>)
    ensures
        s is Some ==> text_of(s) == Some(s->0@),
        s is None ==> text_of(s) is None,
{
}

/// What is seen of names is what they are, one by one.
pub proof fn law_what_is_seen_of_names(v: Seq<String>, i: int)
    requires
        0 <= i < v.len(),
    ensures
        texts(v).len() == v.len(),
        texts(v)[i] == v[i]@,
{
}

} // verus!
