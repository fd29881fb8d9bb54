//! The window around a plugin's own editor: the run loop the plugin registers
//! its descriptors and timers with, and the size of the window.
//!
//! A plugin on X11 has no event loop of its own; the host provides one. Handlers
//! are named by the addresses the plugin gives, and times are in microseconds.

use vstd::prelude::*;

verus! {

/// How long the loop may sleep before it looks whether it should close, in
/// milliseconds.
pub const MAX_POLL_MS: i32 = 16;

/// The window where the editor does not say how big it is.
pub const PLAIN_WIDTH: i32 = 1000;

pub const PLAIN_HEIGHT: i32 = 800;

/// The greatest side a window has, and the least it starts with.
pub const MAX_SIDE: i32 = 8192;

pub const MIN_SIDE: i32 = 64;

/// A descriptor the plugin wants watched, and who is told.
#[derive(Clone, Copy, PartialEq, Eq, Debug, Structural)]
pub struct Watch {
    pub handler: u64,
    pub fd: i32,
}

/// A timer of the plugin.
#[derive(Clone, Copy, PartialEq, Eq, Debug, Structural)]
pub struct Timer {
    pub handler: u64,
    pub interval: u128,
    /// When it is due.
    pub next: u128,
}

/// The edges of a view.
#[derive(Clone, Copy, PartialEq, Eq, Debug, Structural)]
pub struct Rect {
    pub left: i32,
    pub top: i32,
    pub right: i32,
    pub bottom: i32,
}

/// The host's side of an editor: its frame and its run loop.
#[derive(Debug)]
pub struct EditorFrame {
    pub handlers: Vec<Watch>,
    pub timers: Vec<Timer>,
    /// A size the plugin asked for, to be applied by the loop.
    pub pending_resize: Option<Rect>,
}

/// The watches of other handlers.
pub open spec fn other_watches(s: Seq<Watch>, handler: u64) -> Seq<Watch> {
    s.filter(|w: Watch| w.handler != handler)
}

/// The timers of other handlers.
pub open spec fn other_timers(s: Seq<Timer>, handler: u64) -> Seq<Timer> {
    s.filter(|t: Timer| t.handler != handler)
}

/// Who is told that a descriptor is ready: the first that watches it.
pub open spec fn watcher(s: Seq<Watch>, fd: i32) -> Option<u64>
    decreases s.len(),
{
    if s.len() == 0 {
        None
    } else if s[0].fd == fd {
        Some(s[0].handler)
    } else {
        watcher(s.skip(1), fd)
    }
}

/// A timer once the ones that are due have been told: those are due again after
/// their interval.
pub open spec fn advanced(t: Timer, now: u64) -> Timer {
    if t.next <= now {
        Timer { next: (now + t.interval) as u128, ..t }
    } else {
        t
    }
}

/// The handlers of the first `n` timers that are due.
pub open spec fn due_from(s: Seq<Timer>, now: u64, n: int) -> Seq<u64>
    decreases n,
{
    if n <= 0 {
        Seq::empty()
    } else if s[n - 1].next <= now {
        due_from(s, now, n - 1).push(s[n - 1].handler)
    } else {
        due_from(s, now, n - 1)
    }
}

/// How long until a timer is due, in whole milliseconds.
pub open spec fn wait_of(t: Timer, now: u64) -> int {
    if t.next <= now {
        0
    } else {
        (t.next - now) / 1000
    }
}

/// How long the loop may sleep for the first `n` timers: until the nearest is
/// due, and no longer than it may at all.
pub open spec fn sleep_of(s: Seq<Timer>, now: u64, n: int) -> int
    decreases n,
{
    if n <= 0 {
        MAX_POLL_MS as int
    } else {
        let before = sleep_of(s, now, n - 1);
        let wait = wait_of(s[n - 1], now);
        if wait < before {
            wait
        } else {
            before
        }
    }
}

/// Intervals are those that a plugin can ask for.
pub open spec fn timers_wf(s: Seq<Timer>) -> bool {
    forall|i: int|
        0 <= i < s.len() ==> (#[trigger] s[i]).interval <= 1000 * 0xffff_ffff_ffff_ffffu128
}

impl EditorFrame {
    /// A frame nothing is registered with.
    pub fn new() -> (r: EditorFrame)
        ensures
            r.handlers@.len() == 0,
            r.timers@.len() == 0,
            timers_wf(r.timers@),
            r.pending_resize is None,
    {
        EditorFrame { handlers: Vec::new(), timers: Vec::new(), pending_resize: None }
    }

    /// The plugin asks for another size; false where it gives none. The window is
    /// not resized here: the plugin is inside a call of its own, and the loop
    /// tells it.
    pub fn resize_view(&mut self, size: Option<Rect>) -> (r: bool)
        ensures
            r == (size is Some),
            final(self).handlers == old(self).handlers,
            final(self).timers == old(self).timers,
            final(self).pending_resize == (if size is Some {
                size
            } else {
                old(self).pending_resize
            }),
    {
        if size.is_none() {
            return false;
        }
        self.pending_resize = size;
        true
    }

    /// Watch a descriptor for a handler; false for no handler.
    pub fn register_event_handler(&mut self, handler: u64, fd: i32) -> (r: bool)
        ensures
            r == (handler != 0),
            final(self).timers == old(self).timers,
            final(self).pending_resize == old(self).pending_resize,
            final(self).handlers@ == (if handler != 0 {
                old(self).handlers@.push(Watch { handler, fd })
            } else {
                old(self).handlers@
            }),
    {
        if handler == 0 {
            return false;
        }
        self.handlers.push(Watch { handler, fd });
        true
    }

    /// Stop watching anything for a handler.
    pub fn unregister_event_handler(&mut self, handler: u64)
        ensures
            final(self).timers == old(self).timers,
            final(self).pending_resize == old(self).pending_resize,
            final(self).handlers@ == other_watches(old(self).handlers@, handler),
    {
        let ghost all = self.handlers@;
        let n: usize = self.handlers.len();
        let mut kept: Vec<Watch> = Vec::new();
        let mut k: usize = 0;
        proof {
            reveal(Seq::filter);
            assert(other_watches(all.take(0), handler) =~= Seq::empty());
        }
        while k < n
            invariant
                k <= n,
                n == all.len(),
                self.handlers@ == all,
                self.timers == old(self).timers,
                self.pending_resize == old(self).pending_resize,
                kept@ == other_watches(all.take(k as int), handler),
            decreases n - k,
        {
            proof {
                reveal(Seq::filter);
                let t = all.take(k + 1);
                assert(t.drop_last() =~= all.take(k as int));
                assert(t.last() == all[k as int]);
            }
            if self.handlers[k].handler != handler {
                kept.push(self.handlers[k]);
            }
            k += 1;
        }
        assert(all.take(n as int) =~= all);
        self.handlers = kept;
    }

    /// Call a handler every so many milliseconds; false for no handler. Nothing is
    /// called more often than once a millisecond, so that one plugin cannot spin
    /// the thread.
    pub fn register_timer(&mut self, handler: u64, milliseconds: u64, now: u64) -> (r: bool)
        requires
            timers_wf(old(self).timers@),
        ensures
            timers_wf(final(self).timers@),
            r == (handler != 0),
            final(self).handlers == old(self).handlers,
            final(self).pending_resize == old(self).pending_resize,
            ({
                let interval = 1000 * if milliseconds == 0 {
                    1
                } else {
                    milliseconds as int
                };
                final(self).timers@ == (if handler != 0 {
                    old(self).timers@.push(
                        Timer {
                            handler,
                            interval: interval as u128,
                            next: (now + interval) as u128,
                        },
                    )
                } else {
                    old(self).timers@
                })
            }),
    {
        if handler == 0 {
            return false;
        }
        let ms: u128 = if milliseconds == 0 {
            1
        } else {
            milliseconds as u128
        };
        let interval: u128 = 1000 * ms;
        self.timers.push(Timer { handler, interval, next: now as u128 + interval });
        true
    }

    /// Stop the timers of a handler.
    pub fn unregister_timer(&mut self, handler: u64)
        requires
            timers_wf(old(self).timers@),
        ensures
            timers_wf(final(self).timers@),
            final(self).handlers == old(self).handlers,
            final(self).pending_resize == old(self).pending_resize,
            final(self).timers@ == other_timers(old(self).timers@, handler),
    {
        let ghost all = self.timers@;
        let n: usize = self.timers.len();
        let mut kept: Vec<Timer> = Vec::new();
        let mut k: usize = 0;
        proof {
            reveal(Seq::filter);
            assert(other_timers(all.take(0), handler) =~= Seq::empty());
        }
        while k < n
            invariant
                k <= n,
                n == all.len(),
                self.timers@ == all,
                timers_wf(all),
                timers_wf(kept@),
                self.handlers == old(self).handlers,
                self.pending_resize == old(self).pending_resize,
                kept@ == other_timers(all.take(k as int), handler),
            decreases n - k,
        {
            proof {
                reveal(Seq::filter);
                let t = all.take(k + 1);
                assert(t.drop_last() =~= all.take(k as int));
                assert(t.last() == all[k as int]);
            }
            if self.timers[k].handler != handler {
                kept.push(self.timers[k]);
            }
            k += 1;
        }
        assert(all.take(n as int) =~= all);
        self.timers = kept;
    }

    /// The descriptors to poll.
    pub fn watched_fds(&self) -> (r: Vec<i32>)
        ensures
            r@ == self.handlers@.map_values(|w: Watch| w.fd),
    {
        let mut out: Vec<i32> = Vec::new();
        let n: usize = self.handlers.len();
        let mut k: usize = 0;
        while k < n
            invariant
                k <= n,
                n == self.handlers@.len(),
                out@.len() == k,
                forall|i: int| 0 <= i < k ==> #[trigger] out@[i] == self.handlers@[i].fd,
            decreases n - k,
        {
            out.push(self.handlers[k].fd);
            k += 1;
        }
        assert(out@ =~= self.handlers@.map_values(|w: Watch| w.fd));
        out
    }

    /// How long the loop may block, in milliseconds: until the nearest timer,
    /// capped.
    pub fn poll_timeout_ms(&self, now: u64) -> (r: i32)
        ensures
            r == sleep_of(self.timers@, now, self.timers@.len() as int),
            0 <= r <= MAX_POLL_MS,
    {
        let mut best: u128 = MAX_POLL_MS as u128;
        let n: usize = self.timers.len();
        let mut k: usize = 0;
        while k < n
            invariant
                k <= n,
                n == self.timers@.len(),
                best == sleep_of(self.timers@, now, k as int),
                best <= MAX_POLL_MS,
            decreases n - k,
        {
            let next: u128 = self.timers[k].next;
            let wait: u128 = if next <= now as u128 {
                0
            } else {
                (next - now as u128) / 1000
            };
            if wait < best {
                best = wait;
            }
            k += 1;
        }
        best as i32
    }

    /// Who is told that a descriptor is ready. Asked right before telling: a
    /// handler told a moment ago may have unregistered this one.
    pub fn handler_of(&self, fd: i32) -> (r: Option<u64>)
        ensures
            r == watcher(self.handlers@, fd),
    {
        let n: usize = self.handlers.len();
        let mut k: usize = 0;
        assert(self.handlers@.skip(0) =~= self.handlers@);
        while k < n
            invariant
                k <= n,
                n == self.handlers@.len(),
                watcher(self.handlers@, fd) == watcher(self.handlers@.skip(k as int), fd),
            decreases n - k,
        {
            assert(self.handlers@.skip(k as int)[0] == self.handlers@[k as int]);
            if self.handlers[k].fd == fd {
                return Some(self.handlers[k].handler);
            }
            assert(self.handlers@.skip(k as int).skip(1) =~= self.handlers@.skip(k + 1));
            k += 1;
        }
        None
    }

    /// The timers that are due. Their deadlines are moved on before any is called,
    /// so that a slow callback cannot make the loop call back to back.
    pub fn take_due(&mut self, now: u64) -> (r: Vec<u64>)
        requires
            timers_wf(old(self).timers@),
        ensures
            timers_wf(final(self).timers@),
            r@ == due_from(old(self).timers@, now, old(self).timers@.len() as int),
            final(self).handlers == old(self).handlers,
            final(self).pending_resize == old(self).pending_resize,
            final(self).timers@ == old(self).timers@.map_values(|t: Timer| advanced(t, now)),
    {
        let ghost all = self.timers@;
        let mut due: Vec<u64> = Vec::new();
        let n: usize = self.timers.len();
        let mut k: usize = 0;
        while k < n
            invariant
                k <= n,
                n == all.len(),
                timers_wf(all),
                self.handlers == old(self).handlers,
                self.pending_resize == old(self).pending_resize,
                self.timers@.len() == n,
                due@ == due_from(all, now, k as int),
                forall|i: int| 0 <= i < k ==> #[trigger] self.timers@[i] == advanced(all[i], now),
                forall|i: int| k <= i < n ==> #[trigger] self.timers@[i] == all[i],
            decreases n - k,
        {
            let t: Timer = self.timers[k];
            assert(t == all[k as int]);
            if t.next <= now as u128 {
                due.push(t.handler);
                self.timers.set(
                    k,
                    Timer { handler: t.handler, interval: t.interval, next: now as u128 + t.interval },
                );
            }
            assert(self.timers@[k as int] == advanced(all[k as int], now));
            k += 1;
        }
        assert(self.timers@ =~= all.map_values(|t: Timer| advanced(t, now)));
        due
    }

    /// Whether a handler still has a timer: a callback before it may have dropped
    /// it.
    pub fn has_timer(&self, handler: u64) -> (r: bool)
        ensures
            r == exists|i: int|
                0 <= i < self.timers@.len() && (#[trigger] self.timers@[i]).handler == handler,
    {
        let n: usize = self.timers.len();
        let mut k: usize = 0;
        while k < n
            invariant
                k <= n,
                n == self.timers@.len(),
                forall|i: int| 0 <= i < k ==> (#[trigger] self.timers@[i]).handler != handler,
            decreases n - k,
        {
            if self.timers[k].handler == handler {
                assert(self.timers@[k as int].handler == handler);
                return true;
            }
            k += 1;
        }
        false
    }

    /// The size the plugin asked for, which is then taken.
    pub fn take_pending_resize(&mut self) -> (r: Option<Rect>)
        ensures
            r == old(self).pending_resize,
            *final(self) == (EditorFrame { pending_resize: None, ..*old(self) }),
    {
        let r = self.pending_resize;
        self.pending_resize = None;
        r
    }
}

/// A timer that is due is told once, and then not before its interval is over.
pub proof fn law_a_timer_is_not_called_back_to_back(t: Timer, now: u64, later: u64)
    requires
        t.next <= now <= later,
        t.interval > 0,
        now + t.interval <= u128::MAX,
        later < now + t.interval,
    ensures
        advanced(t, now).next > later,
        advanced(advanced(t, now), later) == advanced(t, now),
{
}

/// While the loop sleeps it misses no timer: when it wakes, none has been due for
/// a millisecond.
pub proof fn law_the_loop_wakes_in_time(s: Seq<Timer>, now: u64, i: int)
    requires
        0 <= i < s.len(),
    ensures
        sleep_of(s, now, s.len() as int) <= MAX_POLL_MS,
        sleep_of(s, now, s.len() as int) <= wait_of(s[i], now),
{
    lemma_sleep(s, now, s.len() as int, i);
}

proof fn lemma_sleep(s: Seq<Timer>, now: u64, n: int, i: int)
    requires
        0 <= i < n <= s.len(),
    ensures
        sleep_of(s, now, n) <= MAX_POLL_MS,
        sleep_of(s, now, n) <= wait_of(s[i], now),
    decreases n,
{
    if n > 1 {
        if i < n - 1 {
            lemma_sleep(s, now, n - 1, i);
        } else {
            lemma_sleep(s, now, n - 1, 0);
        }
    } else {
        assert(sleep_of(s, now, 0) == MAX_POLL_MS);
    }
}

/// A length held between two.
pub open spec fn held_between(n: int, lo: int, hi: int) -> int {
    if n < lo {
        lo
    } else if n > hi {
        hi
    } else {
        n
    }
}

/// The size of a window for a view, at least `least` a side.
pub fn window_size(rect: Rect, least: i32) -> (r: (i32, i32))
    requires
        0 < least <= MAX_SIDE,
    ensures
        r.0 == held_between(rect.right - rect.left, least as int, MAX_SIDE as int),
        r.1 == held_between(rect.bottom - rect.top, least as int, MAX_SIDE as int),
{
    let w: i64 = rect.right as i64 - rect.left as i64;
    let h: i64 = rect.bottom as i64 - rect.top as i64;
    (hold(w, least, MAX_SIDE), hold(h, least, MAX_SIDE))
}

fn hold(n: i64, lo: i32, hi: i32) -> (r: i32)
    requires
        lo <= hi,
    ensures
        r == held_between(n as int, lo as int, hi as int),
{
    if n < lo as i64 {
        lo
    } else if n > hi as i64 {
        hi
    } else {
        n as i32
    }
}

/// The view that fills a window.
pub fn full_view(width: i32, height: i32) -> (r: Rect)
    ensures
        r == (Rect { left: 0, top: 0, right: width, bottom: height }),
{
    Rect { left: 0, top: 0, right: width, bottom: height }
}

/// What the window manager is told of a window's size. A window of a fixed size
/// has the same least and greatest.
#[derive(Clone, Copy, Debug)]
pub struct SizeHints {
    pub base: (i32, i32),
    pub least: (i32, i32),
    pub most: Option<(i32, i32)>,
}

/// Most editors are of a fixed size. It says so, or a window manager that sizes
/// windows itself leaves the editor drawn small in a corner.
pub fn size_hints(width: i32, height: i32, resizable: bool) -> (r: SizeHints)
    ensures
        r.base == (width, height),
        r.least == (if resizable {
            (MIN_SIDE, MIN_SIDE)
        } else {
            (width, height)
        }),
        r.most == (if resizable {
            None
        } else {
            Some((width, height))
        }),
{
    if resizable {
        SizeHints { base: (width, height), least: (MIN_SIDE, MIN_SIDE), most: None }
    } else {
        SizeHints {
            base: (width, height),
            least: (width, height),
            most: Some((width, height)),
        }
    }
}

/// A window while its editor is open.
#[derive(Clone, Copy, PartialEq, Eq, Debug, Structural)]
pub struct EditorWindow {
    pub width: i32,
    pub height: i32,
    /// The loop goes on.
    pub running: bool,
}

/// What the server says has happened to a window.
#[derive(Clone, Copy, PartialEq, Eq, Debug, Structural)]
pub enum WindowEvent {
    /// It has this size now.
    Configured { width: i32, height: i32 },
    /// The user closed it.
    Closed,
    /// Anything else.
    Other,
}

impl EditorWindow {
    /// A window of a view's size, which is about to be attached.
    pub fn new(rect: Rect) -> (r: EditorWindow)
        ensures
            r.width == held_between(rect.right - rect.left, MIN_SIDE as int, MAX_SIDE as int),
            r.height == held_between(rect.bottom - rect.top, MIN_SIDE as int, MAX_SIDE as int),
            r.running,
    {
        let (width, height) = window_size(rect, MIN_SIDE);
        EditorWindow { width, height, running: true }
    }

    /// Something happened to the window: the size to tell the view of, where it
    /// has changed.
    pub fn on_event(&mut self, event: WindowEvent) -> (r: Option<Rect>)
        ensures
            match event {
                WindowEvent::Configured { width, height } => {
                    &&& *final(self) == (EditorWindow { width, height, ..*old(self) })
                    &&& r == (if width != old(self).width || height != old(self).height {
                        Some(Rect { left: 0, top: 0, right: width, bottom: height })
                    } else {
                        None
                    })
                },
                WindowEvent::Closed => {
                    &&& *final(self) == (EditorWindow { running: false, ..*old(self) })
                    &&& r is None
                },
                WindowEvent::Other => *final(self) == *old(self) && r is None,
            },
    {
        match event {
            WindowEvent::Configured { width, height } => {
                if width != self.width || height != self.height {
                    self.width = width;
                    self.height = height;
                    Some(full_view(width, height))
                } else {
                    None
                }
            },
            WindowEvent::Closed => {
                self.running = false;
                None
            },
            WindowEvent::Other => None,
        }
    }

    /// The plugin asked for a size: the one to give the window, where it is
    /// another.
    pub fn on_resize(&mut self, rect: Rect) -> (r: Option<Rect>)
        ensures
            ({
                let w = held_between(rect.right - rect.left, 1, MAX_SIDE as int);
                let h = held_between(rect.bottom - rect.top, 1, MAX_SIDE as int);
                &&& final(self).width == w
                &&& final(self).height == h
                &&& final(self).running == old(self).running
                &&& r == (if w != old(self).width || h != old(self).height {
                    Some(Rect { left: 0, top: 0, right: w as i32, bottom: h as i32 })
                } else {
                    None
                })
            }),
    {
        let (w, h) = window_size(rect, 1);
        if w != self.width || h != self.height {
            self.width = w;
            self.height = h;
            Some(full_view(w, h))
        } else {
            None
        }
    }

    /// Whether the loop goes on.
    pub fn goes_on(&self, asked_to_close: bool) -> (r: bool)
        ensures
            r == (self.running && !asked_to_close),
    {
        self.running && !asked_to_close
    }
}

/// The title of an editor's window.
pub fn window_title(plugin: &str) -> (r: String)
    ensures
        r@ == plugin@ + " — Editor"@,
{
    let mut out = plugin.to_owned();
    out.append(" — Editor");
    out
}

/// A character in UTF-16: one unit, or two surrogates.
pub open spec fn units_of(c: char) -> Seq<u16> {
    let n = c as u32;
    if n < 0x1_0000 {
        seq![n as u16]
    } else {
        seq![
            (0xD800 + (n - 0x1_0000) / 0x400) as u16,
            (0xDC00 + (n - 0x1_0000) % 0x400) as u16,
        ]
    }
}

/// A text in UTF-16.
pub open spec fn utf16(s: Seq<char>) -> Seq<u16>
    decreases s.len(),
{
    if s.len() == 0 {
        Seq::empty()
    } else {
        utf16(s.drop_last()) + units_of(s.last())
    }
}

/// A text as a buffer of UTF-16 that ends in a zero.
pub fn to_wide(s: &str) -> (r: Vec<u16>)
    ensures
        r@ == utf16(s@).push(0),
{
    let v = crate::text::chars_of(s);
    let mut out: Vec<u16> = Vec::new();
    let n: usize = v.len();
    let mut k: usize = 0;
    assert(utf16(v@.take(0)) =~= Seq::empty());
    while k < n
        invariant
            k <= n,
            n == v@.len(),
            out@ == utf16(v@.take(k as int)),
        decreases n - k,
    {
        proof {
            let t = v@.take(k + 1);
            assert(t.drop_last() =~= v@.take(k as int));
            assert(t.last() == v@[k as int]);
        }
        let ghost before = out@;
        let c: char = v[k];
        let u: u32 = c as u32;
        if u < 0x1_0000 {
            out.push(u as u16);
            assert(out@ =~= before + units_of(c));
        } else {
            let over: u32 = u - 0x1_0000;
            out.push((0xD800 + over / 0x400) as u16);
            out.push((0xDC00 + over % 0x400) as u16);
            assert(out@ =~= before + units_of(c));
        }
        k += 1;
    }
    assert(v@.take(n as int) =~= v@);
    out.push(0);
    out
}

/// Where text starts in a row of units: whether a unit opens a pair.
pub open spec fn opens_pair(u: u16) -> bool {
    0xD800 <= u < 0xDC00
}

/// A character reads back from its units: it is a pair exactly where the first
/// unit opens one, and the numbers add up to it.
pub proof fn law_a_character_reads_back(c: char)
    ensures
        units_of(c).len() == (if opens_pair(units_of(c)[0]) {
            2
        } else {
            1int
        }),
        units_of(c).len() == 1 ==> units_of(c)[0] == c as u32,
        units_of(c).len() == 2 ==> 0x1_0000 + (units_of(c)[0] - 0xD800) * 0x400 + (units_of(c)[1]
            - 0xDC00) == c as u32 && 0xDC00 <= units_of(c)[1] < 0xE000,
{
    let n = c as u32;
    if n >= 0x1_0000 {
        let over = n - 0x1_0000;
        assert(over / 0x400 * 0x400 + over % 0x400 == over);
    }
}

/// Taking a handler off leaves what others watch and wait for, and nothing of its
/// own.
pub proof fn law_taking_a_handler_off_leaves_the_others(
    watches: Seq<Watch>,
    timers: Seq<Timer>,
    handler: u64,
)
    ensures
        forall|w: Watch| #[trigger]
            other_watches(watches, handler).contains(w) <==> watches.contains(w) && w.handler
                != handler,
        forall|t: Timer| #[trigger]
            other_timers(timers, handler).contains(t) <==> timers.contains(t) && t.handler
                != handler,
{
    crate::order::lemma_filter(watches, |w: Watch| w.handler != handler);
    crate::order::lemma_filter(timers, |t: Timer| t.handler != handler);
}

/// What becomes ready goes to the first handler that watches it, and to none only
/// where none does.
pub proof fn law_who_watches(s: Seq<Watch>, fd: i32, k: int)
    requires
        0 <= k < s.len(),
        s[k].fd == fd,
        forall|i: int| 0 <= i < k ==> (#[trigger] s[i]).fd != fd,
    ensures
        watcher(s, fd) == Some(s[k].handler),
    decreases s.len(),
{
    if k > 0 {
        assert(s[0].fd != fd);
        let rest = s.skip(1);
        assert forall|i: int| 0 <= i < k - 1 implies (#[trigger] rest[i]).fd != fd by {
            assert(rest[i] == s[i + 1]);
        }
        assert(rest[k - 1] == s[k]);
        law_who_watches(rest, fd, k - 1);
    }
}

/// What nobody watches goes to nobody.
pub proof fn law_what_nobody_watches(s: Seq<Watch>, fd: i32)
    requires
        forall|i: int| 0 <= i < s.len() ==> (#[trigger] s[i]).fd != fd,
    ensures
        watcher(s, fd) is None,
    decreases s.len(),
{
    if s.len() > 0 {
        assert(s[0].fd != fd);
        let rest = s.skip(1);
        assert forall|i: int| 0 <= i < rest.len() implies (#[trigger] rest[i]).fd != fd by {
            assert(rest[i] == s[i + 1]);
        }
        law_what_nobody_watches(rest, fd);
    }
}

/// A timer that is due is due next one interval from now, and one that is not stays
/// as it is.
pub proof fn law_when_a_timer_is_due_next(t: Timer, now: u64)
    requires
        now + t.interval <= u128::MAX,
    ensures
        advanced(t, now).handler == t.handler,
        advanced(t, now).interval == t.interval,
        t.next <= now ==> advanced(t, now).next == now + t.interval,
        t.next > now ==> advanced(t, now).next == t.next,
{
}

/// Every timer that is due is called, in order, and no other: `at` is the timer of
/// each call.
pub proof fn law_every_timer_that_is_due_is_called(s: Seq<Timer>, now: u64, n: int) -> (at: Seq<int>)
    requires
        0 <= n <= s.len(),
    ensures
        at.len() == due_from(s, now, n).len(),
        forall|j: int, k: int| 0 <= j < k < at.len() ==> #[trigger] at[j] < #[trigger] at[k],
        forall|i: int| 0 <= i < n && (#[trigger] s[i]).next <= now ==> at.contains(i),
        forall|k: int|
            0 <= k < at.len() ==> 0 <= #[trigger] at[k] < n && s[at[k]].next <= now && due_from(
                s,
                now,
                n,
            )[k] == s[at[k]].handler,
    decreases n,
{
    if n <= 0 {
        Seq::empty()
    } else {
        let before = law_every_timer_that_is_due_is_called(s, now, n - 1);
        let at = if s[n - 1].next <= now {
            before.push(n - 1)
        } else {
            before
        };
        assert forall|i: int| 0 <= i < n && (#[trigger] s[i]).next <= now implies at.contains(
            i,
        ) by {
            if i < n - 1 {
                assert(before.contains(i));
                let k = choose|k: int| 0 <= k < before.len() && before[k] == i;
                assert(at[k] == i);
            } else {
                assert(at[before.len() as int] == i);
            }
        }
        at
    }
}

/// The loop sleeps no longer than it has to, and no shorter: for the wait of some
/// timer, to the whole millisecond, or for the longest it may.
pub proof fn law_the_loop_sleeps_as_long_as_it_may(s: Seq<Timer>, now: u64, n: int)
    requires
        0 <= n <= s.len(),
    ensures
        MAX_POLL_MS == 16,
        sleep_of(s, now, n) == 16 || exists|i: int|
            0 <= i < n && sleep_of(s, now, n) == wait_of(#[trigger] s[i], now),
        forall|i: int| 0 <= i < n ==> sleep_of(s, now, n) <= wait_of(#[trigger] s[i], now),
        sleep_of(s, now, n) <= 16,
        forall|i: int|
            0 <= i < n ==> if (#[trigger] s[i]).next <= now {
                wait_of(s[i], now) == 0
            } else {
                wait_of(s[i], now) * 1000 <= s[i].next - now < (wait_of(s[i], now) + 1) * 1000
            },
    decreases n,
{
    if n > 0 {
        law_the_loop_sleeps_as_long_as_it_may(s, now, n - 1);
        if wait_of(s[n - 1], now) < sleep_of(s, now, n - 1) {
            assert(sleep_of(s, now, n) == wait_of(s[n - 1], now));
        }
    }
}

/// A side is held between two bounds: it stays where it lies between them, and is the
/// nearer bound where it does not.
pub proof fn law_a_side_is_held_between_bounds(n: int, lo: int, hi: int)
    requires
        lo <= hi,
    ensures
        lo <= held_between(n, lo, hi) <= hi,
        lo <= n <= hi ==> held_between(n, lo, hi) == n,
        n < lo ==> held_between(n, lo, hi) == lo,
        n > hi ==> held_between(n, lo, hi) == hi,
        MAX_SIDE == 8192 && MIN_SIDE == 64 && PLAIN_WIDTH == 1000 && PLAIN_HEIGHT == 800,
{
}

/// A text in UTF-16 is that of its characters, one after the other, and a character
/// reads back from its units: one, or two that split it at ten bits.
pub proof fn law_how_a_text_is_widened(s: Seq<char>, c: char)
    ensures
        utf16(Seq::empty()).len() == 0,
        utf16(s.push(c)) == utf16(s) + units_of(c),
        (c as u32) < 0x1_0000 ==> units_of(c).len() == 1 && units_of(c)[0] == c as u32,
        (c as u32) >= 0x1_0000 ==> units_of(c).len() == 2 && 0xD800 <= units_of(c)[0] < 0xDC00
            && 0xDC00 <= units_of(c)[1] < 0xE000 && (units_of(c)[0] - 0xD800) * 0x400 + (units_of(
            c,
        )[1] - 0xDC00) + 0x1_0000 == c as u32,
{
    assert(s.push(c).drop_last() =~= s);
}

} // verus!
