//! Recording from an input device: one take at a time, straight into memory.
//!
//! Nobody stops a take to type a name, so a take is named after the moment it
//! started, down to the millisecond.

use vstd::prelude::*;

use crate::path::{join, joined};
use crate::text::{decimal, digit_char, same_str, text_le};

verus! {

/// What the source select box shows for whatever the system is set to.
pub const DEFAULT_INPUT: &'static str = "System default input";

/// How much a take reserves up front, in seconds.
pub const RESERVE_SECS: usize = 60;

/// The longest take kept, in seconds. A recorder left running overnight is a
/// mistake, not a take.
pub const MAX_SECS: usize = 1800;

/// Whether a name is among some.
pub open spec fn is_listed(s: Seq<Seq<char>>, name: Seq<char>) -> bool {
    exists|i: int| 0 <= i < s.len() && #[trigger] s[i] == name
}

/// The input devices on offer: the system default, and every device once, in the
/// order the host gives them.
pub open spec fn offered(devices: Seq<Seq<char>>) -> Seq<Seq<char>>
    decreases devices.len(),
{
    if devices.len() == 0 {
        seq![DEFAULT_INPUT@]
    } else {
        let front = offered(devices.drop_last());
        if is_listed(front, devices.last()) {
            front
        } else {
            front.push(devices.last())
        }
    }
}

/// What names say.
pub open spec fn names_view(s: Seq<String>) -> Seq<Seq<char>> {
    s.map_values(|n: String| n@)
}

fn lists(v: &Vec<String>, name: &str) -> (r: bool)
    ensures
        r == is_listed(names_view(v@), name@),
{
    let mut i: usize = 0;
    while i < v.len()
        invariant
            i <= v.len(),
            forall|k: int| 0 <= k < i ==> #[trigger] names_view(v@)[k] != name@,
        decreases v.len() - i,
    {
        if same_str(v[i].as_str(), name) {
            assert(names_view(v@)[i as int] == name@);
            return true;
        }
        i += 1;
    }
    false
}

/// Every input device on offer, the system default first. `devices` are those
/// that could say their name.
pub fn input_device_names(devices: &Vec<String>) -> (r: Vec<String>)
    ensures
        names_view(r@) == offered(names_view(devices@)),
{
    let ghost all = names_view(devices@);
    let mut out: Vec<String> = Vec::new();
    out.push(DEFAULT_INPUT.to_owned());
    let n: usize = devices.len();
    let mut k: usize = 0;
    assert(names_view(out@) =~= offered(all.take(0)));
    while k < n
        invariant
            k <= n,
            n == devices@.len(),
            all == names_view(devices@),
            names_view(out@) == offered(all.take(k as int)),
        decreases n - k,
    {
        let ghost before = names_view(out@);
        proof {
            let t = all.take(k + 1);
            assert(t.drop_last() =~= all.take(k as int));
            assert(t.last() == devices@[k as int]@);
        }
        if !lists(&out, devices[k].as_str()) {
            out.push(devices[k].clone());
            assert(names_view(out@) =~= before.push(all[k as int]));
        }
        k += 1;
    }
    assert(all.take(n as int) =~= all);
    out
}

/// The default is on offer once and first, and no device is on offer twice.
pub proof fn law_the_default_is_always_offered(devices: Seq<Seq<char>>)
    ensures
        offered(devices).len() > 0,
        offered(devices)[0] == DEFAULT_INPUT@,
        offered(devices).no_duplicates(),
        forall|i: int| 0 <= i < devices.len() ==> is_listed(offered(devices), #[trigger] devices[i]),
    decreases devices.len(),
{
    if devices.len() > 0 {
        let front = offered(devices.drop_last());
        law_the_default_is_always_offered(devices.drop_last());
        let all = offered(devices);
        assert forall|i: int| 0 <= i < devices.len() implies is_listed(
            all,
            #[trigger] devices[i],
        ) by {
            if i < devices.len() - 1 {
                assert(devices.drop_last()[i] == devices[i]);
                let k = choose|k: int| 0 <= k < front.len() && #[trigger] front[k] == devices[i];
                assert(all[k] == devices[i]);
            } else if !is_listed(front, devices.last()) {
                assert(all[front.len() as int] == devices[i]);
            }
        }
    }
}

/// Which device a take comes from.
#[derive(Clone, Copy, PartialEq, Eq, Debug, Structural)]
pub enum Source {
    /// The one the system is set to.
    Default,
    /// The one at a place of the host's list.
    Device { k: usize },
    /// One that is not there any more.
    Gone,
}

/// Where a name first stands, or how many names there are.
pub open spec fn name_place(s: Seq<Seq<char>>, name: Seq<char>) -> int
    decreases s.len(),
{
    if s.len() == 0 || s[0] == name {
        0
    } else {
        1 + name_place(s.skip(1), name)
    }
}

/// The device that a choice of the select box means.
pub fn device_meant(choice: Option<&str>, devices: &Vec<String>) -> (r: Source)
    ensures
        r == (match choice {
            None => Source::Default,
            Some(name) => if name@ == DEFAULT_INPUT@ {
                Source::Default
            } else if name_place(names_view(devices@), name@) < devices@.len() {
                Source::Device { k: name_place(names_view(devices@), name@) as usize }
            } else {
                Source::Gone
            },
        }),
{
    let name = match choice {
        None => {
            return Source::Default;
        },
        Some(n) => n,
    };
    if same_str(name, DEFAULT_INPUT) {
        return Source::Default;
    }
    let ghost all = names_view(devices@);
    let n: usize = devices.len();
    let mut k: usize = 0;
    assert(all.skip(0) =~= all);
    while k < n
        invariant
            k <= n,
            n == devices@.len(),
            all == names_view(devices@),
            choice == Some(name),
            name@ != DEFAULT_INPUT@,
            name_place(all, name@) == k + name_place(all.skip(k as int), name@),
        decreases n - k,
    {
        assert(all.skip(k as int)[0] == devices@[k as int]@);
        if same_str(devices[k].as_str(), name) {
            return Source::Device { k };
        }
        assert(all.skip(k as int).skip(1) =~= all.skip(k + 1));
        k += 1;
    }
    Source::Gone
}

/// A moment on the clock on the wall.
#[derive(Clone, Copy, PartialEq, Eq, Debug, Structural)]
pub struct Moment {
    pub year: i32,
    pub month: u32,
    pub day: u32,
    pub hour: u32,
    pub minute: u32,
    pub second: u32,
    pub millis: u32,
}

/// Whether a year has a day more.
pub open spec fn is_leap(year: int) -> bool {
    year % 4 == 0 && (year % 100 != 0 || year % 400 == 0)
}

/// How many days a month has.
pub open spec fn days_in(year: int, month: int) -> int {
    if month == 2 {
        if is_leap(year) {
            29
        } else {
            28
        }
    } else if month == 4 || month == 6 || month == 9 || month == 11 {
        30
    } else {
        31
    }
}

impl Moment {
    /// There is such a moment.
    pub open spec fn valid(self) -> bool {
        &&& -262_143 <= self.year <= 262_142
        &&& 1 <= self.month <= 12
        &&& 1 <= self.day <= days_in(self.year as int, self.month as int)
        &&& self.hour < 24
        &&& self.minute < 60
        &&& self.second < 60
        &&& self.millis < 1000
    }

    /// Its year has four digits.
    pub open spec fn common(self) -> bool {
        self.valid() && 0 <= self.year <= 9999
    }

    /// Whether it comes before another.
    pub open spec fn before(self, other: Moment) -> bool {
        ||| self.year < other.year
        ||| self.year == other.year && self.month < other.month
        ||| self.year == other.year && self.month == other.month && self.day < other.day
        ||| self.year == other.year && self.month == other.month && self.day == other.day
            && self.hour < other.hour
        ||| self.year == other.year && self.month == other.month && self.day == other.day
            && self.hour == other.hour && self.minute < other.minute
        ||| self.year == other.year && self.month == other.month && self.day == other.day
            && self.hour == other.hour && self.minute == other.minute && self.second
            < other.second
        ||| self.year == other.year && self.month == other.month && self.day == other.day
            && self.hour == other.hour && self.minute == other.minute && self.second
            == other.second && self.millis < other.millis
    }
}

/// The last `w` digits of a number.
pub open spec fn digits(n: nat, w: nat) -> Seq<char>
    decreases w,
{
    if w == 0 {
        Seq::empty()
    } else {
        digits(n / 10, (w - 1) as nat).push(digit_char(n % 10))
    }
}

/// A number of at least four digits.
pub open spec fn four_or_more(n: nat) -> Seq<char> {
    if n <= 9999 {
        digits(n, 4)
    } else {
        decimal(n)
    }
}

/// A year: four digits, and a sign where that is not enough to say it.
pub open spec fn year_text(year: int) -> Seq<char> {
    if 0 <= year <= 9999 {
        digits(year as nat, 4)
    } else if year > 9999 {
        seq!['+'] + decimal(year as nat)
    } else {
        seq!['-'] + four_or_more((-year) as nat)
    }
}

/// A moment as it stands in a name: the date, the time, and the milliseconds.
pub open spec fn stamp_text(m: Moment) -> Seq<char> {
    year_text(m.year as int).push('-') + digits(m.month as nat, 2).push('-') + digits(
        m.day as nat,
        2,
    ).push('_') + digits(m.hour as nat, 2).push('-') + digits(m.minute as nat, 2).push('-')
        + digits(m.second as nat, 2).push('.') + digits(m.millis as nat, 3)
}

/// `chrono::NaiveDateTime::format` with `%Y-%m-%d_%H-%M-%S.%3f`, on the date and
/// time that a moment names: the year in at least four digits, signed where it is
/// negative or has more, the rest in two digits each and the milliseconds in
/// three.
#[verifier::external_body]
fn stamp(m: Moment) -> (r: String)
    requires
        m.valid(),
    ensures
        r@ == stamp_text(m),
{
    let date = chrono::NaiveDate::from_ymd_opt(m.year, m.month, m.day).unwrap();
    let time = date.and_hms_milli_opt(m.hour, m.minute, m.second, m.millis).unwrap();
    time.format("%Y-%m-%d_%H-%M-%S.%3f").to_string()
}

/// The name of the file that a take is saved as.
pub open spec fn take_name(started: Moment) -> Seq<char> {
    "recording_"@ + stamp_text(started) + ".wav"@
}

/// A finished take, still in memory. Samples are the bits of the numbers.
#[derive(Clone, Debug)]
pub struct Recording {
    /// Interleaved, `channels` per frame.
    pub samples: Vec<u32>,
    pub sample_rate: u32,
    pub channels: u16,
    /// When it started: a file sorts by when its first sample was captured.
    pub started: Moment,
    /// The device it came from.
    pub device: String,
    /// It was cut short.
    pub truncated: bool,
}

/// How many frames some samples are.
pub open spec fn frames_of(samples: int, channels: u16) -> int {
    if channels == 0 {
        samples
    } else {
        samples / channels as int
    }
}

impl Recording {
    /// How many frames it has.
    pub fn frames(&self) -> (r: usize)
        ensures
            r == frames_of(self.samples@.len() as int, self.channels),
    {
        if self.channels == 0 {
            self.samples.len()
        } else {
            self.samples.len() / self.channels as usize
        }
    }

    /// The file this take is saved as.
    pub fn file_name(&self) -> (r: String)
        requires
            self.started.valid(),
        ensures
            r@ == take_name(self.started),
    {
        let mut out = "recording_".to_owned();
        out.append(stamp(self.started).as_str());
        out.append(".wav");
        out
    }
}

/// How many samples a take may hold.
pub open spec fn take_limit(sample_rate: u32, channels: int) -> int {
    MAX_SECS * sample_rate * channels
}

/// A take in progress.
#[derive(Clone, Debug)]
pub struct Recorder {
    pub samples: Vec<u32>,
    pub sample_rate: u32,
    pub channels: u16,
    pub started: Moment,
    pub device: String,
}

impl Recorder {
    /// A take that is about to come in.
    pub fn new(sample_rate: u32, channels: u16, started: Moment, device: &str) -> (r: Recorder)
        ensures
            r.samples@.len() == 0,
            r.sample_rate == sample_rate,
            r.channels == channels,
            r.started == started,
            r.device@ == device@,
    {
        Recorder {
            samples: Vec::new(),
            sample_rate,
            channels,
            started,
            device: device.to_owned(),
        }
    }

    /// What the device handed over, up to what a take may hold.
    pub fn capture(&mut self, data: &[u32])
        ensures
            ({
                let limit = take_limit(old(self).sample_rate, old(self).channels as int);
                let have = old(self).samples@.len() as int;
                let room = if have >= limit {
                    0
                } else {
                    limit - have
                };
                final(self).samples@ == old(self).samples@ + data@.take(
                    if data@.len() <= room {
                        data@.len() as int
                    } else {
                        room
                    },
                )
            }),
            *final(self) == (Recorder { samples: final(self).samples, ..*old(self) }),
    {
        let ghost was = self.samples@;
        let limit: u128 = self.limit(self.channels);
        let n: usize = data.len();
        let mut k: usize = 0;
        assert(was + data@.take(0) =~= was);
        while k < n && (self.samples.len() as u128) < limit
            invariant
                k <= n,
                n == data@.len(),
                limit == take_limit(old(self).sample_rate, old(self).channels as int),
                self.samples@ == was + data@.take(k as int),
                k > 0 ==> was.len() + k <= limit,
                *self == (Recorder { samples: self.samples, ..*old(self) }),
            decreases n - k,
        {
            let ghost before = self.samples@;
            self.samples.push(data[k]);
            assert(data@.take(k + 1) =~= data@.take(k as int).push(data@[k as int]));
            assert(self.samples@ =~= was + data@.take(k + 1));
            k += 1;
        }
    }

    fn limit(&self, channels: u16) -> (r: u128)
        ensures
            r == take_limit(self.sample_rate, channels as int),
    {
        let per: u64 = MAX_SECS as u64 * self.sample_rate as u64;
        let rate: u32 = self.sample_rate;
        assert(per * channels <= 0xffff_ffff_ffff_ffff_ffffu128) by (nonlinear_arith)
            requires
                per <= 1800 * 0xffff_ffffu64,
                channels <= 0xffffu16,
        ;
        assert(MAX_SECS * rate * channels == per * channels);
        per as u128 * channels as u128
    }

    /// Stop and take what was captured.
    pub fn finish(self) -> (r: Recording)
        ensures
            r.samples == self.samples,
            r.sample_rate == self.sample_rate,
            r.channels == self.channels,
            r.started == self.started,
            r.device == self.device,
            r.truncated == (self.samples@.len() >= take_limit(
                self.sample_rate,
                if self.channels == 0 {
                    1
                } else {
                    self.channels as int
                },
            )),
    {
        let count: u16 = if self.channels == 0 {
            1
        } else {
            self.channels
        };
        let truncated = self.samples.len() as u128 >= self.limit(count);
        Recording {
            samples: self.samples,
            sample_rate: self.sample_rate,
            channels: self.channels,
            started: self.started,
            device: self.device,
            truncated,
        }
    }
}

/// Where takes are written: a folder of their own in the user's home.
pub fn recordings_dir(home: &str) -> (r: String)
    ensures
        r@ == joined(home@, "GemstoneRecordings"@),
{
    join(home, "GemstoneRecordings")
}

/// Ten to a power.
pub open spec fn ten_to(w: nat) -> nat
    decreases w,
{
    if w == 0 {
        1
    } else {
        10 * ten_to((w - 1) as nat)
    }
}

/// Whether a text stands before another in the order of characters.
pub open spec fn text_lt(a: Seq<char>, b: Seq<char>) -> bool {
    text_le(a, b) && a != b
}

proof fn lemma_lt_tails(x: Seq<char>, y: Seq<char>, s: Seq<char>, t: Seq<char>)
    requires
        x.len() == y.len(),
        text_lt(x, y),
    ensures
        text_lt(x + s, y + t),
    decreases x.len(),
{
    let a = x + s;
    let b = y + t;
    if x.len() == 0 {
        assert(x =~= y);
    } else {
        assert(a[0] == x[0] && b[0] == y[0]);
        assert(a.skip(1) =~= x.skip(1) + s);
        assert(b.skip(1) =~= y.skip(1) + t);
        if x[0] == y[0] {
            if x.skip(1) == y.skip(1) {
                assert(x =~= seq![x[0]] + x.skip(1));
                assert(y =~= seq![y[0]] + y.skip(1));
            }
            lemma_lt_tails(x.skip(1), y.skip(1), s, t);
        }
        if a == b {
            assert(a.take(x.len() as int) =~= x);
            assert(b.take(y.len() as int) =~= y);
        }
    }
}

proof fn lemma_lt_front(p: Seq<char>, s: Seq<char>, t: Seq<char>)
    requires
        text_lt(s, t),
    ensures
        text_lt(p + s, p + t),
    decreases p.len(),
{
    if p.len() == 0 {
        assert(p + s =~= s);
        assert(p + t =~= t);
    } else {
        lemma_lt_front(p.skip(1), s, t);
        assert((p + s).skip(1) =~= p.skip(1) + s);
        assert((p + t).skip(1) =~= p.skip(1) + t);
        if p + s == p + t {
            assert((p + s).skip(p.len() as int) =~= s);
            assert((p + t).skip(p.len() as int) =~= t);
        }
    }
}

proof fn lemma_digits(n: nat, m: nat, w: nat)
    ensures
        digits(n, w).len() == w,
        forall|i: int| 0 <= i < w ==> '0' <= #[trigger] digits(n, w)[i] <= '9',
        n < m < ten_to(w) ==> text_lt(digits(n, w), digits(m, w)),
    decreases w,
{
    if w > 0 {
        let v = (w - 1) as nat;
        lemma_digits(n / 10, m / 10, v);
        lemma_digits(m / 10, n / 10, v);
        let c = digit_char(n % 10);
        let d = digit_char(m % 10);
        if n < m < ten_to(w) {
            let x = digits(n / 10, v);
            let y = digits(m / 10, v);
            assert(digits(n, w) =~= x + seq![c]);
            assert(digits(m, w) =~= y + seq![d]);
            if n / 10 < m / 10 {
                lemma_lt_tails(x, y, seq![c], seq![d]);
            } else {
                assert(n % 10 < m % 10);
                assert(c < d);
                assert(text_le(seq![c], seq![d]));
                assert(seq![c][0] != seq![d][0]);
                lemma_lt_front(x, seq![c], seq![d]);
            }
        }
    }
}

proof fn lemma_field(p: Seq<char>, n: nat, m: nat, w: nat, s: Seq<char>, t: Seq<char>)
    requires
        n < m < ten_to(w),
    ensures
        text_lt(p + (digits(n, w) + s), p + (digits(m, w) + t)),
{
    lemma_digits(n, m, w);
    lemma_digits(m, n, w);
    lemma_lt_tails(digits(n, w), digits(m, w), s, t);
    lemma_lt_front(p, digits(n, w) + s, digits(m, w) + t);
}

proof fn lemma_tens()
    ensures
        ten_to(2) == 100,
        ten_to(3) == 1000,
        ten_to(4) == 10_000,
{
    reveal_with_fuel(ten_to, 5);
}

/// The stamp of a moment behind its year, its month and so on.
spec fn from_month(m: Moment) -> Seq<char> {
    digits(m.month as nat, 2) + (seq!['-'] + from_day(m))
}

spec fn from_day(m: Moment) -> Seq<char> {
    digits(m.day as nat, 2) + (seq!['_'] + from_hour(m))
}

spec fn from_hour(m: Moment) -> Seq<char> {
    digits(m.hour as nat, 2) + (seq!['-'] + from_minute(m))
}

spec fn from_minute(m: Moment) -> Seq<char> {
    digits(m.minute as nat, 2) + (seq!['-'] + from_second(m))
}

spec fn from_second(m: Moment) -> Seq<char> {
    digits(m.second as nat, 2) + (seq!['.'] + digits(m.millis as nat, 3))
}

proof fn lemma_stamp(m: Moment)
    requires
        m.common(),
    ensures
        stamp_text(m) == digits(m.year as nat, 4) + (seq!['-'] + from_month(m)),
        stamp_text(m).len() == 23,
{
    lemma_digits(m.year as nat, 0, 4);
    lemma_digits(m.month as nat, 0, 2);
    lemma_digits(m.day as nat, 0, 2);
    lemma_digits(m.hour as nat, 0, 2);
    lemma_digits(m.minute as nat, 0, 2);
    lemma_digits(m.second as nat, 0, 2);
    lemma_digits(m.millis as nat, 0, 3);
    assert(stamp_text(m) =~= digits(m.year as nat, 4) + (seq!['-'] + from_month(m)));
}

proof fn lemma_seconds_sort(a: Moment, b: Moment)
    requires
        a.common(),
        b.common(),
        a.second < b.second || (a.second == b.second && a.millis < b.millis),
    ensures
        text_lt(from_second(a), from_second(b)),
{
    lemma_tens();
    let none = Seq::<char>::empty();
    if a.second < b.second {
        let s = seq!['.'] + digits(a.millis as nat, 3);
        let t = seq!['.'] + digits(b.millis as nat, 3);
        lemma_field(none, a.second as nat, b.second as nat, 2, s, t);
        assert(none + from_second(a) =~= from_second(a));
        assert(none + from_second(b) =~= from_second(b));
    } else {
        let p = digits(a.second as nat, 2) + seq!['.'];
        lemma_field(p, a.millis as nat, b.millis as nat, 3, none, none);
        assert(p + (digits(a.millis as nat, 3) + none) =~= from_second(a));
        assert(p + (digits(b.millis as nat, 3) + none) =~= from_second(b));
    }
}

proof fn lemma_days_sort(a: Moment, b: Moment)
    requires
        a.common(),
        b.common(),
        a.before(b),
        a.year == b.year,
        a.month == b.month,
    ensures
        text_lt(from_day(a), from_day(b)),
{
    lemma_tens();
    let none = Seq::<char>::empty();
    if a.day < b.day {
        lemma_field(
            none,
            a.day as nat,
            b.day as nat,
            2,
            seq!['_'] + from_hour(a),
            seq!['_'] + from_hour(b),
        );
        assert(none + from_day(a) =~= from_day(a));
        assert(none + from_day(b) =~= from_day(b));
    } else {
        if a.hour < b.hour {
            lemma_field(
                none,
                a.hour as nat,
                b.hour as nat,
                2,
                seq!['-'] + from_minute(a),
                seq!['-'] + from_minute(b),
            );
            assert(none + from_hour(a) =~= from_hour(a));
            assert(none + from_hour(b) =~= from_hour(b));
        } else {
            if a.minute < b.minute {
                lemma_field(
                    none,
                    a.minute as nat,
                    b.minute as nat,
                    2,
                    seq!['-'] + from_second(a),
                    seq!['-'] + from_second(b),
                );
                assert(none + from_minute(a) =~= from_minute(a));
                assert(none + from_minute(b) =~= from_minute(b));
            } else {
                lemma_seconds_sort(a, b);
                let p = digits(a.minute as nat, 2) + seq!['-'];
                lemma_lt_front(p, from_second(a), from_second(b));
                assert(p + from_second(a) =~= from_minute(a));
                assert(p + from_second(b) =~= from_minute(b));
            }
            let p = digits(a.hour as nat, 2) + seq!['-'];
            lemma_lt_front(p, from_minute(a), from_minute(b));
            assert(p + from_minute(a) =~= from_hour(a));
            assert(p + from_minute(b) =~= from_hour(b));
        }
        let p = digits(a.day as nat, 2) + seq!['_'];
        lemma_lt_front(p, from_hour(a), from_hour(b));
        assert(p + from_hour(a) =~= from_day(a));
        assert(p + from_hour(b) =~= from_day(b));
    }
}

/// Sorting takes by name sorts them by when they started, and two takes that
/// started a millisecond apart have different names, as long as the years have
/// four digits.
pub proof fn law_takes_sort_by_their_start(a: Moment, b: Moment)
    requires
        a.common(),
        b.common(),
        a.before(b),
    ensures
        text_lt(take_name(a), take_name(b)),
{
    lemma_tens();
    lemma_stamp(a);
    lemma_stamp(b);
    let none = Seq::<char>::empty();
    if a.year < b.year {
        lemma_field(
            none,
            a.year as nat,
            b.year as nat,
            4,
            seq!['-'] + from_month(a),
            seq!['-'] + from_month(b),
        );
        assert(none + stamp_text(a) =~= stamp_text(a));
        assert(none + stamp_text(b) =~= stamp_text(b));
    } else {
        if a.month < b.month {
            lemma_field(
                none,
                a.month as nat,
                b.month as nat,
                2,
                seq!['-'] + from_day(a),
                seq!['-'] + from_day(b),
            );
            assert(none + from_month(a) =~= from_month(a));
            assert(none + from_month(b) =~= from_month(b));
        } else {
            lemma_days_sort(a, b);
            let p = digits(a.month as nat, 2) + seq!['-'];
            lemma_lt_front(p, from_day(a), from_day(b));
            assert(p + from_day(a) =~= from_month(a));
            assert(p + from_day(b) =~= from_month(b));
        }
        let p = digits(a.year as nat, 4) + seq!['-'];
        lemma_lt_front(p, from_month(a), from_month(b));
        assert(p + from_month(a) =~= stamp_text(a));
        assert(p + from_month(b) =~= stamp_text(b));
    }
    lemma_lt_tails(stamp_text(a), stamp_text(b), ".wav"@, ".wav"@);
    lemma_lt_front("recording_"@, stamp_text(a) + ".wav"@, stamp_text(b) + ".wav"@);
    assert("recording_"@ + (stamp_text(a) + ".wav"@) =~= take_name(a));
    assert("recording_"@ + (stamp_text(b) + ".wav"@) =~= take_name(b));
}

/// Whether a character can stand in a file name on every platform.
pub open spec fn is_plain(c: char) -> bool {
    'a' <= c <= 'z' || 'A' <= c <= 'Z' || '0' <= c <= '9' || c == '_' || c == '-' || c == '.'
}

/// Nothing in a take's name needs quoting or escaping anywhere, as long as the
/// year has four digits.
pub proof fn law_a_take_has_a_plain_name(m: Moment, i: int)
    requires
        m.common(),
        0 <= i < take_name(m).len(),
    ensures
        is_plain(take_name(m)[i]),
{
    lemma_digits(m.year as nat, 0, 4);
    lemma_digits(m.month as nat, 0, 2);
    lemma_digits(m.day as nat, 0, 2);
    lemma_digits(m.hour as nat, 0, 2);
    lemma_digits(m.minute as nat, 0, 2);
    lemma_digits(m.second as nat, 0, 2);
    lemma_digits(m.millis as nat, 0, 3);
    lemma_stamp(m);
    reveal_strlit("recording_");
    reveal_strlit(".wav");
    let n = "recording_"@.len() as int;
    if n <= i < n + 23 {
        assert(take_name(m)[i] == stamp_text(m)[i - n]);
    }
}

/// What is offered is the default and the devices there are, and nothing else; a
/// device that comes later changes nothing of what was offered before it.
pub proof fn law_only_devices_are_offered(devices: Seq<Seq<char>>)
    ensures
        forall|i: int|
            0 <= i < offered(devices).len() ==> #[trigger] offered(devices)[i] == DEFAULT_INPUT@
                || devices.contains(offered(devices)[i]),
        devices.len() > 0 ==> offered(devices.drop_last()).is_prefix_of(offered(devices)),
    decreases devices.len(),
{
    if devices.len() > 0 {
        let init = devices.drop_last();
        law_only_devices_are_offered(init);
        let front = offered(init);
        let all = offered(devices);
        assert forall|i: int| 0 <= i < all.len() implies #[trigger] all[i] == DEFAULT_INPUT@
            || devices.contains(all[i]) by {
            if i < front.len() {
                assert(all[i] == front[i]);
                if init.contains(front[i]) {
                    let j = choose|j: int| 0 <= j < init.len() && init[j] == front[i];
                    assert(devices[j] == front[i]);
                }
            } else {
                assert(devices[devices.len() - 1] == all[i]);
            }
        }
    }
}

/// A device is found by its name, and is not there only where none has it.
pub proof fn law_a_device_is_found_by_its_name(s: Seq<Seq<char>>, name: Seq<char>)
    ensures
        0 <= name_place(s, name) <= s.len(),
        name_place(s, name) < s.len() ==> s[name_place(s, name)] == name,
        forall|k: int| 0 <= k < s.len() && #[trigger] s[k] == name ==> name_place(s, name) <= k,
    decreases s.len(),
{
    if s.len() > 0 && s[0] != name {
        let rest = s.skip(1);
        law_a_device_is_found_by_its_name(rest, name);
        assert forall|k: int| 0 <= k < s.len() && #[trigger] s[k] == name implies name_place(
            s,
            name,
        ) <= k by {
            if k > 0 {
                assert(rest[k - 1] == s[k]);
            }
        }
    }
}

/// A take has as many frames as it has whole sets of samples, one for each channel.
pub proof fn law_how_many_frames_a_take_has(samples: int, channels: u16)
    requires
        0 <= samples,
    ensures
        channels > 0 ==> frames_of(samples, channels) * channels <= samples < (frames_of(
            samples,
            channels,
        ) + 1) * channels,
        channels == 0 ==> frames_of(samples, channels) == samples,
{
    if channels > 0 {
        let c = channels as int;
        let q = samples / c;
        assert(q * c <= samples < (q + 1) * c) by (nonlinear_arith)
            requires
                q == samples / c,
                c > 0,
        ;
    }
}

/// A take runs for half an hour at the most.
pub proof fn law_a_take_runs_for_half_an_hour(sample_rate: u32, channels: int)
    requires
        channels >= 0,
    ensures
        take_limit(sample_rate, channels) == 1800 * sample_rate * channels,
{
}

/// Every digit of a number is in its place, the last `w` of them and no others.
pub proof fn law_every_digit_is_in_its_place(n: nat, w: nat, k: nat)
    requires
        k < w,
    ensures
        digits(n, w).len() == w,
        k == 0 ==> digits(n, w)[w - 1] as u32 == 48 + n % 10,
        k > 0 ==> digits(n, w)[w - 1 - k] == digits(n / 10, (w - 1) as nat)[w - 1 - k],
    decreases w,
{
    reveal_with_fuel(digits, 2);
    if w > 1 {
        law_every_digit_is_in_its_place(n / 10, (w - 1) as nat, 0);
    }
}

/// A year that four digits can say has them alone; a later one has a plus before as
/// many as it needs, and one before the first a minus before four at least.
pub proof fn law_how_a_year_reads(year: int)
    ensures
        0 <= year <= 9999 ==> year_text(year) == digits(year as nat, 4),
        year >= 10_000 ==> year_text(year) == seq!['+'] + decimal(year as nat),
        -9999 <= year < 0 ==> year_text(year) == seq!['-'] + digits((-year) as nat, 4),
        year <= -10_000 ==> year_text(year) == seq!['-'] + decimal((-year) as nat),
{
}

/// A moment is written from its year down to its milliseconds, two digits for
/// everything between and three for those.
pub proof fn law_how_a_moment_reads(m: Moment)
    ensures
        stamp_text(m) == year_text(m.year as int) + seq!['-'] + digits(m.month as nat, 2) + seq![
            '-',
        ] + digits(m.day as nat, 2) + seq!['_'] + digits(m.hour as nat, 2) + seq!['-'] + digits(
            m.minute as nat,
            2,
        ) + seq!['-'] + digits(m.second as nat, 2) + seq!['.'] + digits(m.millis as nat, 3),
{
    assert(stamp_text(m) =~= year_text(m.year as int) + seq!['-'] + digits(m.month as nat, 2)
        + seq!['-'] + digits(m.day as nat, 2) + seq!['_'] + digits(m.hour as nat, 2) + seq!['-']
        + digits(m.minute as nat, 2) + seq!['-'] + digits(m.second as nat, 2) + seq!['.'] + digits(
        m.millis as nat,
        3,
    ));
}

} // verus!
