//! Sizes and times as they are shown and compared.
use vstd::prelude::*;
use crate::text;

verus! {

/// A point in time, in nanoseconds since the start of 1970. One before it counts down.
#[derive(Debug, Clone, Copy, PartialEq, Eq, Structural)]
pub struct Moment {
    pub nanos: i128,
}

/// A length of time.
#[derive(Debug, Clone, Copy, PartialEq, Eq, Structural)]
pub struct Span {
    pub nanos: u128,
}

/// Nanoseconds in a second.
pub const SECOND: u128 = 1_000_000_000;

/// Seconds in a day.
pub const DAY: u64 = 86_400;

impl Span {
    /// Whole seconds.
    pub open spec fn secs(&self) -> int {
        self.nanos as int / SECOND as int
    }

    /// Whole seconds.
    pub fn as_secs(&self) -> (r: u128)
        ensures
            r == self.secs(),
    {
        self.nanos / SECOND
    }

    /// A length of whole seconds.
    pub fn from_secs(secs: u64) -> (r: Self)
        ensures
            r.nanos == secs * SECOND,
    {
        Span { nanos: secs as u128 * SECOND }
    }
}

impl Moment {
    /// The moment a number of whole seconds after the start of 1970.
    pub fn from_secs(secs: u64) -> (r: Self)
        ensures
            r.nanos == secs * SECOND,
    {
        Moment { nanos: secs as i128 * 1_000_000_000 }
    }

    /// Nanoseconds since an earlier moment, none where it is later.
    pub open spec fn gap(&self, earlier: Moment) -> int {
        if self.nanos >= earlier.nanos {
            self.nanos - earlier.nanos
        } else {
            0
        }
    }

    /// The time since an earlier moment, none where it is later.
    pub fn since(&self, earlier: Moment) -> (r: Span)
        ensures
            r.nanos == self.gap(earlier),
    {
        if self.nanos < earlier.nanos {
            Span { nanos: 0 }
        } else if self.nanos < 0 || earlier.nanos >= 0 {
            Span { nanos: (self.nanos - earlier.nanos) as u128 }
        } else {
            let before = (-(earlier.nanos + 1)) as u128;
            Span { nanos: self.nanos as u128 + before + 1 }
        }
    }

    /// Whole seconds since the start of 1970. Nothing for a moment before it.
    pub open spec fn epoch_secs(&self) -> Option<int> {
        if self.nanos >= 0 {
            Some(self.nanos as int / SECOND as int)
        } else {
            None
        }
    }

    /// The time since the start of 1970. Nothing for a moment before it.
    pub fn since_epoch(&self) -> (r: Option<Span>)
        ensures
            match r {
                Some(s) => self.nanos >= 0 && s.nanos == self.nanos,
                None => self.nanos < 0,
            },
    {
        if self.nanos >= 0 {
            Some(Span { nanos: self.nanos as u128 })
        } else {
            None
        }
    }
}

/// Whole days between two moments, none where the first is the later.
pub open spec fn days_between(last: Moment, now: Moment) -> int {
    now.gap(last) / SECOND as int / DAY as int
}

/// The newest of some times.
pub open spec fn newest_of(times: Seq<Option<Moment>>) -> Option<Moment>
    decreases times.len(),
{
    if times.len() == 0 {
        None
    } else {
        match (newest_of(times.drop_last()), times.last()) {
            (Some(a), Some(b)) => if a.nanos <= b.nanos {
                Some(b)
            } else {
                Some(a)
            },
            (Some(a), None) => Some(a),
            (None, b) => b,
        }
    }
}

/// The newest change anywhere in a tree, given when each of its entries last changed
/// where that could be read. Nothing where nothing could.
pub fn newest_mtime(times: &Vec<Option<Moment>>) -> (r: Option<Moment>)
    ensures
        r == newest_of(times@),
{
    let mut newest: Option<Moment> = None;
    for i in 0..times.len()
        invariant
            newest == newest_of(times@.take(i as int)),
    {
        assert(times@.take(i + 1).drop_last() =~= times@.take(i as int));
        newest = match (newest, times[i]) {
            (Some(a), Some(b)) => if a.nanos <= b.nanos {
                Some(b)
            } else {
                Some(a)
            },
            (Some(a), None) => Some(a),
            (None, b) => b,
        };
    }
    assert(times@.take(times@.len() as int) =~= times@);
    newest
}

/// Whole days since the newest change, where there is one.
pub fn idle_days(newest: Option<Moment>, now: Moment) -> (r: Option<u128>)
    ensures
        match newest {
            Some(last) => r matches Some(d) && d == days_between(last, now),
            None => r is None,
        },
{
    match newest {
        Some(last) => {
            let gap = now.since(last);
            Some(gap.as_secs() / DAY as u128)
        },
        None => None,
    }
}

/// The whole number nearest to `n / d`, the even one where two are as near.
pub open spec fn nearest(n: int, d: int) -> int {
    let q = n / d;
    let r = n % d;
    if 2 * r < d {
        q
    } else if 2 * r > d {
        q + 1
    } else {
        q + q % 2
    }
}

/// The whole number nearest to `n / d`.
fn nearest_to(n: u128, d: u128) -> (r: u128)
    requires
        0 < d < 0x1_0000_0000_0000_0000,
        n < 0x1000_0000_0000_0000_0000_0000,
    ensures
        r == nearest(n as int, d as int),
        r <= n / d + 1,
{
    let q = n / d;
    let rem = n % d;
    proof {
        assert(q <= n) by (nonlinear_arith)
            requires
                q == n / d,
                d > 0,
        ;
        assert(rem < d) by (nonlinear_arith)
            requires
                rem == n % d,
                d > 0,
        ;
    }
    if 2 * rem < d {
        q
    } else if 2 * rem > d {
        q + 1
    } else {
        q + q % 2
    }
}

/// The smallest power of two at or above `unit` in which `n` takes fewer than
/// fifty-four binary digits.
pub open spec fn precision(n: int, unit: int) -> int
    decreases n / unit,
    when unit > 0 && n >= 0
{
    if n / unit < 0x20_0000_0000_0000 {
        unit
    } else {
        proof {
            assert(n / (2 * unit) < n / unit) by {
                assert(n / (2 * unit) == (n / unit) / 2) by (nonlinear_arith)
                    requires
                        unit > 0,
                        n >= 0,
                ;
            }
        }
        precision(n, 2 * unit)
    }
}

/// A number as a binary floating-point number with a precision of fifty-three
/// digits holds it.
pub open spec fn as_double(n: int) -> int {
    let unit = precision(n, 1);
    nearest(n, unit) * unit
}

/// A number as a double-precision floating-point number holds it.
fn to_double(n: u64) -> (r: u128)
    ensures
        r == as_double(n as int),
        r <= 0x1_0000_0000_0000_0000 + 4096,
{
    let wide: u128 = n as u128;
    let mut unit: u128 = 1;
    while wide / unit >= 0x20_0000_0000_0000
        invariant
            wide == n,
            1 <= unit <= 0x1000,
            precision(n as int, 1) == precision(n as int, unit as int),
        ensures
            1 <= unit <= 0x1000,
            wide / unit < 0x20_0000_0000_0000,
            precision(n as int, 1) == unit,
        decreases 0x1000 - unit,
    {
        proof {
            assert(unit < 0x800) by (nonlinear_arith)
                requires
                    wide / unit >= 0x20_0000_0000_0000,
                    wide <= 0xffff_ffff_ffff_ffff,
                    unit >= 1,
            ;
        }
        unit = unit * 2;
    }
    let q = nearest_to(wide, unit);
    proof {
        assert(q * unit <= (wide / unit + 1) * unit) by (nonlinear_arith)
            requires
                q <= wide / unit + 1,
                unit >= 1,
        ;
        assert((wide / unit + 1) * unit <= wide + unit) by (nonlinear_arith)
            requires
                unit >= 1,
                wide >= 0,
        ;
    }
    q * unit
}

pub const KB: u64 = 0x400;

pub const MB: u64 = 0x10_0000;

pub const GB: u64 = 0x4000_0000;

/// A size as it is shown.
pub open spec fn shown_size(bytes: int) -> Seq<char> {
    if bytes >= GB {
        let tenths = nearest(as_double(bytes) * 10, GB as int);
        text::decimal((tenths / 10) as nat) + "."@ + text::decimal((tenths % 10) as nat) + " GB"@
    } else if bytes >= MB {
        text::decimal(nearest(bytes, MB as int) as nat) + " MB"@
    } else if bytes >= KB {
        text::decimal(nearest(bytes, KB as int) as nat) + " KB"@
    } else {
        text::decimal(bytes as nat) + " B"@
    }
}

/// A size as it is shown: with one decimal from a gigabyte on, in whole units
/// below.
pub fn format_size(bytes: u64) -> (r: String)
    ensures
        r@ == shown_size(bytes as int),
{
    if bytes >= GB {
        let exact = to_double(bytes);
        let tenths = nearest_to(exact * 10, GB as u128);
        let mut out = text::dec((tenths / 10) as u64);
        out.append(".");
        let last = text::dec((tenths % 10) as u64);
        out.append(last.as_str());
        out.append(" GB");
        out
    } else if bytes >= MB {
        let mut out = text::dec(nearest_to(bytes as u128, MB as u128) as u64);
        out.append(" MB");
        out
    } else if bytes >= KB {
        let mut out = text::dec(nearest_to(bytes as u128, KB as u128) as u64);
        out.append(" KB");
        out
    } else {
        let mut out = text::dec(bytes);
        out.append(" B");
        out
    }
}

/// The bytes that the first word of a report of kilobytes stands for. Nothing
/// where there is none, or where the bytes do not fit.
pub open spec fn kilobytes_first(report: Seq<char>) -> int {
    let words = text::words(report);
    if words.len() == 0 {
        0
    } else {
        match text::unsigned_value(words[0], u64::MAX as int) {
            Some(kb) => if kb * 1024 <= u64::MAX {
                kb * 1024
            } else {
                0
            },
            None => 0,
        }
    }
}

/// The size that `du -sk` reported.
pub fn dir_size(report: &str) -> (r: u64)
    ensures
        r == kilobytes_first(report@),
{
    let words = text::split_words(report);
    assert(text::texts(words@).len() == words@.len());
    if words.len() == 0 {
        return 0;
    }
    assert(text::texts(words@)[0] == words@[0]@);
    match text::parse_u64(&words[0]) {
        Some(kb) => if kb <= u64::MAX / 1024 {
            kb * 1024
        } else {
            0
        },
        None => 0,
    }
}

/// The newest of some times is one of them, none of them is newer, and there is one wherever
/// there is any time at all.
pub proof fn law_no_time_is_newer_than_the_newest(times: Seq<Option<Moment>>)
    ensures
        match newest_of(times) {
            Some(t) => times.contains(Some(t)) && forall|i: int|
                0 <= i < times.len() && (#[trigger] times[i]) is Some ==> times[i]->0.nanos
                    <= t.nanos,
            None => forall|i: int| 0 <= i < times.len() ==> (#[trigger] times[i]) is None,
        },
    decreases times.len(),
{
    if times.len() > 0 {
        let before = times.drop_last();
        law_no_time_is_newer_than_the_newest(before);
        assert forall|i: int| 0 <= i < before.len() implies before[i] == #[trigger] times[i] by {}
        if let Some(t) = newest_of(before) {
            let k = choose|k: int| 0 <= k < before.len() && before[k] == Some(t);
            assert(times[k] == Some(t));
        }
        assert(times[times.len() - 1] == times.last());
    }
}

/// Rounding goes to a whole number no more than a half away, and between two as near to the
/// even one.
pub proof fn law_rounding_goes_to_the_nearest(n: int, d: int)
    requires
        n >= 0,
        d > 0,
    ensures
        -d <= 2 * (nearest(n, d) * d - n) <= d,
        2 * (nearest(n, d) * d - n) == d || 2 * (nearest(n, d) * d - n) == -d ==> nearest(n, d) % 2
            == 0,
{
    let q = n / d;
    let r = n % d;
    vstd::arithmetic::div_mod::lemma_fundamental_div_mod(n, d);
    vstd::arithmetic::div_mod::lemma_mod_bound(n, d);
    assert(d * q == q * d) by (nonlinear_arith);
    assert((q + 1) * d == q * d + d) by (nonlinear_arith);
    assert((q + q % 2) % 2 == 0);
}

/// A size is shown in the largest of the units of 1024 that it reaches, rounded to a whole
/// number of them; from 1024 cubed on, to a tenth.
pub proof fn law_a_size_is_shown_to_the_nearest_unit(bytes: int)
    requires
        0 <= bytes < 0x20_0000_0000_0000,
    ensures
        bytes < 1024 ==> shown_size(bytes) == text::decimal(bytes as nat) + " B"@,
        1024 <= bytes < 1_048_576 ==> exists|n: nat|
            {
                &&& shown_size(bytes) == #[trigger] text::decimal(n) + " KB"@
                &&& -1024 <= 2 * (n * 1024 - bytes) <= 1024
            },
        1_048_576 <= bytes < 1_073_741_824 ==> exists|n: nat|
            {
                &&& shown_size(bytes) == #[trigger] text::decimal(n) + " MB"@
                &&& -1_048_576 <= 2 * (n * 1_048_576 - bytes) <= 1_048_576
            },
        bytes >= 1_073_741_824 ==> exists|whole: nat, tenth: nat|
            {
                &&& shown_size(bytes) == #[trigger] text::decimal(whole) + "."@
                    + #[trigger] text::decimal(tenth) + " GB"@
                &&& tenth < 10
                &&& -1_073_741_824 <= 2 * ((whole * 10 + tenth) * 1_073_741_824 - bytes * 10)
                    <= 1_073_741_824
            },
{
    if bytes >= 1_073_741_824 {
        assert(precision(bytes, 1) == 1);
        assert(nearest(bytes, 1) == bytes);
        assert(as_double(bytes) == bytes);
        let tenths = nearest(bytes * 10, 1_073_741_824);
        law_rounding_goes_to_the_nearest(bytes * 10, 1_073_741_824);
        assert(tenths >= 0);
        let whole = (tenths / 10) as nat;
        let tenth = (tenths % 10) as nat;
        assert(whole * 10 + tenth == tenths);
        assert(shown_size(bytes) == text::decimal(whole) + "."@ + text::decimal(tenth) + " GB"@);
    } else if bytes >= 1_048_576 {
        law_rounding_goes_to_the_nearest(bytes, 1_048_576);
        let n = nearest(bytes, 1_048_576) as nat;
        assert(shown_size(bytes) == text::decimal(n) + " MB"@);
    } else if bytes >= 1024 {
        law_rounding_goes_to_the_nearest(bytes, 1024);
        let n = nearest(bytes, 1024) as nat;
        assert(shown_size(bytes) == text::decimal(n) + " KB"@);
    }
}

/// A report that begins with a number of kilobytes stands for 1024 times as many bytes, where
/// they fit, whatever comes behind it.
pub proof fn law_kilobytes_are_1024_bytes(kb: nat, space: char, rest: Seq<char>)
    requires
        text::is_space(space),
    ensures
        kilobytes_first(text::decimal(kb).push(space) + rest) == (if kb * 1024 <= u64::MAX {
            kb * 1024
        } else {
            0
        }),
{
    text::law_space_keeps_words_apart(text::decimal(kb), space, rest);
    text::law_a_written_number_is_a_word(kb);
    text::law_a_written_number_reads_back(kb, u64::MAX as int);
}

} // verus!
