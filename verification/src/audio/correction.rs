//! What calibration measured, remembered so the bridge has somewhere to start.
//!
//! A correction only means anything for the pair of devices it was measured against, so
//! every entry is keyed by both UIDs and a lookup that does not match both exactly finds
//! nothing. A file that is missing or corrupt reads back as nobody having measured.
use vstd::prelude::*;
use crate::disk::util::Span;
use crate::paths;
use crate::text;
use crate::text::text_opt;

verus! {

/// How long a measurement is worth quoting for, in seconds.
pub const STALE_AFTER_SECS: u64 = 2_592_000;

/// What was measured for one pair of devices.
#[derive(Debug)]
pub struct Correction<M> {
    pub output_uid: String,
    pub input_uid: String,
    /// What was measured.
    pub measured: M,
    /// Unix seconds, so a stale measurement can be seen for what it is. Absent in a file
    /// written before this was recorded.
    pub measured_at: Option<u64>,
}

/// What was measured, pair by pair.
#[derive(Debug)]
pub struct Corrections<M> {
    pub pairs: Vec<Correction<M>>,
}

/// The seconds since a measurement. A clock that has gone backwards since makes it brand
/// new.
pub open spec fn age_of(measured_at: Option<u64>, now: u64) -> Option<int> {
    match measured_at {
        Some(at) => Some(
            if now >= at {
                now - at
            } else {
                0
            },
        ),
        None => None,
    }
}

impl<M> Correction<M> {
    /// Whether this was measured for exactly a pair, in this direction.
    pub open spec fn is_for(self, output_uid: Seq<char>, input_uid: Seq<char>) -> bool {
        self.output_uid@ == output_uid && self.input_uid@ == input_uid
    }

    fn matches(&self, output_uid: &str, input_uid: &str) -> (r: bool)
        ensures
            r == self.is_for(output_uid@, input_uid@),
    {
        text::same(&self.output_uid, output_uid) && text::same(&self.input_uid, input_uid)
    }

    /// How long ago this was measured, or nothing when the entry predates the date being
    /// recorded and its age cannot be known.
    pub fn age_secs(&self, now: u64) -> (r: Option<u64>)
        ensures
            (match r {
                Some(a) => Some(a as int),
                None => None,
            }) == age_of(self.measured_at, now),
    {
        match self.measured_at {
            Some(at) => if now >= at {
                Some(now - at)
            } else {
                Some(0)
            },
            None => None,
        }
    }

    /// Whether this is too old to be quoted as describing the hardware now. An entry with
    /// no date is stale by the same argument.
    pub fn is_stale(&self, now: u64) -> (r: bool)
        ensures
            r == (match age_of(self.measured_at, now) {
                Some(age) => age > STALE_AFTER_SECS,
                None => true,
            }),
    {
        match self.age_secs(now) {
            Some(age) => age > STALE_AFTER_SECS,
            None => true,
        }
    }
}

/// The first of the entries for a pair.
pub open spec fn found<M>(
    pairs: Seq<Correction<M>>,
    output_uid: Seq<char>,
    input_uid: Seq<char>,
) -> Option<Correction<M>>
    decreases pairs.len(),
{
    if pairs.len() == 0 {
        None
    } else {
        match found(pairs.drop_last(), output_uid, input_uid) {
            Some(c) => Some(c),
            None => if pairs.last().is_for(output_uid, input_uid) {
                Some(pairs.last())
            } else {
                None
            },
        }
    }
}

proof fn lemma_found_prefix<M>(
    pairs: Seq<Correction<M>>,
    output_uid: Seq<char>,
    input_uid: Seq<char>,
    n: int,
)
    requires
        0 <= n <= pairs.len(),
        found(pairs.take(n), output_uid, input_uid) is Some,
    ensures
        found(pairs, output_uid, input_uid) == found(pairs.take(n), output_uid, input_uid),
    decreases pairs.len() - n,
{
    if n == pairs.len() {
        assert(pairs.take(n) =~= pairs);
    } else {
        assert(pairs.take(n + 1).drop_last() =~= pairs.take(n));
        lemma_found_prefix(pairs, output_uid, input_uid, n + 1);
    }
}

/// The entries for other pairs, with a new one behind them.
pub open spec fn recorded<M>(pairs: Seq<Correction<M>>, new: Correction<M>) -> Seq<Correction<M>> {
    pairs.filter(|c: Correction<M>| !c.is_for(new.output_uid@, new.input_uid@)).push(new)
}

impl<M> Corrections<M> {
    /// Nothing measured.
    pub fn none() -> (r: Self)
        ensures
            r.pairs@.len() == 0,
    {
        Corrections { pairs: Vec::new() }
    }

    /// What a file was read as. Anything unreadable is treated as nothing having been
    /// measured: a bridge that falls back to what the devices report is better than one
    /// that refuses to start.
    pub fn read(parsed: Option<Corrections<M>>) -> (r: Self)
        ensures
            match parsed {
                Some(c) => r == c,
                None => r.pairs@.len() == 0,
            },
    {
        match parsed {
            Some(c) => c,
            None => Corrections::none(),
        }
    }

    /// The correction measured for exactly this pair, in this direction.
    pub fn find(&self, output_uid: &str, input_uid: &str) -> (r: Option<&Correction<M>>)
        ensures
            match r {
                Some(c) => found(self.pairs@, output_uid@, input_uid@) == Some(*c),
                None => found(self.pairs@, output_uid@, input_uid@) is None,
            },
    {
        let ghost all = self.pairs@;
        for i in 0..self.pairs.len()
            invariant
                all == self.pairs@,
                found(all.take(i as int), output_uid@, input_uid@) is None,
        {
            assert(all.take(i + 1).drop_last() =~= all.take(i as int));
            if self.pairs[i].matches(output_uid, input_uid) {
                proof {
                    lemma_found_prefix(all, output_uid@, input_uid@, i + 1);
                }
                return Some(&self.pairs[i]);
            }
        }
        assert(all.take(all.len() as int) =~= all);
        None
    }

    /// Remembers a measurement, replacing whatever was known about that pair. Only the
    /// newest matters: the point of measuring again is that the room or the hardware
    /// moved.
    pub fn record(self, correction: Correction<M>) -> (r: Self)
        ensures
            r.pairs@ == recorded(self.pairs@, correction),
    {
        let ghost all = self.pairs@;
        let ghost keep = |c: Correction<M>|
            !c.is_for(correction.output_uid@, correction.input_uid@);
        let old_pairs = self.pairs;
        let mut pairs: Vec<Correction<M>> = Vec::new();
        proof {
            reveal(Seq::filter);
        }
        assert(pairs@ =~= all.take(0).filter(keep));
        for c in it: old_pairs
            invariant
                it.seq() == all,
                keep == (|c: Correction<M>|
                    !c.is_for(correction.output_uid@, correction.input_uid@)),
                pairs@ == all.take(it.index() as int).filter(keep),
        {
            proof {
                let n = it.index() as int;
                assert(all.take(n + 1) =~= all.take(n).push(c));
                all.take(n).lemma_filter_push(c, keep);
            }
            if !c.matches(&correction.output_uid, &correction.input_uid) {
                pairs.push(c);
            }
        }
        assert(all.take(all.len() as int) =~= all);
        pairs.push(correction);
        Corrections { pairs }
    }
}

/// Whether what was measured for a pair is too old, given the time where a clock says.
/// A clock that will not answer is not grounds for calling anything stale.
pub fn stale_now<M>(measured: Option<&Correction<M>>, now: Option<u64>) -> (r: bool)
    ensures
        r == (match (measured, now) {
            (Some(c), Some(t)) => match age_of(c.measured_at, t) {
                Some(age) => age > STALE_AFTER_SECS,
                None => true,
            },
            _ => false,
        }),
{
    match (measured, now) {
        (Some(c), Some(t)) => c.is_stale(t),
        _ => false,
    }
}

/// Unix seconds now, or nothing if the clock is somewhere before the epoch.
pub fn now(since_epoch: Option<Span>) -> (r: Option<u64>)
    requires
        since_epoch matches Some(s) ==> s.nanos / 1_000_000_000 <= u64::MAX,
    ensures
        (match r {
            Some(t) => Some(t as int),
            None => None,
        }) == (match since_epoch {
            Some(s) => Some(s.nanos as int / 1_000_000_000),
            None => None,
        }),
{
    match since_epoch {
        Some(s) => Some((s.nanos / 1_000_000_000) as u64),
        None => None,
    }
}

/// Where the measurements are kept: the directory, and the file in it.
pub fn path(data_dir: &Option<String>) -> (r: Result<(String, String), String>)
    ensures
        match (r, text_opt(*data_dir)) {
            (Ok((dir, file)), Some(base)) => {
                &&& dir@ == paths::below(base, "wsctl"@)
                &&& file@ == paths::below(dir@, "audio-calibration.json"@)
            },
            (Err(e), None) => e@ == "no Application Support directory"@,
            _ => false,
        },
{
    match data_dir {
        Some(base) => {
            let dir = paths::join(base, "wsctl");
            let file = paths::join(&dir, "audio-calibration.json");
            Ok((dir, file))
        },
        None => Err("no Application Support directory".to_owned()),
    }
}

proof fn lemma_found_behind<M>(
    pairs: Seq<Correction<M>>,
    last: Correction<M>,
    output_uid: Seq<char>,
    input_uid: Seq<char>,
)
    ensures
        found(pairs.push(last), output_uid, input_uid) == (match found(
            pairs,
            output_uid,
            input_uid,
        ) {
            Some(c) => Some(c),
            None => if last.is_for(output_uid, input_uid) {
                Some(last)
            } else {
                None
            },
        }),
{
    assert(pairs.push(last).drop_last() =~= pairs);
}

proof fn lemma_found_filtered<M>(
    pairs: Seq<Correction<M>>,
    new: Correction<M>,
    output_uid: Seq<char>,
    input_uid: Seq<char>,
)
    ensures
        ({
            let keep = |c: Correction<M>| !c.is_for(new.output_uid@, new.input_uid@);
            found(pairs.filter(keep), output_uid, input_uid) == (if new.is_for(
                output_uid,
                input_uid,
            ) {
                None
            } else {
                found(pairs, output_uid, input_uid)
            })
        }),
    decreases pairs.len(),
{
    let keep = |c: Correction<M>| !c.is_for(new.output_uid@, new.input_uid@);
    reveal(Seq::filter);
    if pairs.len() > 0 {
        let rest = pairs.drop_last();
        lemma_found_filtered(rest, new, output_uid, input_uid);
        rest.lemma_filter_push(pairs.last(), keep);
        assert(rest.push(pairs.last()) =~= pairs);
        if keep(pairs.last()) {
            lemma_found_behind(rest.filter(keep), pairs.last(), output_uid, input_uid);
        }
    }
}

/// What was recorded last for a pair is what is found for it, and recording it changes
/// nothing for any other pair.
pub proof fn law_the_newest_measurement_is_found<M>(
    pairs: Seq<Correction<M>>,
    new: Correction<M>,
    output_uid: Seq<char>,
    input_uid: Seq<char>,
)
    ensures
        found(recorded(pairs, new), output_uid, input_uid) == (if new.is_for(
            output_uid,
            input_uid,
        ) {
            Some(new)
        } else {
            found(pairs, output_uid, input_uid)
        }),
{
    let keep = |c: Correction<M>| !c.is_for(new.output_uid@, new.input_uid@);
    lemma_found_filtered(pairs, new, output_uid, input_uid);
    lemma_found_behind(pairs.filter(keep), new, output_uid, input_uid);
}

/// A measurement only ever gets older: once it is stale it stays so.
pub proof fn law_a_stale_measurement_stays_stale(measured_at: Option<u64>, now: u64, later: u64)
    requires
        now <= later,
    ensures
        (match age_of(measured_at, now) {
            Some(age) => age > STALE_AFTER_SECS,
            None => true,
        }) ==> (match age_of(measured_at, later) {
            Some(age) => age > STALE_AFTER_SECS,
            None => true,
        }),
{
}

/// What is found for two devices was measured between those two, and nothing is found exactly
/// where nothing was.
pub proof fn law_what_is_found_was_measured_between_the_two<M>(
    pairs: Seq<Correction<M>>,
    output_uid: Seq<char>,
    input_uid: Seq<char>,
)
    ensures
        match found(pairs, output_uid, input_uid) {
            Some(c) => pairs.contains(c) && c.output_uid@ == output_uid && c.input_uid@
                == input_uid,
            None => forall|i: int|
                0 <= i < pairs.len() ==> (#[trigger] pairs[i]).output_uid@ != output_uid
                    || pairs[i].input_uid@ != input_uid,
        },
    decreases pairs.len(),
{
    if pairs.len() > 0 {
        let before = pairs.drop_last();
        let last = pairs.len() - 1;
        law_what_is_found_was_measured_between_the_two(before, output_uid, input_uid);
        assert forall|i: int| 0 <= i < before.len() implies before[i] == #[trigger] pairs[i] by {}
        assert(pairs[last] == pairs.last());
        if let Some(c) = found(before, output_uid, input_uid) {
            let k = choose|k: int| 0 <= k < before.len() && before[k] == c;
            assert(pairs[k] == c);
        } else {
            assert forall|i: int| 0 <= i < last implies (#[trigger] pairs[i]).output_uid@
                != output_uid || pairs[i].input_uid@ != input_uid by {
                assert(before[i].output_uid@ != output_uid || before[i].input_uid@ != input_uid);
            }
        }
    }
}

/// A measurement is as old as the time since, none where the clock stands before it, and is
/// stale from thirty days on.
pub proof fn law_a_measurement_is_stale_after_thirty_days(at: u64, now: u64)
    ensures
        now >= at ==> age_of(Some(at), now) == Some(now - at),
        now < at ==> age_of(Some(at), now) == Some(0int),
        age_of(Some(at), now)->0 > STALE_AFTER_SECS <==> now - at > 30 * 86_400,
        age_of(None, now) is None,
{
}

} // verus!
