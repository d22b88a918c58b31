//! What the layout of the moment says, and when to look again.
use vstd::prelude::*;
use crate::display::arrange;
use crate::display::arrange::{DisplayInfo, Move};
use crate::text;

verus! {

/// How many displays are asked for.
pub const MAX_DISPLAYS: usize = 16;

/// A failure with the number that the system gave it.
pub open spec fn numbered(what: Seq<char>, err: i32) -> Seq<char> {
    what + " (error "@ + text::signed_decimal(err as int) + ")"@
}

fn failure(what: &str, err: i32) -> (r: String)
    ensures
        r@ == numbered(what@, err),
{
    let mut out: String = what.to_owned();
    out.append(" (error ");
    let n = text::dec_i64(err as i64);
    out.append(n.as_str());
    out.append(")");
    out
}

/// The displays that the system lists, or why it does not.
pub fn list_displays(seen: Result<Vec<DisplayInfo>, i32>) -> (r: Result<Vec<DisplayInfo>, String>)
    ensures
        match (r, seen) {
            (Ok(v), Ok(s)) => v == s,
            (Err(e), Err(err)) => e@ == numbered("CGGetActiveDisplayList failed"@, err),
            _ => false,
        },
{
    match seen {
        Ok(v) => Ok(v),
        Err(err) => Err(failure("CGGetActiveDisplayList failed", err)),
    }
}

/// A step of moving displays.
#[derive(Debug, Clone, Copy, PartialEq, Eq, Structural)]
pub enum Doing {
    /// Begin the transaction.
    Begin,
    /// Place a display, by its position among the moves.
    Place(usize),
    /// Cancel the transaction, because a display could not be placed.
    Cancel { failed: usize, err: i32 },
    /// Complete the transaction, for good.
    Complete,
}

/// What comes next in moving displays.
#[derive(Debug)]
pub enum Act {
    Do(Doing),
    Done(Result<(), String>),
}

/// What comes next, in mathematical terms: a step, or why there is no more.
pub ghost enum ActRow {
    Do(Doing),
    Done(Option<Seq<char>>),
}

impl Act {
    pub open spec fn view(&self) -> ActRow {
        match *self {
            Act::Do(d) => ActRow::Do(d),
            Act::Done(r) => ActRow::Done(
                match r {
                    Ok(_) => None,
                    Err(e) => Some(e@),
                },
            ),
        }
    }
}

/// Why a move failed.
pub open spec fn move_failure(id: u32, err: i32) -> Seq<char> {
    numbered("could not move display "@ + text::decimal(id as nat), err)
}

/// What comes after the last step and the number it came to, zero where it succeeded.
pub open spec fn next_act(moves: Seq<Move>, last: Option<(Doing, i32)>) -> ActRow {
    match last {
        None => if moves.len() == 0 {
            ActRow::Done(None)
        } else {
            ActRow::Do(Doing::Begin)
        },
        Some((Doing::Begin, came)) => if came != 0 {
            ActRow::Done(Some(numbered("CGBeginDisplayConfiguration failed"@, came)))
        } else {
            ActRow::Do(Doing::Place(0))
        },
        Some((Doing::Place(i), came)) => if came != 0 {
            ActRow::Do(Doing::Cancel { failed: i, err: came })
        } else if i + 1 < moves.len() {
            ActRow::Do(Doing::Place((i + 1) as usize))
        } else {
            ActRow::Do(Doing::Complete)
        },
        Some((Doing::Cancel { failed, err }, _)) => ActRow::Done(
            Some(move_failure(moves[failed as int].id, err)),
        ),
        Some((Doing::Complete, came)) => if came != 0 {
            ActRow::Done(Some(numbered("CGCompleteDisplayConfiguration failed"@, came)))
        } else {
            ActRow::Done(None)
        },
    }
}

/// The step is one of those for the moves.
pub open spec fn is_step_of(moves: Seq<Move>, step: Doing) -> bool {
    match step {
        Doing::Place(i) => i < moves.len(),
        Doing::Cancel { failed, .. } => failed < moves.len(),
        _ => moves.len() > 0,
    }
}

/// What comes next in applying a whole arrangement in one transaction, so that the desktop
/// never flashes through an intermediate layout, given the last step and what it came to.
/// An empty plan leaves the configuration alone, and the first move that fails cancels
/// everything.
pub fn apply_moves(moves: &[Move], last: Option<(Doing, i32)>) -> (r: Act)
    requires
        last matches Some((step, _)) ==> is_step_of(moves@, step),
    ensures
        r@ == next_act(moves@, last),
        r matches Act::Do(step) ==> is_step_of(moves@, step),
{
    match last {
        None => {
            if moves.len() == 0 {
                Act::Done(Ok(()))
            } else {
                Act::Do(Doing::Begin)
            }
        },
        Some((Doing::Begin, came)) => {
            if came != 0 {
                Act::Done(Err(failure("CGBeginDisplayConfiguration failed", came)))
            } else {
                Act::Do(Doing::Place(0))
            }
        },
        Some((Doing::Place(i), came)) => {
            if came != 0 {
                Act::Do(Doing::Cancel { failed: i, err: came })
            } else if i < moves.len() - 1 {
                Act::Do(Doing::Place(i + 1))
            } else {
                Act::Do(Doing::Complete)
            }
        },
        Some((Doing::Cancel { failed, err }, _)) => {
            let mut what: String = "could not move display ".to_owned();
            let id = text::dec(moves[failed].id as u64);
            what.append(id.as_str());
            Act::Done(Err(failure(&what, err)))
        },
        Some((Doing::Complete, came)) => {
            if came != 0 {
                Act::Done(Err(failure("CGCompleteDisplayConfiguration failed", came)))
            } else {
                Act::Done(Ok(()))
            }
        },
    }
}

/// What is done first, second and so on, where `came` says what each step comes to.
pub open spec fn act_at(moves: Seq<Move>, came: spec_fn(Doing) -> i32, n: nat) -> ActRow
    decreases n,
{
    if n == 0 {
        next_act(moves, None)
    } else {
        match act_at(moves, came, (n - 1) as nat) {
            ActRow::Do(step) => next_act(moves, Some((step, came(step)))),
            done => done,
        }
    }
}

proof fn lemma_placing(moves: Seq<Move>, came: spec_fn(Doing) -> i32, k: nat, n: nat)
    requires
        moves.len() > 0,
        moves.len() <= usize::MAX,
        came(Doing::Begin) == 0,
        n <= k < moves.len(),
        forall|i: int|
            0 <= i < k ==> #[trigger] came(Doing::Place(i as usize)) == 0,
    ensures
        act_at(moves, came, n + 1) == ActRow::Do(Doing::Place(n as usize)),
    decreases n,
{
    assert(act_at(moves, came, 0) == ActRow::Do(Doing::Begin));
    if n > 0 {
        lemma_placing(moves, came, k, (n - 1) as nat);
        assert(came(Doing::Place((n - 1) as usize)) == 0);
    }
}

/// An empty plan begins nothing. Any other begins once, and where that fails nothing is
/// placed. The displays are placed one after the other up to the first that fails. Where one
/// does, the transaction is cancelled and says which; where none does, it is completed.
pub proof fn law_moves_are_one_transaction(
    moves: Seq<Move>,
    came: spec_fn(Doing) -> i32,
    placed: nat,
)
    requires
        moves.len() <= usize::MAX,
        placed <= moves.len(),
        forall|i: int|
            0 <= i < placed ==> #[trigger] came(Doing::Place(i as usize)) == 0,
        placed < moves.len() ==> came(Doing::Place(placed as usize)) != 0,
    ensures
        moves.len() == 0 ==> act_at(moves, came, 0) == ActRow::Done(None),
        moves.len() > 0 ==> act_at(moves, came, 0) == ActRow::Do(Doing::Begin),
        moves.len() > 0 && came(Doing::Begin) != 0 ==> act_at(moves, came, 1) == ActRow::Done(
            Some(numbered("CGBeginDisplayConfiguration failed"@, came(Doing::Begin))),
        ),
        moves.len() > 0 && came(Doing::Begin) == 0 ==> {
            &&& forall|i: nat|
                i <= placed && i < moves.len() ==> #[trigger] act_at(moves, came, i + 1)
                    == ActRow::Do(Doing::Place(i as usize))
            &&& if placed < moves.len() {
                let err = came(Doing::Place(placed as usize));
                &&& act_at(moves, came, placed + 2) == ActRow::Do(
                    Doing::Cancel { failed: placed as usize, err },
                )
                &&& act_at(moves, came, placed + 3) == ActRow::Done(
                    Some(move_failure(moves[placed as int].id, err)),
                )
            } else {
                &&& act_at(moves, came, placed + 1) == ActRow::Do(Doing::Complete)
                &&& act_at(moves, came, placed + 2) == ActRow::Done(
                    if came(Doing::Complete) == 0 {
                        None
                    } else {
                        Some(
                            numbered(
                                "CGCompleteDisplayConfiguration failed"@,
                                came(Doing::Complete),
                            ),
                        )
                    },
                )
            }
        },
{
    if moves.len() > 0 {
        assert(act_at(moves, came, 0) == ActRow::Do(Doing::Begin));
        if came(Doing::Begin) != 0 {
            assert(act_at(moves, came, 1) == next_act(
                moves,
                Some((Doing::Begin, came(Doing::Begin))),
            ));
        } else {
            let last = if placed < moves.len() {
                placed
            } else {
                (moves.len() - 1) as nat
            };
            assert forall|i: nat| i <= placed && i < moves.len() implies #[trigger] act_at(
                moves,
                came,
                i + 1,
            ) == ActRow::Do(Doing::Place(i as usize)) by {
                lemma_placing(moves, came, last, i);
            }
            assert(act_at(moves, came, last + 1) == ActRow::Do(Doing::Place(last as usize)));
            if placed < moves.len() {
                assert(act_at(moves, came, placed + 2) == next_act(
                    moves,
                    Some((Doing::Place(placed as usize), came(Doing::Place(placed as usize)))),
                ));
                let step = Doing::Cancel {
                    failed: placed as usize,
                    err: came(Doing::Place(placed as usize)),
                };
                assert(act_at(moves, came, placed + 3) == next_act(
                    moves,
                    Some((step, came(step))),
                ));
            } else {
                assert(came(Doing::Place(last as usize)) == 0);
                assert(act_at(moves, came, placed + 1) == next_act(
                    moves,
                    Some((Doing::Place(last as usize), came(Doing::Place(last as usize)))),
                ));
                assert(act_at(moves, came, placed + 2) == next_act(
                    moves,
                    Some((Doing::Complete, came(Doing::Complete))),
                ));
            }
        }
    }
}

/// The displays of a reading. One that failed counts as none.
pub open spec fn seen_in(reading: Result<Vec<DisplayInfo>, String>) -> Seq<DisplayInfo> {
    match reading {
        Ok(v) => v@,
        Err(_) => Seq::empty(),
    }
}

/// A layout calls for a pass where none was remembered, or another one.
pub open spec fn calls(remembered: Option<Seq<DisplayInfo>>, seen: Seq<DisplayInfo>) -> bool {
    match remembered {
        Some(p) => p != seen,
        None => true,
    }
}

/// One look of a watch at the layout: whether it calls for a pass, given the layout
/// that the last pass left behind. A failed reading counts as no displays.
pub fn watch(
    remembered: &Option<Vec<DisplayInfo>>,
    reading: &Result<Vec<DisplayInfo>, String>,
) -> (r: bool)
    ensures
        r == calls(
            match *remembered {
                Some(v) => Some(v@),
                None => None,
            },
            seen_in(*reading),
        ),
{
    let none: Vec<DisplayInfo> = Vec::new();
    let current: &Vec<DisplayInfo> = match reading {
        Ok(v) => v,
        Err(_) => &none,
    };
    assert(current@ =~= seen_in(*reading));
    match remembered {
        Some(p) => arrange::layout_changed(Some(p.as_slice()), current.as_slice()),
        None => arrange::layout_changed(None, current.as_slice()),
    }
}

/// The layout that is remembered once a pass was made, given the reading that called for it
/// and the one right after it. It is the one that the pass left behind, so that its own
/// change does not read back as a fresh one.
pub fn remembered(
    reading: Result<Vec<DisplayInfo>, String>,
    after: Result<Vec<DisplayInfo>, String>,
) -> (r: Vec<DisplayInfo>)
    ensures
        r@ == left_behind(reading, after),
{
    match after {
        Ok(v) => v,
        Err(_) => match reading {
            Ok(v) => v,
            Err(_) => Vec::new(),
        },
    }
}

/// The layout that a pass leaves behind: the one right after it, or where that could not be
/// read the one that called for it.
pub open spec fn left_behind(
    reading: Result<Vec<DisplayInfo>, String>,
    after: Result<Vec<DisplayInfo>, String>,
) -> Seq<DisplayInfo> {
    match after {
        Ok(v) => v@,
        Err(_) => seen_in(reading),
    }
}

/// One round of a watch: a reading, and the one right after the pass where it called for
/// one.
pub ghost struct Round {
    pub reading: Result<Vec<DisplayInfo>, String>,
    pub after: Result<Vec<DisplayInfo>, String>,
}

/// What is remembered after a run of rounds.
pub open spec fn memory(rounds: Seq<Round>) -> Option<Seq<DisplayInfo>>
    decreases rounds.len(),
{
    if rounds.len() == 0 {
        None
    } else {
        let before = memory(rounds.drop_last());
        let r = rounds.last();
        if calls(before, seen_in(r.reading)) {
            Some(left_behind(r.reading, r.after))
        } else {
            before
        }
    }
}

/// A round makes a pass.
pub open spec fn passes(rounds: Seq<Round>, n: int) -> bool {
    calls(memory(rounds.take(n)), seen_in(rounds[n].reading))
}

/// The first round makes a pass. A later one does if and only if its reading differs from
/// the layout that the pass before it left behind, so a change that a pass made itself does
/// not make another.
pub proof fn law_a_pass_is_made_only_for_a_change(rounds: Seq<Round>, last: int, n: int)
    requires
        0 <= last < n < rounds.len(),
        passes(rounds, last),
        forall|k: int| last < k < n ==> !#[trigger] passes(rounds, k),
    ensures
        passes(rounds, 0),
        passes(rounds, n) <==> seen_in(rounds[n].reading) != left_behind(
            rounds[last].reading,
            rounds[last].after,
        ),
    decreases n,
{
    lemma_memory(rounds, last, n);
}

proof fn lemma_memory(rounds: Seq<Round>, last: int, n: int)
    requires
        0 <= last < n <= rounds.len(),
        passes(rounds, last),
        forall|k: int| last < k < n ==> !#[trigger] passes(rounds, k),
    ensures
        memory(rounds.take(n)) == Some(left_behind(rounds[last].reading, rounds[last].after)),
    decreases n,
{
    let t = rounds.take(n);
    assert(t.drop_last() =~= rounds.take(n - 1));
    assert(t.last() == rounds[n - 1]);
    if n - 1 == last {
        assert(passes(rounds, last));
    } else {
        lemma_memory(rounds, last, n - 1);
        assert(!passes(rounds, n - 1));
    }
}

/// What is remembered of a round is the layout after it, where that could be read, and else the
/// one it went by; a layout that could not be read counts as none.
pub proof fn law_the_layout_after_a_round_is_remembered(
    reading: Result<Vec<DisplayInfo>, String>,
    after: Result<Vec<DisplayInfo>, String>,
)
    ensures
        after is Ok ==> left_behind(reading, after) == after->Ok_0@,
        after is Err && reading is Ok ==> left_behind(reading, after) == reading->Ok_0@,
        after is Err && reading is Err ==> left_behind(reading, after).len() == 0,
        reading is Ok ==> seen_in(reading) == reading->Ok_0@,
        reading is Err ==> seen_in(reading).len() == 0,
        calls(None, seen_in(reading)),
        !calls(Some(seen_in(reading)), seen_in(reading)),
{
}

} // verus!
