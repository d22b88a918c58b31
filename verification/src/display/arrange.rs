//! Where the panels sit.
use vstd::prelude::*;
use crate::display::key::DisplayKey;
use crate::order;
use crate::order::Ranked;
use crate::text;

verus! {

/// A display as the system currently reports it.
#[derive(Debug, Clone, Copy, PartialEq, Eq)]
pub struct DisplayInfo {
    pub id: u32,
    pub key: DisplayKey,
    pub builtin: bool,
    pub main: bool,
    pub origin: (i32, i32),
    pub size: (u32, u32),
}

/// Where a display should be placed on the desktop.
#[derive(Debug, Clone, Copy, PartialEq, Eq)]
pub struct Move {
    pub id: u32,
    pub origin: (i32, i32),
}

/// The first display with a key.
pub open spec fn anchor(displays: Seq<DisplayInfo>, target: DisplayKey) -> Option<DisplayInfo>
    decreases displays.len(),
{
    if displays.len() == 0 {
        None
    } else {
        match anchor(displays.drop_last(), target) {
            Some(d) => Some(d),
            None => if displays.last().key == target {
                Some(displays.last())
            } else {
                None
            },
        }
    }
}

/// The arrangement shifted by an offset.
pub open spec fn shifted(displays: Seq<DisplayInfo>, dx: int, dy: int) -> Seq<Move> {
    displays.map_values(
        |d: DisplayInfo|
            Move { id: d.id, origin: ((d.origin.0 - dx) as i32, (d.origin.1 - dy) as i32) },
    )
}

/// The moves that put the target at (0,0). None where it is not connected, none to
/// make where it is there already.
pub open spec fn moves_for(displays: Seq<DisplayInfo>, target: DisplayKey) -> Option<Seq<Move>> {
    match anchor(displays, target) {
        None => None,
        Some(a) => if a.origin == (0i32, 0i32) {
            Some(Seq::empty())
        } else {
            Some(shifted(displays, a.origin.0 as int, a.origin.1 as int))
        },
    }
}

/// No coordinate leaves its range when the arrangement is shifted.
pub open spec fn can_shift(displays: Seq<DisplayInfo>, target: DisplayKey) -> bool {
    match anchor(displays, target) {
        Some(a) => a.origin == (0i32, 0i32) || forall|i: int|
            0 <= i < displays.len() ==> {
                let d = #[trigger] displays[i];
                &&& i32::MIN <= d.origin.0 - a.origin.0 <= i32::MAX
                &&& i32::MIN <= d.origin.1 - a.origin.1 <= i32::MAX
            },
        None => true,
    }
}

fn find_anchor(displays: &[DisplayInfo], target: DisplayKey) -> (r: Option<DisplayInfo>)
    ensures
        r == anchor(displays@, target),
{
    for i in 0..displays.len()
        invariant
            anchor(displays@.take(i as int), target) is None,
    {
        assert(displays@.take(i + 1).drop_last() =~= displays@.take(i as int));
        if displays[i].key == target {
            proof {
                lemma_anchor_prefix(displays@, target, i + 1);
            }
            return Some(displays[i]);
        }
    }
    assert(displays@.take(displays@.len() as int) =~= displays@);
    None
}

proof fn lemma_anchor_prefix(displays: Seq<DisplayInfo>, target: DisplayKey, n: int)
    requires
        0 <= n <= displays.len(),
        anchor(displays.take(n), target) is Some,
    ensures
        anchor(displays, target) == anchor(displays.take(n), target),
    decreases displays.len() - n,
{
    if n == displays.len() {
        assert(displays.take(n) =~= displays);
    } else {
        assert(displays.take(n + 1).drop_last() =~= displays.take(n));
        lemma_anchor_prefix(displays, target, n + 1);
    }
}

/// Origins that put `target` at (0,0), which makes it the main display. The whole
/// arrangement is shifted by the same offset, so the panels keep their relative
/// positions and only the menu bar moves.
pub fn plan_moves(displays: &[DisplayInfo], target: DisplayKey) -> (r: Option<Vec<Move>>)
    requires
        can_shift(displays@, target),
    ensures
        match r {
            Some(v) => moves_for(displays@, target) == Some(v@),
            None => moves_for(displays@, target) is None,
        },
{
    let a = match find_anchor(displays, target) {
        Some(a) => a,
        None => {
            return None;
        },
    };
    let dx = a.origin.0;
    let dy = a.origin.1;
    let mut out: Vec<Move> = Vec::new();
    if dx == 0 && dy == 0 {
        assert(out@ =~= Seq::<Move>::empty());
        return Some(out);
    }
    assert(a.origin != (0i32, 0i32));
    let ghost all = shifted(displays@, dx as int, dy as int);
    for i in 0..displays.len()
        invariant
            all == shifted(displays@, dx as int, dy as int),
            forall|i: int|
                0 <= i < displays.len() ==> {
                    let d = #[trigger] displays@[i];
                    &&& i32::MIN <= d.origin.0 - dx <= i32::MAX
                    &&& i32::MIN <= d.origin.1 - dy <= i32::MAX
                },
            out@ == all.take(i as int),
    {
        let d = displays[i];
        assert(displays@[i as int] == d);
        let m = Move { id: d.id, origin: (d.origin.0 - dx, d.origin.1 - dy) };
        out.push(m);
        assert(out@ =~= all.take(i + 1));
    }
    assert(all.take(all.len() as int) =~= all);
    Some(out)
}

/// The first display that is marked as the main one.
pub open spec fn first_main(displays: Seq<DisplayInfo>) -> Option<DisplayInfo>
    decreases displays.len(),
{
    if displays.len() == 0 {
        None
    } else {
        match first_main(displays.drop_last()) {
            Some(d) => Some(d),
            None => if displays.last().main {
                Some(displays.last())
            } else {
                None
            },
        }
    }
}

/// The first display at (0,0).
pub open spec fn first_at_origin(displays: Seq<DisplayInfo>) -> Option<DisplayInfo>
    decreases displays.len(),
{
    if displays.len() == 0 {
        None
    } else {
        match first_at_origin(displays.drop_last()) {
            Some(d) => Some(d),
            None => if displays.last().origin == (0i32, 0i32) {
                Some(displays.last())
            } else {
                None
            },
        }
    }
}

proof fn lemma_first_main_prefix(displays: Seq<DisplayInfo>, n: int)
    requires
        0 <= n <= displays.len(),
        first_main(displays.take(n)) is Some,
    ensures
        first_main(displays) == first_main(displays.take(n)),
    decreases displays.len() - n,
{
    if n == displays.len() {
        assert(displays.take(n) =~= displays);
    } else {
        assert(displays.take(n + 1).drop_last() =~= displays.take(n));
        lemma_first_main_prefix(displays, n + 1);
    }
}

proof fn lemma_first_origin_prefix(displays: Seq<DisplayInfo>, n: int)
    requires
        0 <= n <= displays.len(),
        first_at_origin(displays.take(n)) is Some,
    ensures
        first_at_origin(displays) == first_at_origin(displays.take(n)),
    decreases displays.len() - n,
{
    if n == displays.len() {
        assert(displays.take(n) =~= displays);
    } else {
        assert(displays.take(n + 1).drop_last() =~= displays.take(n));
        lemma_first_origin_prefix(displays, n + 1);
    }
}

/// The display holding the menu bar: the one that says so, else the one at (0,0).
pub fn current_main(displays: &[DisplayInfo]) -> (r: Option<&DisplayInfo>)
    ensures
        match r {
            Some(d) => Some(*d) == (match first_main(displays@) {
                Some(m) => Some(m),
                None => first_at_origin(displays@),
            }),
            None => first_main(displays@) is None && first_at_origin(displays@) is None,
        },
{
    for i in 0..displays.len()
        invariant
            first_main(displays@.take(i as int)) is None,
    {
        assert(displays@.take(i + 1).drop_last() =~= displays@.take(i as int));
        if displays[i].main {
            proof {
                lemma_first_main_prefix(displays@, i + 1);
            }
            return Some(&displays[i]);
        }
    }
    assert(displays@.take(displays@.len() as int) =~= displays@);
    for i in 0..displays.len()
        invariant
            first_main(displays@) is None,
            first_at_origin(displays@.take(i as int)) is None,
    {
        assert(displays@.take(i + 1).drop_last() =~= displays@.take(i as int));
        if displays[i].origin.0 == 0 && displays[i].origin.1 == 0 {
            proof {
                lemma_first_origin_prefix(displays@, i + 1);
            }
            return Some(&displays[i]);
        }
    }
    None
}

/// How many displays have a key.
pub open spec fn times_keyed(displays: Seq<DisplayInfo>, key: DisplayKey) -> nat {
    displays.filter(|d: DisplayInfo| d.key == key).len()
}

/// Panels that share a key cannot be told apart, so pinning either one is a coin
/// flip.
pub fn has_duplicate_key(displays: &[DisplayInfo], key: DisplayKey) -> (r: bool)
    ensures
        r == (times_keyed(displays@, key) > 1),
{
    let ghost keyed = |d: DisplayInfo| d.key == key;
    let mut count: usize = 0;
    proof {
        reveal(Seq::filter);
    }
    for i in 0..displays.len()
        invariant
            keyed == (|d: DisplayInfo| d.key == key),
            count == displays@.take(i as int).filter(keyed).len(),
            count <= i,
    {
        proof {
            let upto = displays@.take(i as int);
            assert(displays@.take(i + 1) =~= upto.push(displays@[i as int]));
            upto.lemma_filter_push(displays@[i as int], keyed);
        }
        if displays[i].key == key {
            count = count + 1;
        }
    }
    assert(displays@.take(displays@.len() as int) =~= displays@);
    count > 1
}

/// A coordinate with the display it belongs to, in rising order.
impl Ranked for (i32, u32) {
    open spec fn le(&self, other: &Self) -> bool {
        self.0 <= other.0
    }

    proof fn le_total(a: &Self, b: &Self) {
    }

    proof fn le_transitive(a: &Self, b: &Self, c: &Self) {
    }

    fn leq(&self, other: &Self) -> (r: bool) {
        self.0 <= other.0
    }
}

/// The panels do not all stand above each other.
pub open spec fn is_horizontal(displays: Seq<DisplayInfo>) -> bool {
    exists|i: int|
        0 <= i < displays.len() && (#[trigger] displays[i]).origin.0 != displays[0].origin.0
}

/// The displays by the coordinate that tells them apart.
pub open spec fn coordinates(displays: Seq<DisplayInfo>) -> Seq<(i32, u32)> {
    if is_horizontal(displays) {
        displays.map_values(|d: DisplayInfo| (d.origin.0, d.id))
    } else {
        displays.map_values(|d: DisplayInfo| (d.origin.1, d.id))
    }
}

/// Where a display first stands in a list.
pub open spec fn place_of(v: Seq<(i32, u32)>, id: u32) -> Option<int>
    decreases v.len(),
{
    if v.len() == 0 {
        None
    } else {
        match place_of(v.drop_last(), id) {
            Some(i) => Some(i),
            None => if v.last().1 == id {
                Some(v.len() - 1)
            } else {
                None
            },
        }
    }
}

proof fn lemma_place_prefix(v: Seq<(i32, u32)>, id: u32, n: int)
    requires
        0 <= n <= v.len(),
        place_of(v.take(n), id) is Some,
    ensures
        place_of(v, id) == place_of(v.take(n), id),
    decreases v.len() - n,
{
    if n == v.len() {
        assert(v.take(n) =~= v);
    } else {
        assert(v.take(n + 1).drop_last() =~= v.take(n));
        lemma_place_prefix(v, id, n + 1);
    }
}

/// The word for the place `rank` of `n`, from `low` to `high`.
pub open spec fn place_word(n: int, rank: int, low: Seq<char>, high: Seq<char>) -> Seq<char> {
    if n == 2 {
        if rank == 0 {
            low
        } else {
            high
        }
    } else if rank == 0 {
        low + "most"@
    } else if rank == n - 1 {
        high + "most"@
    } else {
        "#"@ + text::decimal((rank + 1) as nat) + " from "@ + low
    }
}

/// Where a display sits, in a word.
pub open spec fn label_of(displays: Seq<DisplayInfo>, id: u32) -> Seq<char> {
    if displays.len() <= 1 {
        "only display"@
    } else {
        match place_of(order::sorted(coordinates(displays)), id) {
            None => "unknown"@,
            Some(rank) => if is_horizontal(displays) {
                place_word(displays.len() as int, rank, "left"@, "right"@)
            } else {
                place_word(displays.len() as int, rank, "top"@, "bottom"@)
            },
        }
    }
}

/// Where a display sits in the arrangement, as a word rather than a coordinate.
/// Identical panels report the same name, so position is what tells them apart.
pub fn position_label(displays: &[DisplayInfo], id: u32) -> (r: String)
    ensures
        r@ == label_of(displays@, id),
{
    if displays.len() <= 1 {
        return "only display".to_owned();
    }
    let first_x = displays[0].origin.0;
    let mut horizontal: bool = false;
    for i in 0..displays.len()
        invariant
            displays@.len() > 1,
            first_x == displays@[0].origin.0,
            horizontal == (exists|j: int|
                0 <= j < i && (#[trigger] displays@[j]).origin.0 != displays@[0].origin.0),
    {
        if displays[i].origin.0 != first_x {
            horizontal = true;
        }
    }
    assert(horizontal == is_horizontal(displays@));
    let ghost wanted = coordinates(displays@);
    let mut raw: Vec<(i32, u32)> = Vec::new();
    for i in 0..displays.len()
        invariant
            horizontal == is_horizontal(displays@),
            wanted == coordinates(displays@),
            raw@ == wanted.take(i as int),
    {
        let d = displays[i];
        if horizontal {
            raw.push((d.origin.0, d.id));
        } else {
            raw.push((d.origin.1, d.id));
        }
        assert(raw@ =~= wanted.take(i + 1));
    }
    assert(wanted.take(wanted.len() as int) =~= wanted);
    proof {
        order::lemma_sorted_ordered(wanted);
    }
    let sorted = order::sort(raw);
    let n = sorted.len();
    assert(n == displays@.len());
    for rank in 0..sorted.len()
        invariant
            displays@.len() > 1,
            n == displays@.len(),
            n == sorted@.len(),
            horizontal == is_horizontal(displays@),
            sorted@ == order::sorted(coordinates(displays@)),
            place_of(sorted@.take(rank as int), id) is None,
    {
        assert(sorted@.take(rank + 1).drop_last() =~= sorted@.take(rank as int));
        if sorted[rank].1 == id {
            proof {
                lemma_place_prefix(sorted@, id, rank + 1);
            }
            if horizontal {
                return word_for(n, rank, "left", "right");
            } else {
                return word_for(n, rank, "top", "bottom");
            }
        }
    }
    assert(sorted@.take(sorted@.len() as int) =~= sorted@);
    "unknown".to_owned()
}

fn word_for(n: usize, rank: usize, low: &str, high: &str) -> (r: String)
    requires
        rank < n,
    ensures
        r@ == place_word(n as int, rank as int, low@, high@),
{
    if n == 2 {
        if rank == 0 {
            low.to_owned()
        } else {
            high.to_owned()
        }
    } else if rank == 0 {
        let mut out: String = low.to_owned();
        out.append("most");
        out
    } else if rank == n - 1 {
        let mut out: String = high.to_owned();
        out.append("most");
        out
    } else {
        let mut out: String = "#".to_owned();
        let number = text::dec((rank + 1) as u64);
        out.append(number.as_str());
        out.append(" from ");
        out.append(low);
        out
    }
}

fn same_display(a: &DisplayInfo, b: &DisplayInfo) -> (r: bool)
    ensures
        r == (*a == *b),
{
    a.id == b.id && a.key == b.key && a.builtin == b.builtin && a.main == b.main && a.origin.0
        == b.origin.0 && a.origin.1 == b.origin.1 && a.size.0 == b.size.0 && a.size.1 == b.size.1
}

/// Whether the arrangement moved since the last look, and so needs another pass. The
/// first look always counts as a change, so that startup enforces once.
pub fn layout_changed(previous: Option<&[DisplayInfo]>, current: &[DisplayInfo]) -> (r: bool)
    ensures
        r == (match previous {
            Some(p) => p@ != current@,
            None => true,
        }),
{
    match previous {
        None => true,
        Some(p) => {
            if p.len() != current.len() {
                return true;
            }
            for i in 0..p.len()
                invariant
                    previous == Some(p),
                    p@.len() == current@.len(),
                    forall|j: int| 0 <= j < i ==> p@[j] == current@[j],
            {
                if !same_display(&p[i], &current[i]) {
                    return true;
                }
            }
            assert(p@ =~= current@);
            false
        },
    }
}

/// The arrangement after moves are made, one for each display by position.
pub open spec fn moved(displays: Seq<DisplayInfo>, moves: Seq<Move>) -> Seq<DisplayInfo> {
    Seq::new(displays.len(), |i: int| DisplayInfo { origin: moves[i].origin, ..displays[i] })
}

/// Every pair of panels stands to each other as before.
pub proof fn law_a_shift_keeps_the_relative_layout(
    displays: Seq<DisplayInfo>,
    target: DisplayKey,
    i: int,
    j: int,
)
    requires
        can_shift(displays, target),
        moves_for(displays, target) matches Some(m) && m.len() > 0,
        0 <= i < displays.len(),
        0 <= j < displays.len(),
    ensures
        ({
            let m = moves_for(displays, target)->0;
            &&& m.len() == displays.len()
            &&& m[i].id == displays[i].id
            &&& m[j].origin.0 - m[i].origin.0 == displays[j].origin.0 - displays[i].origin.0
            &&& m[j].origin.1 - m[i].origin.1 == displays[j].origin.1 - displays[i].origin.1
        }),
{
    let a = anchor(displays, target)->0;
    assert(displays[i].origin.0 - a.origin.0 <= i32::MAX);
    assert(displays[j].origin.0 - a.origin.0 <= i32::MAX);
}

proof fn lemma_anchor_moved(displays: Seq<DisplayInfo>, moves: Seq<Move>, target: DisplayKey)
    requires
        moves.len() == displays.len(),
    ensures
        match anchor(displays, target) {
            Some(a) => exists|i: int|
                0 <= i < displays.len() && displays[i] == a && anchor(
                    moved(displays, moves),
                    target,
                ) == Some(#[trigger] moved(displays, moves)[i]),
            None => anchor(moved(displays, moves), target) is None,
        },
    decreases displays.len(),
{
    if displays.len() > 0 {
        let rest = displays.drop_last();
        let fewer = moves.drop_last();
        lemma_anchor_moved(rest, fewer, target);
        let all = moved(displays, moves);
        assert(all.drop_last() =~= moved(rest, fewer));
        if anchor(rest, target) is Some {
            let i = choose|i: int|
                0 <= i < rest.len() && rest[i] == anchor(rest, target)->0 && anchor(
                    moved(rest, fewer),
                    target,
                ) == Some(#[trigger] moved(rest, fewer)[i]);
            assert(displays[i] == rest[i]);
            assert(all[i] == moved(rest, fewer)[i]);
        } else if displays.last().key == target {
            assert(all[displays.len() - 1] == all.last());
        }
    }
}

/// Once the moves are made the target is at (0,0), and there is nothing left to do.
pub proof fn law_the_target_lands_at_the_origin(displays: Seq<DisplayInfo>, target: DisplayKey)
    requires
        can_shift(displays, target),
        moves_for(displays, target) matches Some(m) && m.len() > 0,
    ensures
        ({
            let after = moved(displays, moves_for(displays, target)->0);
            &&& anchor(after, target) matches Some(a) && a.origin == (0i32, 0i32)
            &&& moves_for(after, target) == Some(Seq::<Move>::empty())
        }),
{
    let m = moves_for(displays, target)->0;
    lemma_anchor_moved(displays, m, target);
    let a = anchor(displays, target)->0;
    let i = choose|i: int|
        0 <= i < displays.len() && displays[i] == a && anchor(moved(displays, m), target) == Some(
            #[trigger] moved(displays, m)[i],
        );
    assert(m[i].origin == (0i32, 0i32));
}

proof fn lemma_anchor_is_first(displays: Seq<DisplayInfo>, target: DisplayKey, k: int)
    requires
        0 <= k < displays.len(),
        displays[k].key == target,
        forall|j: int| 0 <= j < k ==> (#[trigger] displays[j]).key != target,
    ensures
        anchor(displays, target) == Some(displays[k]),
    decreases displays.len(),
{
    let rest = displays.drop_last();
    if k < rest.len() {
        lemma_anchor_is_first(rest, target, k);
    } else {
        lemma_no_anchor(rest, target);
    }
}

proof fn lemma_no_anchor(displays: Seq<DisplayInfo>, target: DisplayKey)
    requires
        forall|j: int| 0 <= j < displays.len() ==> (#[trigger] displays[j]).key != target,
    ensures
        anchor(displays, target) is None,
    decreases displays.len(),
{
    if displays.len() > 0 {
        lemma_no_anchor(displays.drop_last(), target);
        assert(displays[displays.len() - 1].key != target);
    }
}

/// The plan is empty exactly where there is nothing to do, which is where the first display
/// with the key stands at (0,0). Everywhere else each display gets one move, by as much as
/// takes that one to (0,0), whatever kind of panel it is.
pub proof fn law_every_panel_moves_unless_the_target_is_home(
    displays: Seq<DisplayInfo>,
    target: DisplayKey,
    k: int,
)
    requires
        0 <= k < displays.len(),
        displays[k].key == target,
        forall|j: int| 0 <= j < k ==> (#[trigger] displays[j]).key != target,
        forall|i: int|
            0 <= i < displays.len() ==> {
                let d = #[trigger] displays[i];
                &&& i32::MIN <= d.origin.0 - displays[k].origin.0 <= i32::MAX
                &&& i32::MIN <= d.origin.1 - displays[k].origin.1 <= i32::MAX
            },
    ensures
        can_shift(displays, target),
        moves_for(displays, target) is Some,
        (moves_for(displays, target)->0.len() == 0) == (displays[k].origin.0 == 0
            && displays[k].origin.1 == 0),
        !(displays[k].origin.0 == 0 && displays[k].origin.1 == 0) ==> {
            let m = moves_for(displays, target)->0;
            &&& m.len() == displays.len()
            &&& forall|i: int|
                0 <= i < m.len() ==> {
                    &&& (#[trigger] m[i]).id == displays[i].id
                    &&& m[i].origin.0 == displays[i].origin.0 - displays[k].origin.0
                    &&& m[i].origin.1 == displays[i].origin.1 - displays[k].origin.1
                }
        },
{
    lemma_anchor_is_first(displays, target, k);
    let a = displays[k];
    assert(a.origin == (0i32, 0i32) <==> (a.origin.0 == 0 && a.origin.1 == 0));
    if !(a.origin.0 == 0 && a.origin.1 == 0) {
        let m = moves_for(displays, target)->0;
        assert forall|i: int| 0 <= i < m.len() implies {
            &&& (#[trigger] m[i]).id == displays[i].id
            &&& m[i].origin.0 == displays[i].origin.0 - a.origin.0
            &&& m[i].origin.1 == displays[i].origin.1 - a.origin.1
        } by {
            let d = displays[i];
            assert(i32::MIN <= d.origin.0 - a.origin.0 <= i32::MAX);
        }
    }
}

/// Nothing is planned for a panel that is not connected, and something for every one that is.
pub proof fn law_only_a_connected_panel_is_planned_for(
    displays: Seq<DisplayInfo>,
    target: DisplayKey,
)
    ensures
        moves_for(displays, target) is Some <==> exists|k: int|
            0 <= k < displays.len() && (#[trigger] displays[k]).key == target,
    decreases displays.len(),
{
    if displays.len() > 0 {
        let rest = displays.drop_last();
        law_only_a_connected_panel_is_planned_for(rest, target);
        if moves_for(rest, target) is Some {
            let k = choose|k: int| 0 <= k < rest.len() && (#[trigger] rest[k]).key == target;
            assert(displays[k].key == target);
        } else if displays.last().key == target {
            assert(displays[displays.len() - 1].key == target);
        } else {
            assert forall|k: int| 0 <= k < displays.len() implies (#[trigger] displays[k]).key
                != target by {
                if k < rest.len() {
                    assert(rest[k].key != target);
                }
            }
        }
    }
}

/// The main panel is the first that says so, and where none does the first at the origin.
pub proof fn law_the_main_panel_says_so(displays: Seq<DisplayInfo>)
    ensures
        match first_main(displays) {
            Some(d) => exists|k: int|
                {
                    &&& 0 <= k < displays.len()
                    &&& #[trigger] displays[k] == d
                    &&& d.main
                    &&& forall|i: int| 0 <= i < k ==> !(#[trigger] displays[i]).main
                },
            None => forall|i: int| 0 <= i < displays.len() ==> !(#[trigger] displays[i]).main,
        },
        match first_at_origin(displays) {
            Some(d) => exists|k: int|
                {
                    &&& 0 <= k < displays.len()
                    &&& #[trigger] displays[k] == d
                    &&& d.origin == (0i32, 0i32)
                    &&& forall|i: int|
                        0 <= i < k ==> (#[trigger] displays[i]).origin != (0i32, 0i32)
                },
            None => forall|i: int|
                0 <= i < displays.len() ==> (#[trigger] displays[i]).origin != (0i32, 0i32),
        },
    decreases displays.len(),
{
    if displays.len() > 0 {
        let before = displays.drop_last();
        let last = displays.len() - 1;
        law_the_main_panel_says_so(before);
        assert forall|i: int| 0 <= i < before.len() implies before[i] == #[trigger] displays[i] by {}
        assert(displays[last] == displays.last());
        match first_main(before) {
            Some(d) => {
                let k = choose|k: int|
                    {
                        &&& 0 <= k < before.len()
                        &&& #[trigger] before[k] == d
                        &&& d.main
                        &&& forall|i: int| 0 <= i < k ==> !(#[trigger] before[i]).main
                    };
                assert(displays[k] == d);
                assert forall|i: int| 0 <= i < k implies !(#[trigger] displays[i]).main by {
                    assert(!before[i].main);
                }
            },
            None => {
                assert forall|i: int| 0 <= i < last implies !(#[trigger] displays[i]).main by {
                    assert(!before[i].main);
                }
            },
        }
        match first_at_origin(before) {
            Some(d) => {
                let k = choose|k: int|
                    {
                        &&& 0 <= k < before.len()
                        &&& #[trigger] before[k] == d
                        &&& d.origin == (0i32, 0i32)
                        &&& forall|i: int|
                            0 <= i < k ==> (#[trigger] before[i]).origin != (0i32, 0i32)
                    };
                assert(displays[k] == d);
                assert forall|i: int| 0 <= i < k implies (#[trigger] displays[i]).origin != (
                    0i32,
                    0i32,
                ) by {
                    assert(before[i].origin != (0i32, 0i32));
                }
            },
            None => {
                assert forall|i: int| 0 <= i < last implies (#[trigger] displays[i]).origin != (
                    0i32,
                    0i32,
                ) by {
                    assert(before[i].origin != (0i32, 0i32));
                }
            },
        }
    }
}

/// A key is one of several panels' exactly where two panels have it.
pub proof fn law_a_key_is_shared_by_two_panels(displays: Seq<DisplayInfo>, key: DisplayKey)
    ensures
        times_keyed(displays, key) > 1 <==> exists|i: int, j: int|
            0 <= i < j < displays.len() && (#[trigger] displays[i]).key == key && (
            #[trigger] displays[j]).key == key,
        times_keyed(displays, key) > 0 <==> exists|i: int|
            0 <= i < displays.len() && (#[trigger] displays[i]).key == key,
    decreases displays.len(),
{
    reveal(Seq::filter);
    let keyed = |d: DisplayInfo| d.key == key;
    if displays.len() > 0 {
        let before = displays.drop_last();
        let last = displays.len() - 1;
        law_a_key_is_shared_by_two_panels(before, key);
        assert(displays =~= before.push(displays.last()));
        before.lemma_filter_push(displays.last(), keyed);
        assert forall|i: int| 0 <= i < before.len() implies before[i] == #[trigger] displays[i] by {}
        assert(displays[last] == displays.last());
        if times_keyed(before, key) > 0 {
            let i = choose|i: int| 0 <= i < before.len() && (#[trigger] before[i]).key == key;
            assert(displays[i].key == key);
        }
        if times_keyed(before, key) > 1 {
            let (i, j) = choose|i: int, j: int|
                0 <= i < j < before.len() && (#[trigger] before[i]).key == key && (
                #[trigger] before[j]).key == key;
            assert(displays[i].key == key && displays[j].key == key);
        }
        if exists|i: int, j: int|
            0 <= i < j < displays.len() && (#[trigger] displays[i]).key == key && (
            #[trigger] displays[j]).key == key {
            let (i, j) = choose|i: int, j: int|
                0 <= i < j < displays.len() && (#[trigger] displays[i]).key == key && (
                #[trigger] displays[j]).key == key;
            assert(before[i].key == key);
            if j < last {
                assert(before[j].key == key);
            }
        }
        if exists|i: int| 0 <= i < displays.len() && (#[trigger] displays[i]).key == key {
            let i = choose|i: int| 0 <= i < displays.len() && (#[trigger] displays[i]).key == key;
            if i < last {
                assert(before[i].key == key);
            }
        }
    }
}

proof fn lemma_place_is_first(v: Seq<(i32, u32)>, id: u32)
    ensures
        match place_of(v, id) {
            Some(r) => 0 <= r < v.len() && v[r].1 == id && forall|i: int|
                0 <= i < r ==> (#[trigger] v[i]).1 != id,
            None => forall|i: int| 0 <= i < v.len() ==> (#[trigger] v[i]).1 != id,
        },
    decreases v.len(),
{
    if v.len() > 0 {
        let before = v.drop_last();
        lemma_place_is_first(before, id);
        assert forall|i: int| 0 <= i < before.len() implies before[i] == #[trigger] v[i] by {}
        let last = v.len() - 1;
        assert(v[last] == v.last());
        if place_of(before, id) is None {
            assert forall|i: int| 0 <= i < last implies (#[trigger] v[i]).1 != id by {
                assert(before[i].1 != id);
            }
        } else {
            let r = place_of(before, id)->0;
            assert forall|i: int| 0 <= i < r implies (#[trigger] v[i]).1 != id by {
                assert(before[i].1 != id);
            }
        }
    }
}

proof fn lemma_ends(v: Seq<(i32, u32)>, k: int)
    requires
        0 <= k < v.len(),
        forall|i: int, j: int|
            0 <= i < j < v.len() ==> (#[trigger] v[i]).1 != (#[trigger] v[j]).1,
    ensures
        (forall|j: int| 0 <= j < v.len() && j != k ==> v[k].0 < (#[trigger] v[j]).0) ==> place_of(
            order::sorted(v),
            v[k].1,
        ) == Some(0int),
        (forall|j: int| 0 <= j < v.len() && j != k ==> v[k].0 > (#[trigger] v[j]).0) ==> place_of(
            order::sorted(v),
            v[k].1,
        ) == Some(v.len() - 1),
{
    broadcast use vstd::seq_lib::group_to_multiset_ensures;

    let s = order::sorted(v);
    let id = v[k].1;
    let own = |p: (i32, u32)| p.1;
    order::lemma_sorted_ordered(v);
    order::lemma_sorted_multiset(v);
    assert(order::apart(v, own)) by {
        assert forall|i: int, j: int| 0 <= i < j < v.len() implies own(#[trigger] v[i]) != own(
            #[trigger] v[j],
        ) by {
            assert(v[i].1 != v[j].1);
        }
    }
    order::lemma_shuffled_apart(v, s, own);
    lemma_place_is_first(s, id);
    assert(s.len() == v.len());
    assert(s.to_multiset().count(v[k]) > 0) by {
        assert(v.contains(v[k]));
        assert(v.to_multiset().count(v[k]) > 0);
    }
    assert(s.contains(v[k]));
    let r = choose|r: int| 0 <= r < s.len() && s[r] == v[k];
    assert forall|i: int| 0 <= i < s.len() && i != r implies (#[trigger] s[i]).1 != id by {
        if i < r {
            assert(own(s[i]) != own(s[r]));
        } else {
            assert(own(s[r]) != own(s[i]));
        }
    }
    assert(place_of(s, id) == Some(r));
    let n = s.len() - 1;
    assert(s.to_multiset().count(s[0]) > 0);
    assert(s.to_multiset().count(s[n]) > 0);
    assert(v.contains(s[0]));
    assert(v.contains(s[n]));
    let a = choose|a: int| 0 <= a < v.len() && v[a] == s[0];
    let b = choose|b: int| 0 <= b < v.len() && v[b] == s[n];
    if r > 0 {
        assert(Ranked::le(&s[0], &s[r]));
        assert(v[a].1 != id);
        assert(a != k);
    }
    if r < n {
        assert(Ranked::le(&s[r], &s[n]));
        assert(v[b].1 != id);
        assert(b != k);
    }
}

/// Of panels that do not all stand in one column, the one left of all others is called that and
/// the one right of all others that; of panels in one column it goes by top and bottom.
pub proof fn law_the_outermost_panels_are_called_so(displays: Seq<DisplayInfo>, k: int)
    requires
        displays.len() >= 2,
        0 <= k < displays.len(),
        forall|i: int, j: int|
            0 <= i < j < displays.len() ==> (#[trigger] displays[i]).id != (
            #[trigger] displays[j]).id,
    ensures
        ({
            let label = label_of(displays, displays[k].id);
            let two = displays.len() == 2;
            let column = forall|j: int|
                0 <= j < displays.len() ==> (#[trigger] displays[j]).origin.0
                    == displays[0].origin.0;
            &&& (forall|j: int|
                0 <= j < displays.len() && j != k ==> displays[k].origin.0 < (
                #[trigger] displays[j]).origin.0) ==> label == (if two {
                "left"@
            } else {
                "left"@ + "most"@
            })
            &&& (forall|j: int|
                0 <= j < displays.len() && j != k ==> displays[k].origin.0 > (
                #[trigger] displays[j]).origin.0) ==> label == (if two {
                "right"@
            } else {
                "right"@ + "most"@
            })
            &&& column && (forall|j: int|
                0 <= j < displays.len() && j != k ==> displays[k].origin.1 < (
                #[trigger] displays[j]).origin.1) ==> label == (if two {
                "top"@
            } else {
                "top"@ + "most"@
            })
            &&& column && (forall|j: int|
                0 <= j < displays.len() && j != k ==> displays[k].origin.1 > (
                #[trigger] displays[j]).origin.1) ==> label == (if two {
                "bottom"@
            } else {
                "bottom"@ + "most"@
            })
        }),
{
    let v = coordinates(displays);
    assert forall|i: int, j: int| 0 <= i < j < v.len() implies (#[trigger] v[i]).1 != (
    #[trigger] v[j]).1 by {
        assert(displays[i].id != displays[j].id);
    }
    lemma_ends(v, k);
    let other = if k == 0 {
        1int
    } else {
        0int
    };
    assert(displays[other].origin.0 == displays[other].origin.0);
    assert(is_horizontal(displays) ==> forall|j: int|
        0 <= j < v.len() ==> (#[trigger] v[j]).0 == displays[j].origin.0);
    assert(!is_horizontal(displays) ==> forall|j: int|
        0 <= j < v.len() ==> (#[trigger] v[j]).0 == displays[j].origin.1);
    if !is_horizontal(displays) {
        assert(displays[k].origin.0 == displays[0].origin.0);
        assert(displays[other].origin.0 == displays[0].origin.0);
    }
}

} // verus!
