//! Friendly panel names.
use vstd::prelude::*;
use std::collections::HashMap;
use crate::json;
use crate::json::{all_json, json_in, json_of, list_at, text_at, Json};
use crate::text;

verus! {

/// The number that a text under a key writes.
pub open spec fn id_at(panel: Json) -> Option<u32> {
    match text_at(panel, "_spdisplays_displayID"@) {
        Some(t) => match text::unsigned_value(text::trimmed(t), u32::MAX as int) {
            Some(n) => Some(n as u32),
            None => None,
        },
        None => None,
    }
}

/// The names with those of a run of panels added. The last panel of a number names
/// it, and a panel without a number or a name is passed over.
pub open spec fn named_panels(
    names: Map<u32, Seq<char>>,
    panels: Seq<Json>,
) -> Map<u32, Seq<char>>
    decreases panels.len(),
{
    if panels.len() == 0 {
        names
    } else {
        let before = named_panels(names, panels.drop_last());
        match (id_at(panels.last()), text_at(panels.last(), "_name"@)) {
            (Some(id), Some(name)) => before.insert(id, name),
            _ => before,
        }
    }
}

/// The names of the panels of a run of graphics cards.
pub open spec fn named_cards(cards: Seq<Json>) -> Map<u32, Seq<char>>
    decreases cards.len(),
{
    if cards.len() == 0 {
        Map::empty()
    } else {
        let before = named_cards(cards.drop_last());
        match list_at(cards.last(), "spdisplays_ndrvs"@) {
            Some(panels) => named_panels(before, panels),
            None => before,
        }
    }
}

/// The names of the panels in a report.
pub open spec fn names_in(report: Json) -> Map<u32, Seq<char>> {
    match list_at(report, "SPDisplaysDataType"@) {
        Some(cards) => named_cards(cards),
        None => Map::empty(),
    }
}

/// The characters of the names.
pub open spec fn name_texts(m: Map<u32, String>) -> Map<u32, Seq<char>> {
    m.map_values(|s: String| s@)
}

fn read_id(panel: &serde_json::Value) -> (r: Option<u32>)
    ensures
        r == id_at(json_of(*panel)),
{
    match json::get_text(panel, "_spdisplays_displayID") {
        Some(t) => {
            let bare = text::trim(t);
            text::parse_u32(&bare)
        },
        None => None,
    }
}

/// The names of the panels in a report, by the number of the display.
pub fn names_of(report: &serde_json::Value) -> (r: HashMap<u32, String>)
    ensures
        name_texts(r@) == names_in(json_of(*report)),
{
    broadcast use vstd::std_specs::hash::group_hash_axioms;

    let mut out: HashMap<u32, String> = HashMap::new();
    assert(name_texts(out@) =~= Map::<u32, Seq<char>>::empty());
    let cards = match json::get_list(report, "SPDisplaysDataType") {
        Some(cards) => cards,
        None => {
            return out;
        },
    };
    let ghost all = all_json(cards@);
    for i in 0..cards.len()
        invariant
            all == all_json(cards@),
            name_texts(out@) == named_cards(all.take(i as int)),
    {
        broadcast use vstd::std_specs::hash::group_hash_axioms;

        assert(all.take(i + 1).drop_last() =~= all.take(i as int));
        assert(all[i as int] == json_of(cards@[i as int]));
        if let Some(panels) = json::get_list(&cards[i], "spdisplays_ndrvs") {
            let ghost before = name_texts(out@);
            let ghost listed = all_json(panels@);
            assert(named_panels(before, listed.take(0)) == before);
            for k in 0..panels.len()
                invariant
                    listed == all_json(panels@),
                    name_texts(out@) == named_panels(before, listed.take(k as int)),
            {
                broadcast use vstd::std_specs::hash::group_hash_axioms;

                assert(listed.take(k + 1).drop_last() =~= listed.take(k as int));
                let panel = &panels[k];
                assert(listed[k as int] == json_of(*panel));
                let id = read_id(panel);
                let name = json::get_text(panel, "_name");
                let ghost older = name_texts(out@);
                if let (Some(id), Some(name)) = (id, name) {
                    let owned: String = name.to_owned();
                    out.insert(id, owned);
                    assert(name_texts(out@) =~= older.insert(id, name@));
                }
            }
            assert(listed.take(listed.len() as int) =~= listed);
        }
    }
    assert(all.take(all.len() as int) =~= all);
    out
}

/// The names of the panels in the report of `system_profiler`, by the number of the
/// display. A text that is no JSON names none.
pub fn parse(raw: &str) -> (r: HashMap<u32, String>)
    ensures
        name_texts(r@) == (match json_in(raw@) {
            Some(report) => names_in(report),
            None => Map::empty(),
        }),
{
    broadcast use vstd::std_specs::hash::group_hash_axioms;

    match json::parse_text(raw) {
        Ok(report) => names_of(&report),
        Err(_) => {
            let out: HashMap<u32, String> = HashMap::new();
            assert(name_texts(out@) =~= Map::<u32, Seq<char>>::empty());
            out
        },
    }
}

/// The names of the panels, from what `system_profiler` printed where it succeeded. It
/// is best-effort: without them only the names are missing.
pub fn lookup(printed: &Option<String>) -> (r: HashMap<u32, String>)
    ensures
        name_texts(r@) == (match text::text_opt(*printed) {
            Some(raw) => match json_in(raw) {
                Some(report) => names_in(report),
                None => Map::empty(),
            },
            None => Map::empty(),
        }),
{
    broadcast use vstd::std_specs::hash::group_hash_axioms;

    match printed {
        Some(raw) => parse(raw),
        None => {
            let out: HashMap<u32, String> = HashMap::new();
            assert(name_texts(out@) =~= Map::<u32, Seq<char>>::empty());
            out
        },
    }
}

/// A panel of the report gives its own name to its own number.
pub open spec fn says_name(panel: Json, id: u32, name: Seq<char>) -> bool {
    &&& text_at(panel, "_name"@) == Some(name)
    &&& text_at(panel, "_spdisplays_displayID"@) matches Some(t)
    &&& text::unsigned_value(text::trimmed(t), u32::MAX as int) matches Some(n)
    &&& n as u32 == id
}

proof fn lemma_panels_name(
    names: Map<u32, Seq<char>>,
    panels: Seq<Json>,
    id: u32,
)
    ensures
        ({
            let all = named_panels(names, panels);
            &&& all.dom().contains(id) ==> (names.dom().contains(id) && all[id] == names[id])
                || exists|k: int| 0 <= k < panels.len() && says_name(#[trigger] panels[k], id, all[id])
            &&& names.dom().contains(id) ==> all.dom().contains(id)
            &&& forall|k: int, name: Seq<char>|
                0 <= k < panels.len() && #[trigger] says_name(panels[k], id, name)
                    ==> all.dom().contains(id)
        }),
    decreases panels.len(),
{
    let all = named_panels(names, panels);
    if panels.len() > 0 {
        let front = panels.drop_last();
        let last = panels.len() - 1;
        let before = named_panels(names, front);
        lemma_panels_name(names, front, id);
        assert forall|k: int| 0 <= k < front.len() implies front[k] == #[trigger] panels[k] by {}
        assert(panels[last] == panels.last());
        assert forall|k: int, name: Seq<char>|
            0 <= k < panels.len() && #[trigger] says_name(panels[k], id, name) implies
            all.dom().contains(id) by {
            if k < last {
                assert(says_name(front[k], id, name));
            }
        }
        if all.dom().contains(id) {
            let own = (id_at(panels.last()), text_at(panels.last(), "_name"@));
            if own.0 == Some(id) && own.1 is Some {
                assert(says_name(panels[last], id, all[id]));
            } else {
                assert(before.dom().contains(id) && all[id] == before[id]);
                if !(names.dom().contains(id) && all[id] == names[id]) {
                    let k = choose|k: int|
                        0 <= k < front.len() && says_name(#[trigger] front[k], id, before[id]);
                    assert(says_name(panels[k], id, all[id]));
                }
            }
        }
    }
}

/// Every panel that any card lists with a number and a name has one, and a name that a number
/// has is one that a panel of that number was listed with.
pub proof fn law_every_listed_panel_has_a_name(cards: Seq<Json>, id: u32)
    ensures
        named_cards(cards).dom().contains(id) <==> exists|c: int, k: int, name: Seq<char>|
            #[trigger] lists_name(cards, c, k, id, name),
        named_cards(cards).dom().contains(id) ==> exists|c: int, k: int| #[trigger]
            lists_name(cards, c, k, id, named_cards(cards)[id]),
    decreases cards.len(),
{
    let all = named_cards(cards);
    if cards.len() > 0 {
        let front = cards.drop_last();
        let last = cards.len() - 1;
        let before = named_cards(front);
        law_every_listed_panel_has_a_name(front, id);
        assert forall|c: int| 0 <= c < front.len() implies front[c] == #[trigger] cards[c] by {}
        assert(cards[last] == cards.last());
        let listed = list_at(cards.last(), "spdisplays_ndrvs"@);
        if let Some(panels) = listed {
            lemma_panels_name(before, panels, id);
        }
        if all.dom().contains(id) {
            if before.dom().contains(id) && all[id] == before[id] {
                let (c, k) = choose|c: int, k: int| #[trigger]
                    lists_name(front, c, k, id, before[id]);
                assert(lists_name(cards, c, k, id, all[id]));
            } else {
                let panels = listed->0;
                let k = choose|k: int|
                    0 <= k < panels.len() && says_name(#[trigger] panels[k], id, all[id]);
                assert(lists_name(cards, last, k, id, all[id]));
            }
        }
        if exists|c: int, k: int, name: Seq<char>| #[trigger] lists_name(cards, c, k, id, name) {
            let (c, k, name) = choose|c: int, k: int, name: Seq<char>| #[trigger]
                lists_name(cards, c, k, id, name);
            if c < last {
                assert(lists_name(front, c, k, id, name));
            } else {
                assert(says_name(listed->0[k], id, name));
            }
        }
    }
}

/// One card of a report lists a panel under a number and a name.
pub open spec fn lists_name(cards: Seq<Json>, c: int, k: int, id: u32, name: Seq<char>) -> bool {
    &&& 0 <= c < cards.len()
    &&& list_at(cards[c], "spdisplays_ndrvs"@) matches Some(panels)
    &&& 0 <= k < panels.len()
    &&& says_name(panels[k], id, name)
}

} // verus!
