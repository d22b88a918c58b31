//! Property lists, read as the JSON that `plutil` turns them into, which handles binary
//! and XML alike.
use vstd::prelude::*;
use crate::json;
use crate::json::{all_json, json_in_bytes, json_of, list_at, text_at, Json};
use crate::text;
use crate::text::texts;

verus! {

/// The value in what `plutil` printed, where it succeeded.
pub open spec fn read_as(printed: Option<Vec<u8>>) -> Option<Json> {
    match printed {
        Some(bytes) => json_in_bytes(bytes@),
        None => None,
    }
}

/// The value of a property list, from what `plutil` printed where it succeeded.
pub fn read(printed: &Option<Vec<u8>>) -> (r: Option<serde_json::Value>)
    ensures
        match r {
            Some(v) => read_as(*printed) == Some(json_of(v)),
            None => read_as(*printed) is None,
        },
{
    match printed {
        None => None,
        Some(bytes) => match json::parse_bytes(bytes) {
            Ok(v) => Some(v),
            Err(_) => None,
        },
    }
}

/// The text under a key, white space around it aside, where there is any.
pub open spec fn string_in(v: Json, key: Seq<char>) -> Option<Seq<char>> {
    match text_at(v, key) {
        Some(t) => if text::trimmed(t).len() > 0 {
            Some(text::trimmed(t))
        } else {
            None
        },
        None => None,
    }
}

/// The text under a key at the top level of a property list.
pub fn string_of(value: &serde_json::Value, key: &str) -> (r: Option<String>)
    ensures
        text::text_opt(r) == string_in(json_of(*value), key@),
{
    match json::get_text(value, key) {
        Some(t) => {
            let bare = text::trim(t);
            if bare.as_str().is_empty() {
                None
            } else {
                Some(bare)
            }
        },
        None => None,
    }
}

/// The text under a key at the top level of a property list, from what `plutil` printed
/// where it succeeded.
pub fn string_at(printed: &Option<Vec<u8>>, key: &str) -> (r: Option<String>)
    ensures
        text::text_opt(r) == (match read_as(*printed) {
            Some(v) => string_in(v, key@),
            None => None,
        }),
{
    match read(printed) {
        Some(v) => string_of(&v, key),
        None => None,
    }
}

/// The texts of a list, whatever else it holds.
pub open spec fn texts_in(items: Seq<Json>) -> Seq<Seq<char>>
    decreases items.len(),
{
    if items.len() == 0 {
        Seq::empty()
    } else {
        let before = texts_in(items.drop_last());
        match json::text_in(items.last()) {
            Some(t) => before.push(t),
            None => before,
        }
    }
}

/// What a launchd job would run.
pub open spec fn programs_in(v: Json) -> Seq<Seq<char>> {
    (match text_at(v, "Program"@) {
        Some(p) => seq![p],
        None => Seq::empty(),
    }) + (match list_at(v, "ProgramArguments"@) {
        Some(items) => texts_in(items),
        None => Seq::empty(),
    })
}

/// Every executable path a launchd job would run: `Program` plus `ProgramArguments`.
pub fn program_paths(value: &serde_json::Value) -> (r: Vec<String>)
    ensures
        texts(r@) == programs_in(json_of(*value)),
{
    broadcast use text::lemma_texts_push;

    let mut paths: Vec<String> = Vec::new();
    assert(texts(paths@) =~= Seq::<Seq<char>>::empty());
    if let Some(p) = json::get_text(value, "Program") {
        paths.push(p.to_owned());
        assert(texts(paths@) =~= seq![p@]);
    }
    let ghost first = texts(paths@);
    if let Some(items) = json::get_list(value, "ProgramArguments") {
        let ghost all = all_json(items@);
        assert(first + texts_in(all.take(0)) =~= first);
        for i in 0..items.len()
            invariant
                all == all_json(items@),
                texts(paths@) == first + texts_in(all.take(i as int)),
        {
            broadcast use text::lemma_texts_push;

            assert(all.take(i + 1).drop_last() =~= all.take(i as int));
            assert(all[i as int] == json_of(items@[i as int]));
            if let Some(t) = json::as_str(&items[i]) {
                let ghost before = texts(paths@);
                paths.push(t.to_owned());
                assert(before.push(t@) =~= first + texts_in(all.take(i as int)).push(t@));
            }
        }
        assert(all.take(all.len() as int) =~= all);
    } else {
        assert(first + Seq::<Seq<char>>::empty() =~= first);
    }
    paths
}

proof fn lemma_texts_in(items: Seq<Json>, p: Seq<char>)
    ensures
        texts_in(items).contains(p) <==> exists|i: int|
            0 <= i < items.len() && json::text_in(#[trigger] items[i]) == Some(p),
    decreases items.len(),
{
    let all = texts_in(items);
    if items.len() > 0 {
        let front = items.drop_last();
        let before = texts_in(front);
        let last = items.len() - 1;
        lemma_texts_in(front, p);
        assert forall|i: int| 0 <= i < front.len() implies front[i] == #[trigger] items[i] by {}
        assert(items[last] == items.last());
        if all.contains(p) {
            let j = choose|j: int| 0 <= j < all.len() && all[j] == p;
            if j < before.len() {
                assert(before[j] == p);
                let i = choose|i: int|
                    0 <= i < front.len() && json::text_in(#[trigger] front[i]) == Some(p);
                assert(json::text_in(items[i]) == Some(p));
            }
        }
        if exists|i: int| 0 <= i < items.len() && json::text_in(#[trigger] items[i]) == Some(p) {
            let i = choose|i: int|
                0 <= i < items.len() && json::text_in(#[trigger] items[i]) == Some(p);
            if i < last {
                assert(json::text_in(front[i]) == Some(p));
                let j = choose|j: int| 0 <= j < before.len() && before[j] == p;
                assert(all[j] == p);
            } else {
                assert(all[before.len() as int] == p);
            }
        }
    }
}

/// A job runs what its program is and what its arguments name, each of them and nothing else.
pub proof fn law_a_job_runs_its_program_and_arguments(v: Json, p: Seq<char>)
    ensures
        programs_in(v).contains(p) <==> text_at(v, "Program"@) == Some(p) || (list_at(
            v,
            "ProgramArguments"@,
        ) is Some && exists|i: int|
            0 <= i < list_at(v, "ProgramArguments"@)->0.len() && json::text_in(
                #[trigger] list_at(v, "ProgramArguments"@)->0[i],
            ) == Some(p)),
{
    let first = match text_at(v, "Program"@) {
        Some(q) => seq![q],
        None => Seq::<Seq<char>>::empty(),
    };
    let rest = match list_at(v, "ProgramArguments"@) {
        Some(items) => texts_in(items),
        None => Seq::<Seq<char>>::empty(),
    };
    let all = programs_in(v);
    assert(all =~= first + rest);
    if let Some(items) = list_at(v, "ProgramArguments"@) {
        lemma_texts_in(items, p);
    }
    if all.contains(p) {
        let j = choose|j: int| 0 <= j < all.len() && all[j] == p;
        if j < first.len() {
            assert(first[j] == p);
        } else {
            assert(rest[j - first.len()] == p);
        }
    }
    if first.contains(p) {
        let j = choose|j: int| 0 <= j < first.len() && first[j] == p;
        assert(all[j] == p);
    }
    if text_at(v, "Program"@) == Some(p) {
        assert(all[0] == p);
    }
    if rest.contains(p) {
        let j = choose|j: int| 0 <= j < rest.len() && rest[j] == p;
        assert(all[first.len() + j] == p);
    }
}

} // verus!
