//! How plans are shown.
use vstd::prelude::*;
use crate::resource::Change;
use crate::text;
use crate::text::texts;

verus! {

/// A colour that something is shown in.
#[derive(Debug, Clone, Copy, PartialEq, Eq, Structural)]
pub enum Colour {
    Green,
    Yellow,
    Red,
    Dim,
}

/// How much is logged.
pub open spec fn level(verbose: u8, quiet: bool) -> Seq<char> {
    if verbose == 0 {
        if quiet {
            "error"@
        } else {
            "warn"@
        }
    } else if verbose == 1 {
        "info"@
    } else if verbose == 2 {
        "debug"@
    } else {
        "trace"@
    }
}

/// How much is logged, by how often more was asked for. Asking for more outweighs asking
/// for quiet.
pub fn log_filter(verbose: u8, quiet: bool) -> (r: String)
    ensures
        r@ == level(verbose, quiet),
{
    if verbose == 0 {
        if quiet {
            "error".to_owned()
        } else {
            "warn".to_owned()
        }
    } else if verbose == 1 {
        "info".to_owned()
    } else if verbose == 2 {
        "debug".to_owned()
    } else {
        "trace".to_owned()
    }
}

/// The mark before a change, and its colour.
pub open spec fn mark_of(change: Change) -> (Seq<char>, Colour) {
    match change {
        Change::Create => ("+"@, Colour::Green),
        Change::Update(_) => ("~"@, Colour::Yellow),
        Change::Remove => ("-"@, Colour::Red),
        Change::NoOp => ("="@, Colour::Dim),
    }
}

/// The mark before a change, and its colour.
pub fn change_mark(change: &Change) -> (r: (String, Colour))
    ensures
        (r.0@, r.1) == mark_of(*change),
{
    match change {
        Change::Create => ("+".to_owned(), Colour::Green),
        Change::Update(_) => ("~".to_owned(), Colour::Yellow),
        Change::Remove => ("-".to_owned(), Colour::Red),
        Change::NoOp => ("=".to_owned(), Colour::Dim),
    }
}

/// How many changes of each sort there are.
#[derive(Debug, Clone, Copy, PartialEq, Eq, Structural)]
pub struct Tally {
    pub creates: usize,
    pub updates: usize,
    pub removes: usize,
}

/// How many changes satisfy a condition.
pub open spec fn how_many(changes: Seq<Change>, p: spec_fn(Change) -> bool) -> int {
    changes.filter(p).len() as int
}

/// Counts the changes of each sort.
pub fn tally(changes: &Vec<Change>) -> (r: Tally)
    ensures
        r.creates == how_many(changes@, |c: Change| c is Create),
        r.updates == how_many(changes@, |c: Change| c is Update),
        r.removes == how_many(changes@, |c: Change| c is Remove),
{
    let ghost create = |c: Change| c is Create;
    let ghost update = |c: Change| c is Update;
    let ghost remove = |c: Change| c is Remove;
    let mut t = Tally { creates: 0, updates: 0, removes: 0 };
    proof {
        reveal(Seq::filter);
    }
    for i in 0..changes.len()
        invariant
            create == (|c: Change| c is Create),
            update == (|c: Change| c is Update),
            remove == (|c: Change| c is Remove),
            t.creates == how_many(changes@.take(i as int), create),
            t.updates == how_many(changes@.take(i as int), update),
            t.removes == how_many(changes@.take(i as int), remove),
            t.creates <= i,
            t.updates <= i,
            t.removes <= i,
    {
        proof {
            let upto = changes@.take(i as int);
            let c = changes@[i as int];
            assert(changes@.take(i + 1) =~= upto.push(c));
            upto.lemma_filter_push(c, create);
            upto.lemma_filter_push(c, update);
            upto.lemma_filter_push(c, remove);
        }
        match &changes[i] {
            Change::Create => {
                t.creates = t.creates + 1;
            },
            Change::Update(_) => {
                t.updates = t.updates + 1;
            },
            Change::Remove => {
                t.removes = t.removes + 1;
            },
            Change::NoOp => {},
        }
    }
    assert(changes@.take(changes@.len() as int) =~= changes@);
    t
}

/// The last line of a plan.
pub fn tally_line(t: Tally) -> (r: String)
    ensures
        r@ == text::decimal(t.creates as nat) + " to create, "@ + text::decimal(t.updates as nat)
            + " to update, "@ + text::decimal(t.removes as nat) + " to remove"@,
{
    let mut out = text::dec(t.creates as u64);
    out.append(" to create, ");
    let updates = text::dec(t.updates as u64);
    out.append(updates.as_str());
    out.append(" to update, ");
    let removes = text::dec(t.removes as u64);
    out.append(removes.as_str());
    out.append(" to remove");
    out
}

/// The scopes of a profile, as they are listed behind its name.
pub fn scope_list(scopes: &Vec<String>) -> (r: String)
    ensures
        r@ == "["@ + text::joined(texts(scopes@), ", "@) + "]"@,
{
    let mut out: String = "[".to_owned();
    let list = text::join(scopes, ", ");
    out.append(list.as_str());
    out.append("]");
    out
}

} // verus!
