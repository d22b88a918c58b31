//! An installed application and the identity macOS files things under.
use vstd::prelude::*;
use crate::apps::plist;
use crate::order;
use crate::order::Ranked;
use crate::paths;
use crate::text;
use crate::text::{text_opt, texts};

verus! {

/// An application bundle on disk, plus whatever identity it declares.
#[derive(Debug)]
pub struct AppBundle {
    pub path: String,
    /// Bundle filename without its extension, e.g. `Cloudflare WARP`.
    pub name: String,
    /// The bundle id, absent for bundles with a broken property list.
    pub bundle_id: Option<String>,
}

/// The name of a path without its extension, or nothing where it has none.
pub open spec fn stem_of(path: Seq<char>) -> Seq<char> {
    match paths::name_of(path) {
        Some(name) => paths::stem_and_extension(name).0,
        None => Seq::empty(),
    }
}

/// The extension of a path.
pub open spec fn extension_of(path: Seq<char>) -> Option<Seq<char>> {
    match paths::name_of(path) {
        Some(name) => paths::stem_and_extension(name).1,
        None => None,
    }
}

pub(crate) fn stem(path: &str) -> (r: String)
    ensures
        r@ == stem_of(path@),
{
    match paths::file_name(path) {
        Some(name) => paths::file_stem(&name),
        None => {
            let none: String = "".to_owned();
            proof {
                reveal_strlit("");
                assert(none@ =~= Seq::<char>::empty());
            }
            none
        },
    }
}

/// Whether a path ends in an extension.
pub(crate) fn has_extension(path: &str, wanted: &str) -> (r: bool)
    ensures
        r == (extension_of(path@) == Some(wanted@)),
{
    match paths::file_name(path) {
        Some(name) => match paths::extension(&name) {
            Some(e) => text::same(&e, wanted),
            None => false,
        },
        None => false,
    }
}

/// The namespace of a bundle id: its first two components, where it has more.
pub open spec fn prefix_of(id: Option<Seq<char>>) -> Option<Seq<char>> {
    match id {
        Some(id) => {
            let parts = text::pieces(id, '.');
            if parts.len() >= 3 {
                Some(parts[0] + "."@ + parts[1])
            } else {
                None
            }
        },
        None => None,
    }
}

/// The vendor in a bundle id: its second component, where it has more than two and that
/// one says enough.
pub open spec fn vendor_of(id: Option<Seq<char>>) -> Option<Seq<char>> {
    match id {
        Some(id) => {
            let parts = text::pieces(id, '.');
            if parts.len() >= 3 && text::byte_count(parts[1]) > 2 {
                Some(parts[1])
            } else {
                None
            }
        },
        None => None,
    }
}

impl AppBundle {
    /// The bundle at a path, given what `plutil` printed of its property list where it
    /// succeeded.
    pub fn read(path: &str, info: &Option<Vec<u8>>) -> (r: Self)
        ensures
            r.path@ == path@,
            r.name@ == stem_of(path@),
            text_opt(r.bundle_id) == (match plist::read_as(*info) {
                Some(v) => plist::string_in(v, "CFBundleIdentifier"@),
                None => None,
            }),
    {
        AppBundle {
            path: path.to_owned(),
            name: stem(path),
            bundle_id: plist::string_at(info, "CFBundleIdentifier"),
        }
    }

    /// First two components of the bundle id: `com.docker.docker` gives `com.docker`,
    /// the namespace its helper daemons also sit in.
    pub fn vendor_prefix(&self) -> (r: Option<String>)
        ensures
            text_opt(r) == prefix_of(text_opt(self.bundle_id)),
    {
        match &self.bundle_id {
            None => None,
            Some(id) => {
                let parts = text::split_on(id, '.');
                let ghost all = text::pieces(id@, '.');
                assert(parts@.len() == all.len());
                if parts.len() < 3 {
                    return None;
                }
                assert(parts@[0]@ == all[0] && parts@[1]@ == all[1]);
                let mut out: String = parts[0].clone();
                out.append(".");
                out.append(parts[1].as_str());
                Some(out)
            },
        }
    }

    /// Vendor token from the bundle id: `com.cloudflare.warp` gives `cloudflare`.
    /// Shared by every app from one vendor, so only ever a weak signal.
    pub fn vendor(&self) -> (r: Option<String>)
        ensures
            text_opt(r) == vendor_of(text_opt(self.bundle_id)),
    {
        match &self.bundle_id {
            None => None,
            Some(id) => {
                let parts = text::split_on(id, '.');
                let ghost all = text::pieces(id@, '.');
                assert(parts@.len() == all.len());
                if parts.len() < 3 {
                    return None;
                }
                assert(parts@[1]@ == all[1]);
                if text::byte_len(&parts[1]) > 2 {
                    Some(parts[1].clone())
                } else {
                    None
                }
            },
        }
    }
}

/// Where user-installable apps live. `/System/Applications` is deliberately absent:
/// those are Apple's and must never be touched.
pub fn search_dirs(home: &Option<String>) -> (r: Vec<String>)
    ensures
        texts(r@) == seq!["/Applications"@, "/Applications/Utilities"@] + (match text_opt(*home) {
            Some(h) => seq![paths::below(h, "Applications"@)],
            None => Seq::empty(),
        }),
{
    let mut dirs: Vec<String> = vec![
        "/Applications".to_owned(),
        "/Applications/Utilities".to_owned(),
    ];
    if let Some(h) = home {
        dirs.push(paths::join(h, "Applications"));
    }
    assert(texts(dirs@) =~= seq!["/Applications"@, "/Applications/Utilities"@] + (match text_opt(
        *home,
    ) {
        Some(h) => seq![paths::below(h, "Applications"@)],
        None => Seq::empty(),
    }));
    dirs
}

/// A query without the extensions at its end.
pub open spec fn bare_query(s: Seq<char>) -> Seq<char>
    decreases s.len(),
    when ".app"@.len() == 4
{
    if ".app"@.is_suffix_of(s) && s.len() >= 4 {
        bare_query(s.take(s.len() - 4))
    } else {
        s
    }
}

/// What a query looks for.
pub open spec fn needle_of(query: Seq<char>) -> Seq<char> {
    text::lowercase(bare_query(text::trimmed(query)))
}

fn without_app(s: &str) -> (r: String)
    ensures
        r@ == bare_query(s@),
    decreases s@.len(),
{
    proof {
        reveal_strlit(".app");
    }
    match text::strip_suffix(s, ".app") {
        Some(rest) => {
            assert(rest@ =~= s@.take(s@.len() - 4));
            without_app(&rest)
        },
        None => s.to_owned(),
    }
}

/// A path to a bundle.
pub struct Hit {
    pub path: String,
}

impl Ranked for Hit {
    open spec fn le(&self, other: &Self) -> bool {
        paths::path_le(self.path@, other.path@)
    }

    proof fn le_total(a: &Self, b: &Self) {
        paths::lemma_components_le_total(
            paths::components(a.path@),
            paths::components(b.path@),
        );
    }

    proof fn le_transitive(a: &Self, b: &Self, c: &Self) {
        paths::lemma_components_le_transitive(
            paths::components(a.path@),
            paths::components(b.path@),
            paths::components(c.path@),
        );
    }

    fn leq(&self, other: &Self) -> (r: bool) {
        paths::path_leq(&self.path, &other.path)
    }
}

/// How an entry answers to a needle.
pub ghost enum Answer {
    Exact,
    Partial,
    No,
}

/// How the entry at a path answers to a needle: only a bundle does, by its name in lower
/// case.
pub open spec fn answer(path: Seq<char>, needle: Seq<char>) -> Answer {
    if extension_of(path) != Some("app"@) {
        Answer::No
    } else if text::lowercase(stem_of(path)) == needle {
        Answer::Exact
    } else if text::occurs(text::lowercase(stem_of(path)), needle) {
        Answer::Partial
    } else {
        Answer::No
    }
}

/// The entries that answer in one way, in the order they came in.
pub open spec fn answering(entries: Seq<Seq<char>>, needle: Seq<char>, how: Answer) -> Seq<
    Seq<char>,
> {
    entries.filter(|p: Seq<char>| answer(p, needle) == how)
}

/// The entries of the directories that could be listed.
pub open spec fn listed(dirs: Seq<Option<Vec<String>>>) -> Seq<Seq<char>>
    decreases dirs.len(),
{
    if dirs.len() == 0 {
        Seq::empty()
    } else {
        listed(dirs.drop_last()) + (match dirs.last() {
            Some(entries) => texts(entries@),
            None => Seq::empty(),
        })
    }
}

/// The order of paths.
pub open spec fn by_path() -> spec_fn(Seq<char>, Seq<char>) -> bool {
    |a: Seq<char>, b: Seq<char>| paths::path_le(a, b)
}

/// The bundles that a query finds among entries.
pub open spec fn found(entries: Seq<Seq<char>>, query: Seq<char>) -> Seq<Seq<char>> {
    let exact = answering(entries, needle_of(query), Answer::Exact);
    if exact.len() > 0 {
        order::arranged(exact, by_path())
    } else {
        order::arranged(answering(entries, needle_of(query), Answer::Partial), by_path())
    }
}

/// The path of a hit.
pub open spec fn hit_path() -> spec_fn(Hit) -> Seq<char> {
    |h: Hit| h.path@
}

fn sort_hits(hits: Vec<Hit>) -> (r: Vec<String>)
    ensures
        texts(r@) == order::arranged(hits@.map_values(hit_path()), by_path()),
{
    let ghost all = hits@;
    proof {
        order::lemma_arranged(all, hit_path(), by_path());
    }
    let sorted = order::sort(hits);
    let ghost want = sorted@.map_values(hit_path());
    let mut out: Vec<String> = Vec::new();
    assert(texts(out@) =~= want.take(0));
    for i in 0..sorted.len()
        invariant
            want == sorted@.map_values(hit_path()),
            texts(out@) == want.take(i as int),
    {
        broadcast use text::lemma_texts_push;

        out.push(sorted[i].path.clone());
        assert(want.take(i + 1) =~= want.take(i as int).push(sorted@[i as int].path@));
    }
    assert(want.take(want.len() as int) =~= want);
    out
}

fn sift(entries: &Vec<String>, needle: &str, exact: &mut Vec<Hit>, partial: &mut Vec<Hit>)
    ensures
        final(exact)@.map_values(hit_path()) == old(exact)@.map_values(hit_path()) + answering(
            texts(entries@),
            needle@,
            Answer::Exact,
        ),
        final(partial)@.map_values(hit_path()) == old(partial)@.map_values(hit_path())
            + answering(texts(entries@), needle@, Answer::Partial),
{
    let ghost all = texts(entries@);
    let ghost is_exact = |p: Seq<char>| answer(p, needle@) == Answer::Exact;
    let ghost is_partial = |p: Seq<char>| answer(p, needle@) == Answer::Partial;
    let ghost e0 = exact@.map_values(hit_path());
    let ghost p0 = partial@.map_values(hit_path());
    proof {
        reveal(Seq::filter);
        assert(e0 + all.take(0).filter(is_exact) =~= e0);
        assert(p0 + all.take(0).filter(is_partial) =~= p0);
    }
    for i in 0..entries.len()
        invariant
            all == texts(entries@),
            is_exact == (|p: Seq<char>| answer(p, needle@) == Answer::Exact),
            is_partial == (|p: Seq<char>| answer(p, needle@) == Answer::Partial),
            exact@.map_values(hit_path()) == e0 + all.take(i as int).filter(is_exact),
            partial@.map_values(hit_path()) == p0 + all.take(i as int).filter(is_partial),
    {
        let path = &entries[i];
        let ghost upto = all.take(i as int);
        let ghost e1 = exact@.map_values(hit_path());
        let ghost p1 = partial@.map_values(hit_path());
        proof {
            assert(all[i as int] == path@);
            assert(all.take(i + 1) =~= upto.push(path@));
            upto.lemma_filter_push(path@, is_exact);
            upto.lemma_filter_push(path@, is_partial);
        }
        if has_extension(path, "app") {
            let raw = stem(path);
            let name = text::to_lowercase(&raw);
            if text::same(&name, needle) {
                exact.push(Hit { path: path.clone() });
                assert(exact@.map_values(hit_path()) =~= e1.push(path@));
                assert(e1.push(path@) =~= e0 + upto.filter(is_exact).push(path@));
            } else if text::contains(&name, needle) {
                partial.push(Hit { path: path.clone() });
                assert(partial@.map_values(hit_path()) =~= p1.push(path@));
                assert(p1.push(path@) =~= p0 + upto.filter(is_partial).push(path@));
            }
        }
    }
    assert(all.take(all.len() as int) =~= all);
}

/// Bundles among the entries of directories that match `query`. An exact match of the
/// name wins outright; otherwise every substring match is returned for the caller to
/// disambiguate.
pub fn find_in(dirs: &Vec<Option<Vec<String>>>, query: &str) -> (r: Vec<String>)
    ensures
        texts(r@) == found(listed(dirs@), query@),
{
    let trimmed = text::trim(query);
    let bare = without_app(&trimmed);
    let needle = text::to_lowercase(&bare);
    let ghost is_exact = |p: Seq<char>| answer(p, needle@) == Answer::Exact;
    let ghost is_partial = |p: Seq<char>| answer(p, needle@) == Answer::Partial;
    let mut exact: Vec<Hit> = Vec::new();
    let mut partial: Vec<Hit> = Vec::new();
    proof {
        reveal(Seq::filter);
        assert(exact@.map_values(hit_path()) =~= Seq::<Seq<char>>::empty());
        assert(partial@.map_values(hit_path()) =~= Seq::<Seq<char>>::empty());
        assert(listed(dirs@.take(0)) =~= Seq::<Seq<char>>::empty());
        assert(answering(Seq::empty(), needle@, Answer::Exact) =~= Seq::<Seq<char>>::empty());
        assert(answering(Seq::empty(), needle@, Answer::Partial) =~= Seq::<Seq<char>>::empty());
    }
    for i in 0..dirs.len()
        invariant
            is_exact == (|p: Seq<char>| answer(p, needle@) == Answer::Exact),
            is_partial == (|p: Seq<char>| answer(p, needle@) == Answer::Partial),
            exact@.map_values(hit_path()) == answering(
                listed(dirs@.take(i as int)),
                needle@,
                Answer::Exact,
            ),
            partial@.map_values(hit_path()) == answering(
                listed(dirs@.take(i as int)),
                needle@,
                Answer::Partial,
            ),
    {
        let ghost before = listed(dirs@.take(i as int));
        assert(dirs@.take(i + 1).drop_last() =~= dirs@.take(i as int));
        match &dirs[i] {
            Some(entries) => {
                sift(entries, &needle, &mut exact, &mut partial);
                proof {
                    Seq::filter_distributes_over_add(before, texts(entries@), is_exact);
                    Seq::filter_distributes_over_add(before, texts(entries@), is_partial);
                }
            },
            None => {
                assert(before + Seq::<Seq<char>>::empty() =~= before);
            },
        }
    }
    assert(dirs@.take(dirs@.len() as int) =~= dirs@);
    assert(exact@.map_values(hit_path()).len() == exact@.len());
    if exact.len() == 0 {
        sort_hits(partial)
    } else {
        sort_hits(exact)
    }
}

/// The names of bundles.
pub open spec fn stems(paths: Seq<Seq<char>>) -> Seq<Seq<char>> {
    paths.map_values(|p: Seq<char>| stem_of(p))
}

/// A query that names one bundle outright.
pub open spec fn is_direct(query: Seq<char>) -> bool {
    paths::is_absolute(query) && extension_of(query) == Some("app"@)
}

/// The one bundle that a query means, or why there is no such.
pub open spec fn meant(query: Seq<char>, there: bool, hits: Seq<Seq<char>>) -> Result<
    Seq<char>,
    Seq<char>,
> {
    if is_direct(query) {
        if there {
            Ok(query)
        } else {
            Err("no bundle at "@ + query)
        }
    } else if hits.len() == 0 {
        Err(
            "no application matching '"@ + query
                + "' in /Applications or ~/Applications.\nIf it is already deleted, its leftovers are still findable by bundle id."@,
        )
    } else if hits.len() == 1 {
        Ok(hits[0])
    } else {
        Err(
            "'"@ + query + "' matches "@ + text::decimal(hits.len()) + " apps: "@ + text::joined(
                stems(hits),
                ", "@,
            ),
        )
    }
}

/// The path of the one bundle that `query` means, or why it could not be told: `there`
/// says whether there is anything at the path that the query is, and `dirs` holds the
/// entries of the directories to search.
pub fn find(query: &str, there: bool, dirs: &Vec<Option<Vec<String>>>) -> (r: Result<
    String,
    String,
>)
    ensures
        match (r, meant(query@, there, found(listed(dirs@), query@))) {
            (Ok(p), Ok(path)) => p@ == path,
            (Err(e), Err(why)) => e@ == why,
            _ => false,
        },
{
    let chars = text::chars_of(query);
    if chars.len() > 0 && chars[0] == '/' && has_extension(query, "app") {
        if there {
            return Ok(query.to_owned());
        }
        let mut out: String = "no bundle at ".to_owned();
        out.append(query);
        return Err(out);
    }
    let hits = find_in(dirs, query);
    let ghost all = found(listed(dirs@), query@);
    assert(texts(hits@).len() == hits@.len());
    if hits.len() == 0 {
        let mut out: String = "no application matching '".to_owned();
        out.append(query);
        out.append(
            "' in /Applications or ~/Applications.\nIf it is already deleted, its leftovers are still findable by bundle id.",
        );
        return Err(out);
    }
    if hits.len() == 1 {
        assert(hits@[0]@ == all[0]);
        return Ok(hits[0].clone());
    }
    let mut names: Vec<String> = Vec::new();
    assert(texts(names@) =~= stems(all).take(0));
    for i in 0..hits.len()
        invariant
            texts(hits@) == all,
            texts(names@) == stems(all).take(i as int),
    {
        broadcast use text::lemma_texts_push;

        assert(hits@[i as int]@ == all[i as int]);
        names.push(stem(&hits[i]));
        assert(stems(all).take(i + 1) =~= stems(all).take(i as int).push(stem_of(all[i as int])));
    }
    assert(stems(all).take(all.len() as int) =~= stems(all));
    let mut out: String = "'".to_owned();
    out.append(query);
    out.append("' matches ");
    let n = text::dec(names.len() as u64);
    out.append(n.as_str());
    out.append(" apps: ");
    let list = text::join(&names, ", ");
    out.append(list.as_str());
    Err(out)
}

/// An exact match is never joined by a substring match.
pub proof fn law_an_exact_name_wins(entries: Seq<Seq<char>>, query: Seq<char>, path: Seq<char>)
    requires
        entries.contains(path),
        answer(path, needle_of(query)) == Answer::Exact,
    ensures
        found(entries, query) == order::arranged(
            answering(entries, needle_of(query), Answer::Exact),
            by_path(),
        ),
        answering(entries, needle_of(query), Answer::Exact).contains(path),
{
    let is_exact = |p: Seq<char>| answer(p, needle_of(query)) == Answer::Exact;
    broadcast use vstd::seq_lib::group_filter_ensures;

    assert(entries.filter(is_exact).contains(path));
}

/// A path ends in a name that is this stem and the ending of an application.
pub open spec fn is_application(path: Seq<char>, stem: Seq<char>) -> bool {
    stem.len() > 0 && paths::name_of(path) == Some(stem + ".app"@)
}

proof fn lemma_application(path: Seq<char>, stem: Seq<char>)
    ensures
        is_application(path, stem) <==> extension_of(path) == Some("app"@) && stem_of(path) == stem,
{
    reveal_strlit(".app");
    reveal_strlit("app");
    let ext = "app"@;
    assert(stem + ".app"@ =~= stem.push('.') + ext);
    if let Some(name) = paths::name_of(path) {
        paths::law_a_name_is_its_stem_and_extension(name);
        if is_application(path, stem) {
            assert(name[stem.len() as int] == '.');
            assert(ext.len() == 3);
            let (found, e) = paths::stem_and_extension(name);
            text::lemma_last_index(name, '.');
            let i = text::last_index(name, '.')->0;
            assert(i >= stem.len());
            if i > stem.len() {
                assert(name[i] == ext[i - stem.len() - 1]);
            }
            assert(name.take(i) =~= stem);
            assert(name.skip(i + 1) =~= ext);
        }
    }
}

/// One text stands within another, from some place on.
pub open spec fn stands_in(s: Seq<char>, part: Seq<char>) -> bool {
    exists|i: int|
        0 <= i && i + part.len() <= s.len() && #[trigger] s.subrange(i, i + part.len()) == part
}

/// An entry is found for a query exactly where it is an application and its name is what was
/// asked for, in whatever case; where no application has that very name, those whose name holds
/// it are found.
pub proof fn law_an_application_is_found_by_its_name(
    entries: Seq<Seq<char>>,
    query: Seq<char>,
    p: Seq<char>,
)
    ensures
        found(entries, query).contains(p) <==> entries.contains(p) && exists|stem: Seq<char>|
            {
                &&& #[trigger] is_application(p, stem)
                &&& text::lowercase(stem) == needle_of(query) || (stands_in(
                    text::lowercase(stem),
                    needle_of(query),
                ) && !exists|i: int, other: Seq<char>|
                    0 <= i < entries.len() && #[trigger] is_application(entries[i], other)
                        && text::lowercase(other) == needle_of(query))
            },
{
    let needle = needle_of(query);
    let exact = answering(entries, needle, Answer::Exact);
    let partial = answering(entries, needle, Answer::Partial);
    lemma_answering(entries, needle, Answer::Exact, p);
    lemma_answering(entries, needle, Answer::Partial, p);
    lemma_members(exact, p);
    lemma_members(partial, p);
    assert forall|stem: Seq<char>| #[trigger] is_application(p, stem) == (extension_of(p) == Some(
        "app"@,
    ) && stem_of(p) == stem) by {
        lemma_application(p, stem);
    }
    assert(text::occurs(text::lowercase(stem_of(p)), needle) == stands_in(
        text::lowercase(stem_of(p)),
        needle,
    )) by {
        let name = text::lowercase(stem_of(p));
        if text::occurs(name, needle) {
            let i = choose|i: int| text::stands_at(name, needle, i);
            assert(name.subrange(i, i + needle.len()) == needle);
        }
        if stands_in(name, needle) {
            let i = choose|i: int|
                0 <= i && i + needle.len() <= name.len() && #[trigger] name.subrange(
                    i,
                    i + needle.len(),
                ) == needle;
            assert(text::stands_at(name, needle, i));
        }
    }
    assert(exact.len() > 0 <==> exists|i: int, other: Seq<char>|
        0 <= i < entries.len() && #[trigger] is_application(entries[i], other) && text::lowercase(
            other,
        ) == needle) by {
        if exact.len() > 0 {
            let q = exact[0];
            assert(exact.contains(q));
            lemma_answering(entries, needle, Answer::Exact, q);
            let i = choose|i: int| 0 <= i < entries.len() && entries[i] == q;
            lemma_application(q, stem_of(q));
            assert(is_application(entries[i], stem_of(q)));
        }
        if exists|i: int, other: Seq<char>|
            0 <= i < entries.len() && #[trigger] is_application(entries[i], other)
                && text::lowercase(other) == needle {
            let (i, other) = choose|i: int, other: Seq<char>|
                0 <= i < entries.len() && #[trigger] is_application(entries[i], other)
                    && text::lowercase(other) == needle;
            lemma_application(entries[i], other);
            lemma_answering(entries, needle, Answer::Exact, entries[i]);
            assert(entries.contains(entries[i]));
        }
    }
    if extension_of(p) == Some("app"@) {
        assert(is_application(p, stem_of(p)));
    }
}

proof fn lemma_members(all: Seq<Seq<char>>, p: Seq<char>)
    ensures
        order::arranged(all, by_path()).contains(p) == all.contains(p),
{
    order::lemma_arranged_members(all, by_path());
    if all.contains(p) {
        order::lemma_arranged_keeps(all, by_path(), p);
    }
    if order::arranged(all, by_path()).contains(p) {
        let sorted = order::arranged(all, by_path());
        let i = choose|i: int| 0 <= i < sorted.len() && sorted[i] == p;
        assert(all.contains(sorted[i]));
    }
}

proof fn lemma_answering(entries: Seq<Seq<char>>, needle: Seq<char>, how: Answer, p: Seq<char>)
    ensures
        answering(entries, needle, how).contains(p) <==> entries.contains(p) && answer(p, needle)
            == how,
{
    broadcast use vstd::seq_lib::group_filter_ensures;

    let keep = |q: Seq<char>| answer(q, needle) == how;
    let kept = entries.filter(keep);
    if kept.contains(p) {
        entries.lemma_filter_contains_rev(keep, p);
        let k = choose|k: int| 0 <= k < kept.len() && kept[k] == p;
        entries.lemma_filter_pred(keep, k);
    }
    if entries.contains(p) && answer(p, needle) == how {
        assert(keep(p));
    }
}

/// What any directory lists is looked at, and nothing else.
pub proof fn law_every_directory_is_looked_in(dirs: Seq<Option<Vec<String>>>, p: Seq<char>)
    ensures
        listed(dirs).contains(p) <==> exists|k: int, i: int|
            0 <= k < dirs.len() && dirs[k] is Some && 0 <= i < dirs[k]->0@.len()
                && (#[trigger] dirs[k]->0@[i])@ == p,
    decreases dirs.len(),
{
    let all = listed(dirs);
    if dirs.len() > 0 {
        let front = dirs.drop_last();
        let last = dirs.len() - 1;
        let before = listed(front);
        law_every_directory_is_looked_in(front, p);
        assert forall|k: int| 0 <= k < front.len() implies front[k] == #[trigger] dirs[k] by {}
        if all.contains(p) {
            let j = choose|j: int| 0 <= j < all.len() && all[j] == p;
            if j < before.len() {
                assert(before[j] == p);
                let (k, i) = choose|k: int, i: int|
                    0 <= k < front.len() && front[k] is Some && 0 <= i < front[k]->0@.len() && (
                    #[trigger] front[k]->0@[i])@ == p;
                assert(dirs[k]->0@[i]@ == p);
            } else {
                assert(dirs[last]->0@[j - before.len()]@ == p);
            }
        }
        if exists|k: int, i: int|
            0 <= k < dirs.len() && dirs[k] is Some && 0 <= i < dirs[k]->0@.len() && (
            #[trigger] dirs[k]->0@[i])@ == p {
            let (k, i) = choose|k: int, i: int|
                0 <= k < dirs.len() && dirs[k] is Some && 0 <= i < dirs[k]->0@.len() && (
                #[trigger] dirs[k]->0@[i])@ == p;
            if k < last {
                assert(front[k]->0@[i]@ == p);
                let j = choose|j: int| 0 <= j < before.len() && before[j] == p;
                assert(all[j] == p);
            } else {
                assert(all[before.len() + i] == p);
            }
        }
    }
}

/// An ending of an application on a query makes no difference, however often it stands there.
pub proof fn law_the_ending_of_a_query_makes_no_difference(query: Seq<char>)
    ensures
        bare_query(query + ".app"@) == bare_query(query),
        !".app"@.is_suffix_of(query) ==> bare_query(query) == query,
{
    reveal_strlit(".app");
    let s = query + ".app"@;
    assert(".app"@.len() == 4);
    assert(s.subrange(s.len() - 4, s.len() as int) =~= ".app"@);
    assert(".app"@.is_suffix_of(s));
    assert(s.take(s.len() - 4) =~= query);
}

/// The vendor of an id of three parts or more is its second, where that is longer than two
/// bytes, and what stands in front of the third is the vendor's prefix. A shorter id has neither.
pub proof fn law_the_second_part_of_an_id_is_the_vendor(
    a: Seq<char>,
    b: Seq<char>,
    rest: Seq<char>,
)
    requires
        !a.contains('.'),
        !b.contains('.'),
    ensures
        prefix_of(Some(a.push('.') + (b.push('.') + rest))) == Some(a.push('.') + b),
        vendor_of(Some(a.push('.') + (b.push('.') + rest))) == (if text::byte_count(b) > 2 {
            Some(b)
        } else {
            None
        }),
        prefix_of(Some(a.push('.') + b)) is None,
        vendor_of(Some(a.push('.') + b)) is None,
        prefix_of(Some(a)) is None,
        vendor_of(Some(a)) is None,
        prefix_of(None) is None,
        vendor_of(None) is None,
{
    reveal_strlit(".");
    text::lemma_pieces_nonempty(rest, '.');
    text::lemma_one_line(a, '.');
    text::lemma_one_line(b, '.');
    paths::lemma_pieces_joined(b, rest, '.');
    paths::lemma_pieces_joined(a, b.push('.') + rest, '.');
    paths::lemma_pieces_joined(a, b, '.');
    let parts = text::pieces(a.push('.') + (b.push('.') + rest), '.');
    assert(parts =~= seq![a, b] + text::pieces(rest, '.'));
    assert(a + "."@ + b =~= a.push('.') + b);
}

/// A query that is the whole path of an application means that one, where it is there. Any other
/// means an application exactly where one answers and no second does, and then that one.
pub proof fn law_a_query_means_one_application(
    query: Seq<char>,
    there: bool,
    hits: Seq<Seq<char>>,
)
    ensures
        query.len() > 0 && query[0] == '/' && (exists|stem: Seq<char>| #[trigger]
            is_application(query, stem)) ==> {
            &&& meant(query, there, hits) is Ok <==> there
            &&& there ==> meant(query, there, hits) == Ok::<Seq<char>, Seq<char>>(query)
        },
        !(query.len() > 0 && query[0] == '/') || !(exists|stem: Seq<char>| #[trigger]
            is_application(query, stem)) ==> {
            &&& meant(query, there, hits) is Ok <==> hits.len() == 1
            &&& hits.len() == 1 ==> meant(query, there, hits) == Ok::<Seq<char>, Seq<char>>(hits[0])
        },
{
    assert forall|stem: Seq<char>| #[trigger] is_application(query, stem) == (extension_of(query)
        == Some("app"@) && stem_of(query) == stem) by {
        lemma_application(query, stem);
    }
    if extension_of(query) == Some("app"@) {
        assert(is_application(query, stem_of(query)));
    }
}

} // verus!
