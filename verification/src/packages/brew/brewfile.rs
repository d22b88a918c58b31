//! Brewfiles: reading, finding and editing them.
use vstd::prelude::*;
use crate::paths;
use crate::text;
use crate::text::{text_opt, texts};

verus! {

/// What an entry declares.
#[derive(Debug, Clone, Copy, PartialEq, Eq, Hash, Structural)]
pub enum EntryKind {
    Formula,
    Cask,
    Tap,
}

/// An entry of a Brewfile.
#[derive(Debug)]
pub struct BrewfileEntry {
    pub kind: EntryKind,
    /// Unqualified package name. For `brew "tap/repo/name"` this is `name`.
    pub name: String,
    /// The full name as written, including any tap prefix.
    pub full_name: String,
    /// Original line, preserved for editing.
    pub raw: String,
    /// 1-based line number in the source file.
    pub line_number: usize,
}

/// An entry of a Brewfile.
pub ghost struct EntryRow {
    pub kind: EntryKind,
    pub name: Seq<char>,
    pub full_name: Seq<char>,
    pub raw: Seq<char>,
    pub line_number: int,
}

impl BrewfileEntry {
    pub open spec fn row(self) -> EntryRow {
        EntryRow {
            kind: self.kind,
            name: self.name@,
            full_name: self.full_name@,
            raw: self.raw@,
            line_number: self.line_number as int,
        }
    }

    fn copied(&self) -> (r: Self)
        ensures
            r.row() == self.row(),
    {
        BrewfileEntry {
            kind: self.kind,
            name: self.name.clone(),
            full_name: self.full_name.clone(),
            raw: self.raw.clone(),
            line_number: self.line_number,
        }
    }
}

/// Where the first quotation mark of either sort stands.
pub open spec fn first_mark(s: Seq<char>) -> Option<int> {
    match (text::first_index(s, '"'), text::first_index(s, '\'')) {
        (Some(a), Some(b)) => if a < b {
            Some(a)
        } else {
            Some(b)
        },
        (Some(a), None) => Some(a),
        (None, b) => b,
    }
}

/// What stands between the first quotation mark and the next of its sort.
pub open spec fn quoted_in(s: Seq<char>) -> Option<Seq<char>> {
    match first_mark(s) {
        Some(at) => match text::first_index(s.skip(at + 1), s[at]) {
            Some(end) => Some(s.skip(at + 1).take(end)),
            None => None,
        },
        None => None,
    }
}

fn extract_quoted(s: &str) -> (r: Option<String>)
    ensures
        text_opt(r) == quoted_in(s@),
{
    proof {
        text::lemma_first_index(s@, '"');
        text::lemma_first_index(s@, '\'');
    }
    let chars = text::chars_of(s);
    let mut at: usize = 0;
    while at < chars.len() && chars[at] != '"' && chars[at] != '\''
        invariant
            at <= chars@.len(),
            chars@ == s@,
            forall|j: int| 0 <= j < at ==> s@[j] != '"' && s@[j] != '\'',
        decreases chars@.len() - at,
    {
        at = at + 1;
    }
    if at == chars.len() {
        assert(first_mark(s@) is None);
        return None;
    }
    assert(first_mark(s@) == Some(at as int));
    let quote = chars[at];
    let after = text::text_between(&chars, at + 1, chars.len());
    assert(after@ =~= s@.skip(at + 1));
    match text::split_once(&after, quote) {
        Some((inside, _)) => Some(inside),
        None => None,
    }
}

/// The word an entry of a kind begins with.
pub open spec fn kind_in(word: Seq<char>) -> Option<EntryKind> {
    if word == "brew"@ {
        Some(EntryKind::Formula)
    } else if word == "cask"@ {
        Some(EntryKind::Cask)
    } else if word == "tap"@ {
        Some(EntryKind::Tap)
    } else {
        None
    }
}

/// A name without the tap it comes from.
pub open spec fn unqualified(full: Seq<char>) -> Seq<char> {
    text::pieces(full, '/').last()
}

/// The entry that a line declares.
pub open spec fn entry_in(line: Seq<char>, number: int) -> Option<EntryRow> {
    let bare = text::trimmed_start(line);
    if bare.len() == 0 || bare[0] == '#' {
        None
    } else {
        match text::cut_space(bare) {
            None => None,
            Some((word, rest)) => match (kind_in(word), quoted_in(rest)) {
                (Some(kind), Some(full)) => Some(
                    EntryRow {
                        kind,
                        name: if kind == EntryKind::Tap {
                            full
                        } else {
                            unqualified(full)
                        },
                        full_name: full,
                        raw: line,
                        line_number: number,
                    },
                ),
                _ => None,
            },
        }
    }
}

/// A name without the tap it comes from.
pub(crate) fn short_name(full: &str) -> (r: String)
    ensures
        r@ == unqualified(full@),
{
    broadcast use text::lemma_pieces_nonempty;

    let parts = text::split_on(full, '/');
    let ghost all = text::pieces(full@, '/');
    assert(parts@.len() == all.len() && all.len() > 0);
    assert(parts@[parts@.len() - 1]@ == all.last());
    parts[parts.len() - 1].clone()
}

fn parse_line(line: &str, line_number: usize) -> (r: Option<BrewfileEntry>)
    ensures
        match r {
            Some(e) => entry_in(line@, line_number as int) == Some(e.row()),
            None => entry_in(line@, line_number as int) is None,
        },
{
    let bare = text::trim_start(line);
    let chars = text::chars_of(&bare);
    if chars.len() == 0 || chars[0] == '#' {
        return None;
    }
    let (word, rest) = match text::split_space(&bare) {
        Some(pair) => pair,
        None => {
            return None;
        },
    };
    let kind: EntryKind = if text::same(&word, "brew") {
        EntryKind::Formula
    } else if text::same(&word, "cask") {
        EntryKind::Cask
    } else if text::same(&word, "tap") {
        EntryKind::Tap
    } else {
        return None;
    };
    let full_name = match extract_quoted(&rest) {
        Some(f) => f,
        None => {
            return None;
        },
    };
    let name = match kind {
        EntryKind::Tap => full_name.clone(),
        _ => short_name(&full_name),
    };
    Some(BrewfileEntry { kind, name, full_name, raw: line.to_owned(), line_number })
}

/// The entries that lines declare, numbered from one.
pub open spec fn entries_in(lines: Seq<Seq<char>>) -> Seq<EntryRow>
    decreases lines.len(),
{
    if lines.len() == 0 {
        Seq::empty()
    } else {
        let before = entries_in(lines.drop_last());
        match entry_in(lines.last(), lines.len() as int) {
            Some(e) => before.push(e),
            None => before,
        }
    }
}

/// What the entries of a list are.
pub open spec fn rows(v: Seq<BrewfileEntry>) -> Seq<EntryRow> {
    v.map_values(|e: BrewfileEntry| e.row())
}

/// The entries of a Brewfile.
///
/// Only `brew`, `cask`, and `tap` lines are returned. Other forms and comments are
/// skipped.
pub fn parse(content: &str) -> (r: Vec<BrewfileEntry>)
    ensures
        rows(r@) == entries_in(text::lines(content@)),
{
    let lines = text::split_lines(content);
    let ghost all = text::lines(content@);
    let mut out: Vec<BrewfileEntry> = Vec::new();
    assert(rows(out@) =~= Seq::<EntryRow>::empty());
    for i in 0..lines.len()
        invariant
            texts(lines@) == all,
            rows(out@) == entries_in(all.take(i as int)),
    {
        assert(all.take(i + 1).drop_last() =~= all.take(i as int));
        assert(lines@[i as int]@ == all[i as int]);
        let ghost before = rows(out@);
        if let Some(e) = parse_line(&lines[i], i + 1) {
            let ghost row = e.row();
            out.push(e);
            assert(rows(out@) =~= before.push(row));
        }
    }
    assert(all.take(all.len() as int) =~= all);
    out
}

/// Which step of the search order produced the path.
#[derive(Debug, Clone, Copy, PartialEq, Eq, Structural)]
pub enum BrewfileSource {
    /// The variable that names a file.
    Env,
    /// The current directory.
    Cwd,
    /// The home directory.
    Home,
    /// The directory for configuration.
    Xdg,
}

/// What the search depends on.
#[derive(Debug)]
pub struct Env {
    pub bundle_file: Option<String>,
    pub xdg_config_home: Option<String>,
    pub cwd: Option<String>,
    pub home: Option<String>,
}

/// A place, where there is a directory for it.
pub open spec fn place(
    base: Option<Seq<char>>,
    rel: Seq<char>,
    source: BrewfileSource,
) -> Seq<(Seq<char>, BrewfileSource)> {
    match base {
        Some(dir) => seq![(paths::below(dir, rel), source)],
        None => Seq::empty(),
    }
}

/// Where a Brewfile is looked for, in order: the file that the variable names, the
/// current directory, the home directory with a dot and without, and the directory for
/// configuration.
pub open spec fn places_of(env: Env) -> Seq<(Seq<char>, BrewfileSource)> {
    let home = text_opt(env.home);
    let xdg = match text_opt(env.xdg_config_home) {
        Some(x) => Some(x),
        None => match home {
            Some(h) => Some(paths::below(h, ".config"@)),
            None => None,
        },
    };
    (match text_opt(env.bundle_file) {
        Some(p) => seq![(p, BrewfileSource::Env)],
        None => Seq::empty(),
    }) + place(text_opt(env.cwd), "Brewfile"@, BrewfileSource::Cwd) + place(
        home,
        ".Brewfile"@,
        BrewfileSource::Home,
    ) + place(home, "Brewfile"@, BrewfileSource::Home) + place(
        xdg,
        "homebrew/Brewfile"@,
        BrewfileSource::Xdg,
    )
}

/// The characters of places.
pub open spec fn place_rows(v: Seq<(String, BrewfileSource)>) -> Seq<(Seq<char>, BrewfileSource)> {
    v.map_values(|p: (String, BrewfileSource)| (p.0@, p.1))
}

fn push_place(
    out: &mut Vec<(String, BrewfileSource)>,
    base: &Option<String>,
    rel: &str,
    source: BrewfileSource,
)
    ensures
        place_rows(final(out)@) == place_rows(old(out)@) + place(text_opt(*base), rel@, source),
{
    let ghost before = place_rows(out@);
    match base {
        Some(dir) => {
            let p = paths::join(dir, rel);
            let ghost row = (p@, source);
            out.push((p, source));
            assert(place_rows(out@) =~= before + seq![row]);
        },
        None => {
            assert(before =~= before + Seq::<(Seq<char>, BrewfileSource)>::empty());
        },
    }
}

/// Where a Brewfile is looked for, in order.
pub fn places(env: &Env) -> (r: Vec<(String, BrewfileSource)>)
    ensures
        place_rows(r@) == places_of(*env),
{
    let mut out: Vec<(String, BrewfileSource)> = Vec::new();
    if let Some(p) = &env.bundle_file {
        out.push((p.clone(), BrewfileSource::Env));
    }
    assert(place_rows(out@) =~= (match text_opt(env.bundle_file) {
        Some(p) => seq![(p, BrewfileSource::Env)],
        None => Seq::empty(),
    }));
    push_place(&mut out, &env.cwd, "Brewfile", BrewfileSource::Cwd);
    push_place(&mut out, &env.home, ".Brewfile", BrewfileSource::Home);
    push_place(&mut out, &env.home, "Brewfile", BrewfileSource::Home);
    let xdg: Option<String> = match &env.xdg_config_home {
        Some(x) => Some(x.clone()),
        None => match &env.home {
            Some(h) => Some(paths::join(h, ".config")),
            None => None,
        },
    };
    push_place(&mut out, &xdg, "homebrew/Brewfile", BrewfileSource::Xdg);
    out
}

/// The first of the places that is a file.
pub open spec fn first_file(
    places: Seq<(Seq<char>, BrewfileSource)>,
    files: Seq<Seq<char>>,
) -> Option<(Seq<char>, BrewfileSource)>
    decreases places.len(),
{
    if places.len() == 0 {
        None
    } else {
        match first_file(places.drop_last(), files) {
            Some(p) => Some(p),
            None => if files.contains(places.last().0) {
                Some(places.last())
            } else {
                None
            },
        }
    }
}

proof fn lemma_first_file_prefix(
    places: Seq<(Seq<char>, BrewfileSource)>,
    files: Seq<Seq<char>>,
    n: int,
)
    requires
        0 <= n <= places.len(),
        first_file(places.take(n), files) is Some,
    ensures
        first_file(places, files) == first_file(places.take(n), files),
    decreases places.len() - n,
{
    if n == places.len() {
        assert(places.take(n) =~= places);
    } else {
        assert(places.take(n + 1).drop_last() =~= places.take(n));
        lemma_first_file_prefix(places, files, n + 1);
    }
}

/// The Brewfile that `brew bundle` would find, given which of the places are files.
pub fn discover_with(env: &Env, files: &Vec<String>) -> (r: Option<(String, BrewfileSource)>)
    ensures
        (match r {
            Some((p, source)) => Some((p@, source)),
            None => None,
        }) == first_file(places_of(*env), texts(files@)),
{
    let all = places(env);
    let ghost want = places_of(*env);
    for i in 0..all.len()
        invariant
            place_rows(all@) == want,
            want == places_of(*env),
            first_file(want.take(i as int), texts(files@)) is None,
    {
        assert(want.take(i + 1).drop_last() =~= want.take(i as int));
        assert(want[i as int] == (all@[i as int].0@, all@[i as int].1));
        if text::any_same(files, &all[i].0) {
            proof {
                lemma_first_file_prefix(want, texts(files@), i + 1);
            }
            return Some((all[i].0.clone(), all[i].1));
        }
    }
    assert(want.take(want.len() as int) =~= want);
    None
}

/// A package to remove from a Brewfile, matched by kind and unqualified name.
#[derive(Debug)]
pub struct RemoveTarget {
    pub kind: EntryKind,
    pub name: String,
}

/// What a removal came to.
#[derive(Debug)]
pub struct RemoveSummary {
    /// Path to the backup file, or nothing if nothing matched and no write is to happen.
    pub backup: Option<String>,
    /// The entries that were removed.
    pub removed: Vec<BrewfileEntry>,
    /// What the file holds afterwards, where it is to be written.
    pub content: Option<String>,
}

/// An entry is one of those to remove.
pub open spec fn is_target(targets: Seq<RemoveTarget>, e: EntryRow) -> bool {
    exists|i: int|
        0 <= i < targets.len() && (#[trigger] targets[i]).kind == e.kind && targets[i].name@
            == e.name
}

/// A line declares one of those to remove.
pub open spec fn is_removed(targets: Seq<RemoveTarget>, line: Seq<char>) -> bool {
    match entry_in(line, 0) {
        Some(e) => is_target(targets, e),
        None => false,
    }
}

/// The entries among lines that are to be removed.
pub open spec fn removed_in(lines: Seq<Seq<char>>, targets: Seq<RemoveTarget>) -> Seq<EntryRow> {
    entries_in(lines).filter(|e: EntryRow| is_target(targets, e))
}

/// The lines that stay.
pub open spec fn kept(lines: Seq<Seq<char>>, targets: Seq<RemoveTarget>) -> Seq<Seq<char>>
    decreases lines.len(),
{
    if lines.len() == 0 {
        Seq::empty()
    } else {
        let before = kept(lines.drop_last(), targets);
        if is_removed(targets, lines.last()) {
            before
        } else {
            before.push(lines.last())
        }
    }
}

/// Lines with a line feed behind each.
pub open spec fn written(lines: Seq<Seq<char>>) -> Seq<char>
    decreases lines.len(),
{
    if lines.len() == 0 {
        Seq::empty()
    } else {
        written(lines.drop_last()) + lines.last().push('\n')
    }
}

/// What a file holds once entries were removed: the lines that stay, with a line feed at
/// the end only where there was one.
pub open spec fn edited(content: Seq<char>, targets: Seq<RemoveTarget>) -> Seq<char> {
    let out = written(kept(text::lines(content), targets));
    if content.len() > 0 && content.last() == '\n' {
        out
    } else if out.len() > 0 {
        out.drop_last()
    } else {
        out
    }
}

/// A path without the slashes and dots at its end that name nothing.
pub open spec fn bare_path(p: Seq<char>) -> Seq<char>
    decreases p.len(),
{
    if p.len() > 1 && p.last() == '/' {
        bare_path(p.drop_last())
    } else if p.len() > 2 && p.last() == '.' && p[p.len() - 2] == '/' {
        bare_path(p.drop_last())
    } else {
        p
    }
}

/// Where the backup of a file is kept: beside it.
pub open spec fn backup_of(path: Seq<char>) -> Seq<char> {
    match paths::name_of(path) {
        Some(_) => bare_path(path) + ".bak"@,
        None => paths::below(path, "Brewfile.bak"@),
    }
}

fn backup_path(path: &str) -> (r: String)
    ensures
        r@ == backup_of(path@),
{
    match paths::file_name(path) {
        None => paths::join(path, "Brewfile.bak"),
        Some(_) => {
            let chars = text::chars_of(path);
            let mut n: usize = chars.len();
            assert(path@.take(n as int) =~= path@);
            while (n > 1 && chars[n - 1] == '/') || (n > 2 && chars[n - 1] == '.' && chars[n - 2]
                == '/')
                invariant
                    chars@ == path@,
                    n <= chars@.len(),
                    bare_path(path@.take(n as int)) == bare_path(path@),
                decreases n,
            {
                assert(path@.take(n as int).drop_last() =~= path@.take(n - 1));
                n = n - 1;
            }
            assert(bare_path(path@.take(n as int)) == path@.take(n as int));
            let mut out = text::text_between(&chars, 0, n);
            assert(out@ =~= path@.take(n as int));
            out.append(".bak");
            out
        },
    }
}

fn targeted(targets: &[RemoveTarget], kind: EntryKind, name: &str) -> (r: bool)
    ensures
        r == exists|i: int|
            0 <= i < targets@.len() && (#[trigger] targets@[i]).kind == kind && targets@[i].name@
                == name@,
{
    for i in 0..targets.len()
        invariant
            forall|j: int|
                0 <= j < i ==> !((#[trigger] targets@[j]).kind == kind && targets@[j].name@
                    == name@),
    {
        if targets[i].kind == kind && text::same(&targets[i].name, name) {
            assert(targets@[i as int].kind == kind && targets@[i as int].name@ == name@);
            return true;
        }
    }
    false
}

proof fn lemma_number_aside(line: Seq<char>, a: int, b: int, targets: Seq<RemoveTarget>)
    ensures
        entry_in(line, a) is Some == entry_in(line, b) is Some,
        entry_in(line, a) is Some ==> is_target(targets, entry_in(line, a)->0) == is_target(
            targets,
            entry_in(line, b)->0,
        ),
{
    if let (Some(x), Some(y)) = (entry_in(line, a), entry_in(line, b)) {
        assert(x.kind == y.kind && x.name == y.name);
        if is_target(targets, x) {
            let i = choose|i: int|
                0 <= i < targets.len() && (#[trigger] targets[i]).kind == x.kind
                    && targets[i].name@ == x.name;
            assert(targets[i].kind == y.kind && targets[i].name@ == y.name);
        }
        if is_target(targets, y) {
            let i = choose|i: int|
                0 <= i < targets.len() && (#[trigger] targets[i]).kind == y.kind
                    && targets[i].name@ == y.name;
            assert(targets[i].kind == x.kind && targets[i].name@ == x.name);
        }
    }
}

/// Removes matching entries from the content of a Brewfile. Says what was removed, what
/// the file then holds, and where a backup of it goes first.
///
/// Matching is by kind and unqualified name, so `brew "tap/repo/maestro"` is matched by
/// the formula `maestro`. Comments, blank lines, and other forms are preserved.
pub fn remove_entries(path: &str, content: &str, targets: &[RemoveTarget]) -> (r: RemoveSummary)
    ensures
        ({
            let gone = removed_in(text::lines(content@), targets@);
            &&& rows(r.removed@) == gone
            &&& text_opt(r.backup) == (if gone.len() == 0 {
                None
            } else {
                Some(backup_of(path@))
            })
            &&& text_opt(r.content) == (if gone.len() == 0 {
                None
            } else {
                Some(edited(content@, targets@))
            })
        }),
{
    let lines = text::split_lines(content);
    let ghost all = text::lines(content@);
    let ghost chosen = |e: EntryRow| is_target(targets@, e);
    let mut removed: Vec<BrewfileEntry> = Vec::new();
    let mut out: Vec<char> = Vec::new();
    proof {
        reveal(Seq::filter);
        assert(rows(removed@) =~= entries_in(all.take(0)).filter(chosen));
        assert(out@ =~= written(kept(all.take(0), targets@)));
    }
    for i in 0..lines.len()
        invariant
            texts(lines@) == all,
            chosen == (|e: EntryRow| is_target(targets@, e)),
            rows(removed@) == entries_in(all.take(i as int)).filter(chosen),
            out@ == written(kept(all.take(i as int), targets@)),
    {
        let line = &lines[i];
        let ghost before = rows(removed@);
        let ghost entries = entries_in(all.take(i as int));
        let ghost stay = kept(all.take(i as int), targets@);
        proof {
            assert(all.take(i + 1).drop_last() =~= all.take(i as int));
            assert(all.take(i + 1).last() == line@);
            lemma_number_aside(line@, 0, i + 1, targets@);
            if let Some(e) = entry_in(line@, i + 1) {
                entries.lemma_filter_push(e, chosen);
            }
        }
        let mut drop: bool = false;
        if let Some(e) = parse_line(line, i + 1) {
            if targeted(targets, e.kind, &e.name) {
                drop = true;
                let ghost row = e.row();
                removed.push(e);
                assert(rows(removed@) =~= before.push(row));
            }
        }
        if !drop {
            let ghost base = out@;
            let mut chars = text::chars_of(line);
            out.append(&mut chars);
            out.push('\n');
            assert(stay.push(line@).drop_last() =~= stay);
            assert(out@ =~= base + line@.push('\n'));
        }
    }
    assert(all.take(all.len() as int) =~= all);
    assert(rows(removed@).len() == removed@.len());
    if removed.len() == 0 {
        return RemoveSummary { backup: None, removed, content: None };
    }
    let raw = text::chars_of(content);
    let ends: bool = raw.len() > 0 && raw[raw.len() - 1] == '\n';
    if !ends && out.len() > 0 {
        let ghost whole = out@;
        out.pop();
        assert(out@ =~= whole.drop_last());
    }
    RemoveSummary {
        backup: Some(backup_path(path)),
        removed,
        content: Some(text::text_of(&out)),
    }
}

proof fn lemma_line_put_behind(s: Seq<char>, line: Seq<char>)
    requires
        !line.contains('\n'),
    ensures
        text::pieces(s + line, '\n') == text::pieces(s, '\n').drop_last().push(
            text::pieces(s, '\n').last() + line,
        ),
    decreases line.len(),
{
    broadcast use text::lemma_pieces_nonempty;

    let cut = text::pieces(s, '\n');
    if line.len() == 0 {
        assert(s + line =~= s);
        assert(cut.last() + line =~= cut.last());
        assert(cut =~= cut.drop_last().push(cut.last()));
    } else {
        let rest = line.drop_last();
        assert forall|i: int| 0 <= i < rest.len() implies rest[i] != '\n' by {
            assert(line.contains(line[i]));
        }
        lemma_line_put_behind(s, rest);
        assert(line.contains(line[line.len() - 1]));
        assert((s + line).drop_last() =~= s + rest);
        let before = cut.drop_last().push(cut.last() + rest);
        assert(before.drop_last() =~= cut.drop_last());
        assert((cut.last() + rest).push(line.last()) =~= cut.last() + line);
    }
}

/// Lines are read back as they were written.
proof fn lemma_written_lines(lines: Seq<Seq<char>>)
    requires
        forall|i: int| 0 <= i < lines.len() ==> !(#[trigger] lines[i]).contains('\n'),
    ensures
        text::pieces(written(lines), '\n') == lines.push(Seq::empty()),
    decreases lines.len(),
{
    let none = Seq::<char>::empty();
    if lines.len() == 0 {
        assert(text::pieces(none, '\n') =~= lines.push(none));
    } else {
        let rest = lines.drop_last();
        let line = lines.last();
        lemma_written_lines(rest);
        let w = written(rest);
        assert(!lines[lines.len() - 1].contains('\n'));
        lemma_line_put_behind(w, line);
        let cut = text::pieces(w + line, '\n');
        assert(rest.push(none).drop_last() =~= rest);
        assert(none + line =~= line);
        assert(cut =~= lines);
        assert(written(lines) =~= (w + line).push('\n'));
        assert((w + line).push('\n').drop_last() =~= w + line);
    }
}

proof fn lemma_pieces_hold_no_mark(s: Seq<char>, sep: char)
    ensures
        forall|i: int|
            0 <= i < text::pieces(s, sep).len() ==> !(#[trigger] text::pieces(s, sep)[i]).contains(
                sep,
            ),
    decreases s.len(),
{
    broadcast use text::lemma_pieces_nonempty;

    if s.len() > 0 {
        lemma_pieces_hold_no_mark(s.drop_last(), sep);
        let before = text::pieces(s.drop_last(), sep);
        assert forall|i: int| 0 <= i < text::pieces(s, sep).len() implies !(
        #[trigger] text::pieces(s, sep)[i]).contains(sep) by {
            if s.last() != sep && i == before.len() - 1 {
                let grown = before.last().push(s.last());
                assert(!before[before.len() - 1].contains(sep));
                assert forall|k: int| 0 <= k < grown.len() implies grown[k] != sep by {
                    if k < before.last().len() {
                        assert(before.last().contains(before.last()[k]));
                    }
                }
            }
        }
    }
}

proof fn lemma_lines_hold_no_feed(s: Seq<char>)
    ensures
        forall|i: int|
            0 <= i < text::lines(s).len() ==> !(#[trigger] text::lines(s)[i]).contains('\n'),
{
    lemma_pieces_hold_no_mark(s, '\n');
    let cut = text::pieces(s, '\n');
    assert forall|i: int| 0 <= i < text::lines(s).len() implies !(
    #[trigger] text::lines(s)[i]).contains('\n') by {
        assert(!cut[i].contains('\n'));
        let line = text::lines(s)[i];
        assert forall|k: int| 0 <= k < line.len() implies line[k] != '\n' by {
            assert(cut[i].contains(cut[i][k]));
        }
    }
}

proof fn lemma_kept_from(lines: Seq<Seq<char>>, targets: Seq<RemoveTarget>, i: int)
    requires
        0 <= i < kept(lines, targets).len(),
    ensures
        lines.contains(kept(lines, targets)[i]),
        !is_removed(targets, kept(lines, targets)[i]),
    decreases lines.len(),
{
    let rest = lines.drop_last();
    if !is_removed(targets, lines.last()) && i == kept(lines, targets).len() - 1 {
        assert(lines[lines.len() - 1] == kept(lines, targets)[i]);
    } else {
        lemma_kept_from(rest, targets, i);
        let k = choose|k: int| 0 <= k < rest.len() && rest[k] == kept(lines, targets)[i];
        assert(lines[k] == kept(lines, targets)[i]);
    }
}

/// No line ends in a carriage return of its own, beyond the one that its line feed may
/// have before it.
pub open spec fn plain(lines: Seq<Seq<char>>) -> bool {
    forall|i: int|
        0 <= i < lines.len() && (#[trigger] lines[i]).len() > 0 ==> lines[i].last() != '\r'
}

/// Every line that does not declare one of the packages to remove is still there, in
/// order, and no other is.
pub proof fn law_all_other_lines_are_kept(content: Seq<char>, targets: Seq<RemoveTarget>)
    requires
        plain(text::lines(content)),
        ({
            let stay = kept(text::lines(content), targets);
            content.last() == '\n' || (stay.len() > 0 ==> stay.last().len() > 0)
        }),
    ensures
        text::lines(edited(content, targets)) == kept(text::lines(content), targets),
{
    let all = text::lines(content);
    let stay = kept(all, targets);
    let none = Seq::<char>::empty();
    lemma_lines_hold_no_feed(content);
    assert forall|i: int| 0 <= i < stay.len() implies !(#[trigger] stay[i]).contains('\n') && (
    stay[i].len() > 0 ==> stay[i].last() != '\r') by {
        lemma_kept_from(all, targets, i);
        let k = choose|k: int| 0 <= k < all.len() && all[k] == stay[i];
        assert(!all[k].contains('\n'));
    }
    lemma_written_lines(stay);
    let out = written(stay);
    let cut = text::pieces(out, '\n');
    assert(cut == stay.push(none));
    if content.len() > 0 && content.last() == '\n' {
        assert(text::lines(out) =~= stay);
    } else if stay.len() == 0 {
        assert(text::lines(out) =~= stay);
    } else {
        let rest = stay.drop_last();
        let line = stay.last();
        lemma_written_lines(rest);
        assert(!stay[stay.len() - 1].contains('\n'));
        lemma_line_put_behind(written(rest), line);
        assert(out.drop_last() =~= written(rest) + line);
        assert(rest.push(none).drop_last() =~= rest);
        assert(none + line =~= line);
        assert(text::pieces(out.drop_last(), '\n') =~= rest.push(line));
        if content.len() > 0 {
            assert(text::lines(out.drop_last()) =~= stay);
        } else {
            assert(text::pieces(content, '\n') =~= seq![none]);
            assert(all =~= Seq::<Seq<char>>::empty());
        }
    }
}

proof fn lemma_entry_from_line(lines: Seq<Seq<char>>, i: int)
    requires
        0 <= i < entries_in(lines).len(),
    ensures
        exists|k: int|
            0 <= k < lines.len() && #[trigger] entry_in(lines[k], k + 1) == Some(
                entries_in(lines)[i],
            ),
    decreases lines.len(),
{
    let rest = lines.drop_last();
    if entry_in(lines.last(), lines.len() as int) is Some && i == entries_in(lines).len() - 1 {
        let k = lines.len() - 1;
        assert(entry_in(lines[k], k + 1) == Some(entries_in(lines)[i]));
    } else {
        lemma_entry_from_line(rest, i);
        let k = choose|k: int|
            0 <= k < rest.len() && #[trigger] entry_in(rest[k], k + 1) == Some(
                entries_in(rest)[i],
            );
        assert(entry_in(lines[k], k + 1) == Some(entries_in(lines)[i]));
    }
}

/// Once packages were removed none of them is declared any more, so removing them again
/// changes nothing.
pub proof fn law_what_was_removed_is_gone(content: Seq<char>, targets: Seq<RemoveTarget>)
    requires
        plain(text::lines(content)),
        ({
            let stay = kept(text::lines(content), targets);
            content.last() == '\n' || (stay.len() > 0 ==> stay.last().len() > 0)
        }),
    ensures
        removed_in(text::lines(edited(content, targets)), targets).len() == 0,
{
    law_all_other_lines_are_kept(content, targets);
    let all = text::lines(content);
    let stay = kept(all, targets);
    let chosen = |e: EntryRow| is_target(targets, e);
    let entries = entries_in(stay);
    let gone = removed_in(stay, targets);
    if gone.len() > 0 {
        broadcast use vstd::seq_lib::group_filter_ensures;

        let e = gone[0];
        assert(gone.contains(e));
        entries.lemma_filter_contains_rev(chosen, e);
        let i = choose|i: int| 0 <= i < entries.len() && entries[i] == e;
        lemma_entry_from_line(stay, i);
        let k = choose|k: int|
            0 <= k < stay.len() && #[trigger] entry_in(stay[k], k + 1) == Some(entries[i]);
        lemma_kept_from(all, targets, k);
        lemma_number_aside(stay[k], 0, k + 1, targets);
    }
}

proof fn lemma_quoted(gap: Seq<char>, quote: char, full: Seq<char>, rest: Seq<char>)
    requires
        quote == '"' || quote == '\'',
        !gap.contains('"'),
        !gap.contains('\''),
        !full.contains(quote),
    ensures
        quoted_in(gap.push(quote) + (full.push(quote) + rest)) == Some(full),
{
    let behind = full.push(quote) + rest;
    let s = gap.push(quote) + behind;
    let n = gap.len() as int;
    text::lemma_first_index(s, '"');
    text::lemma_first_index(s, '\'');
    text::lemma_first_index(behind, quote);
    assert(s[n] == quote);
    assert forall|i: int| 0 <= i < n implies s[i] != '"' && s[i] != '\'' by {
        assert(s[i] == gap[i]);
        assert(gap.contains(gap[i]));
    }
    assert(s.contains(s[n]));
    assert(first_mark(s) == Some(n));
    assert(s.skip(n + 1) =~= behind);
    let m = full.len() as int;
    assert(behind[m] == quote);
    assert(behind.contains(behind[m]));
    let end = text::first_index(behind, quote)->0;
    if end < m {
        assert(behind[end] == full[end]);
        assert(full.contains(full[end]));
    }
    assert(behind.take(m) =~= full);
}

/// What stands in quotes behind the word for a kind is declared as a package of that kind: a tap
/// by the whole of it, anything else by what is behind its last slash.
pub proof fn law_a_declaration_is_read(
    indent: Seq<char>,
    word: Seq<char>,
    space: char,
    gap: Seq<char>,
    quote: char,
    full: Seq<char>,
    rest: Seq<char>,
    number: int,
)
    requires
        forall|i: int| 0 <= i < indent.len() ==> text::is_space(#[trigger] indent[i]),
        word == "brew"@ || word == "cask"@ || word == "tap"@,
        text::is_space(space),
        quote == '"' || quote == '\'',
        !gap.contains('"'),
        !gap.contains('\''),
        !full.contains(quote),
    ensures
        ({
            let line = indent + (word.push(space) + (gap.push(quote) + (full.push(quote) + rest)));
            entry_in(line, number) matches Some(e) && {
                &&& e.kind == (if word == "brew"@ {
                    EntryKind::Formula
                } else if word == "cask"@ {
                    EntryKind::Cask
                } else {
                    EntryKind::Tap
                })
                &&& e.full_name == full
                &&& e.raw == line
                &&& e.line_number == number
                &&& word == "tap"@ ==> e.name == full
                &&& word != "tap"@ ==> !e.name.contains('/') && (e.name == full || exists|
                    tap: Seq<char>,
                | full == #[trigger] tap.push('/') + e.name)
            }
        }),
{
    let behind = gap.push(quote) + (full.push(quote) + rest);
    let bare = word.push(space) + behind;
    reveal_strlit("brew");
    reveal_strlit("cask");
    reveal_strlit("tap");
    assert forall|i: int| 0 <= i < word.len() implies !text::is_space(#[trigger] word[i]) by {}
    assert(word.len() >= 3);
    assert("tap"@.len() == 3 && "brew"@.len() == 4 && "cask"@.len() == 4);
    assert("brew"@[0] == 'b' && "cask"@[0] == 'c');
    assert(bare[0] == word[0]);
    text::law_space_in_front_is_dropped(indent, bare);
    text::law_a_text_is_cut_at_its_first_space(word, space, behind);
    lemma_quoted(gap, quote, full, rest);
    text::law_a_cut_text_goes_together_again(full, '/');
    match text::cut_last(full, '/') {
        Some((tap, last)) => {
            paths::lemma_pieces_joined(tap, last, '/');
            text::lemma_one_line(last, '/');
            assert(unqualified(full) == last);
            assert(full == tap.push('/') + last);
        },
        None => {
            text::lemma_one_line(full, '/');
        },
    }
}

/// A comment declares nothing, whatever it holds, nor does a blank line.
pub proof fn law_a_comment_declares_nothing(indent: Seq<char>, rest: Seq<char>, number: int)
    requires
        forall|i: int| 0 <= i < indent.len() ==> text::is_space(#[trigger] indent[i]),
    ensures
        entry_in(indent + (seq!['#'] + rest), number) is None,
{
    let bare = seq!['#'] + rest;
    assert(bare[0] == '#');
    text::law_space_in_front_is_dropped(indent, bare);
}

/// Every line that declares a package is listed under its own number, and no other line is.
pub proof fn law_every_declaration_is_listed(lines: Seq<Seq<char>>, e: EntryRow)
    ensures
        entries_in(lines).contains(e) <==> exists|k: int|
            0 <= k < lines.len() && #[trigger] entry_in(lines[k], k + 1) == Some(e),
    decreases lines.len(),
{
    let all = entries_in(lines);
    if all.contains(e) {
        let i = choose|i: int| 0 <= i < all.len() && all[i] == e;
        lemma_entry_from_line(lines, i);
    }
    if exists|k: int| 0 <= k < lines.len() && #[trigger] entry_in(lines[k], k + 1) == Some(e) {
        let k = choose|k: int|
            0 <= k < lines.len() && #[trigger] entry_in(lines[k], k + 1) == Some(e);
        let front = lines.drop_last();
        let before = entries_in(front);
        if k == lines.len() - 1 {
            assert(all[before.len() as int] == e);
        } else {
            assert(front[k] == lines[k]);
            assert(entry_in(front[k], k + 1) == Some(e));
            law_every_declaration_is_listed(front, e);
            let i = choose|i: int| 0 <= i < before.len() && before[i] == e;
            assert(all[i] == e);
        }
    }
}

/// The lines that stay are those that do not declare a package of the kind and name of a target,
/// all of them, in order.
pub proof fn law_only_declared_targets_go(lines: Seq<Seq<char>>, targets: Seq<RemoveTarget>)
    ensures
        kept(lines, targets) == lines.filter(
            |line: Seq<char>|
                !(entry_in(line, 0) is Some && exists|i: int|
                    0 <= i < targets.len() && (#[trigger] targets[i]).kind == entry_in(
                        line,
                        0,
                    )->0.kind && targets[i].name@ == entry_in(line, 0)->0.name),
        ),
    decreases lines.len(),
{
    reveal(Seq::filter);
    let stays = |line: Seq<char>|
        !(entry_in(line, 0) is Some && exists|i: int|
            0 <= i < targets.len() && (#[trigger] targets[i]).kind == entry_in(line, 0)->0.kind
                && targets[i].name@ == entry_in(line, 0)->0.name);
    if lines.len() > 0 {
        let front = lines.drop_last();
        law_only_declared_targets_go(front, targets);
        assert(lines =~= front.push(lines.last()));
        front.lemma_filter_push(lines.last(), stays);
    }
}

/// The file that is taken is the first of the places that is one, and there is none exactly
/// where no place is one.
pub proof fn law_the_first_place_that_is_a_file_is_taken(
    places: Seq<(Seq<char>, BrewfileSource)>,
    files: Seq<Seq<char>>,
)
    ensures
        match first_file(places, files) {
            Some(p) => exists|k: int|
                {
                    &&& 0 <= k < places.len()
                    &&& #[trigger] places[k] == p
                    &&& files.contains(p.0)
                    &&& forall|i: int| 0 <= i < k ==> !files.contains((#[trigger] places[i]).0)
                },
            None => forall|i: int| 0 <= i < places.len() ==> !files.contains((#[trigger] places[i]).0),
        },
    decreases places.len(),
{
    if places.len() > 0 {
        let before = places.drop_last();
        law_the_first_place_that_is_a_file_is_taken(before, files);
        assert forall|i: int| 0 <= i < before.len() implies before[i] == #[trigger] places[i] by {}
        match first_file(before, files) {
            Some(p) => {
                let k = choose|k: int|
                    {
                        &&& 0 <= k < before.len()
                        &&& #[trigger] before[k] == p
                        &&& files.contains(p.0)
                        &&& forall|i: int| 0 <= i < k ==> !files.contains((#[trigger] before[i]).0)
                    };
                assert(places[k] == p);
                assert forall|i: int| 0 <= i < k implies !files.contains(
                    (#[trigger] places[i]).0,
                ) by {
                    assert(!files.contains(before[i].0));
                }
            },
            None => {
                assert forall|i: int| 0 <= i < before.len() implies !files.contains(
                    (#[trigger] places[i]).0,
                ) by {
                    assert(!files.contains(before[i].0));
                }
                let last = places.len() - 1;
                assert(places[last] == places.last());
            },
        }
    }
}

/// A Brewfile that was named goes before one in the working directory, that before one in the
/// home directory, and that before one in the configuration directory.
pub proof fn law_a_named_file_goes_first(env: Env, files: Seq<Seq<char>>)
    ensures
        ({
            let found = first_file(places_of(env), files);
            let named = env.bundle_file is Some && files.contains(env.bundle_file->0@);
            let here = env.cwd is Some && files.contains(paths::below(env.cwd->0@, "Brewfile"@));
            let hidden = env.home is Some && files.contains(
                paths::below(env.home->0@, ".Brewfile"@),
            );
            let home = env.home is Some && files.contains(paths::below(env.home->0@, "Brewfile"@));
            &&& named ==> found == Some((env.bundle_file->0@, BrewfileSource::Env))
            &&& !named && here ==> found == Some(
                (paths::below(env.cwd->0@, "Brewfile"@), BrewfileSource::Cwd),
            )
            &&& !named && !here && hidden ==> found == Some(
                (paths::below(env.home->0@, ".Brewfile"@), BrewfileSource::Home),
            )
            &&& !named && !here && !hidden && home ==> found == Some(
                (paths::below(env.home->0@, "Brewfile"@), BrewfileSource::Home),
            )
            &&& !named && !here && !hidden && !home && env.xdg_config_home is Some
                && files.contains(paths::below(env.xdg_config_home->0@, "homebrew/Brewfile"@))
                ==> found == Some(
                (
                    paths::below(env.xdg_config_home->0@, "homebrew/Brewfile"@),
                    BrewfileSource::Xdg,
                ),
            )
        }),
{
    let all = places_of(env);
    law_the_first_place_that_is_a_file_is_taken(all, files);
    let h = text_opt(env.home);
    let xdg = match text_opt(env.xdg_config_home) {
        Some(x) => Some(x),
        None => match h {
            Some(h) => Some(paths::below(h, ".config"@)),
            None => None,
        },
    };
    let a = match text_opt(env.bundle_file) {
        Some(p) => seq![(p, BrewfileSource::Env)],
        None => Seq::empty(),
    };
    let b = place(text_opt(env.cwd), "Brewfile"@, BrewfileSource::Cwd);
    let c = place(h, ".Brewfile"@, BrewfileSource::Home);
    let d = place(h, "Brewfile"@, BrewfileSource::Home);
    let e = place(xdg, "homebrew/Brewfile"@, BrewfileSource::Xdg);
    assert(all =~= a + b + c + d + e);
    let at_b = a.len() as int;
    let at_c = at_b + b.len();
    let at_d = at_c + c.len();
    let at_e = at_d + d.len();
    if a.len() > 0 {
        assert(all[0] == a[0]);
    }
    if b.len() > 0 {
        assert(all[at_b] == b[0]);
    }
    if c.len() > 0 {
        assert(all[at_c] == c[0]);
        assert(all[at_d] == d[0]);
    }
    if e.len() > 0 {
        assert(all[at_e] == e[0]);
    }
}

/// The copy that is kept of a file stands beside it, with an ending of its own.
pub proof fn law_the_backup_stands_beside_the_file(dir: Seq<char>, name: Seq<char>)
    requires
        dir.len() > 0,
        name.len() > 0,
        !name.contains('/'),
        paths::is_name(name),
    ensures
        backup_of(dir.push('/') + name) == dir.push('/') + name + ".bak"@,
{
    paths::law_names_side_by_side_are_apart(dir, name, name);
    let p = dir.push('/') + name;
    assert(name.contains(name.last()));
    assert(p.last() == name.last());
    if name.len() == 1 {
        assert(name =~= seq![name[0]]);
    } else {
        assert(p[p.len() - 2] == name[name.len() - 2]);
        assert(name.contains(name[name.len() - 2]));
    }
}

} // verus!
