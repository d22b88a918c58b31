//! What an app scatters outside its bundle.
use vstd::prelude::*;
use crate::apps::bundle;
use crate::apps::bundle::{extension_of, prefix_of, stem_of, vendor_of, AppBundle};
use crate::apps::plist;
use crate::json;
use crate::json::{json_of, text_at};
use crate::order;
use crate::order::Ranked;
use crate::paths;
use crate::text;
use crate::text::{text_opt, texts};

verus! {

/// How sure it is that an item belongs to this app and nothing else.
#[derive(Debug, Clone, Copy, PartialEq, Eq, Structural)]
pub enum Confidence {
    /// Named for the bundle id, or pointing into the bundle. Safe to remove.
    Exact,
    /// Named for the app or its vendor. A vendor folder is shared between all of that
    /// vendor's apps, so this is never removed without being asked for.
    Likely,
}

/// What a leftover is.
#[derive(Debug)]
pub enum Kind {
    Path(String),
    /// A launchd job: booted out before its property list is deleted.
    LaunchdJob { label: String, plist: String, domain: String },
    /// An installer receipt, forgotten via `pkgutil --forget`.
    Receipt(String),
}

/// Something an app leaves behind.
#[derive(Debug)]
pub struct Leftover {
    pub kind: Kind,
    pub reason: String,
    pub size: u64,
    pub confidence: Confidence,
    pub needs_root: bool,
}

/// What a leftover is.
pub ghost enum KindRow {
    Path(Seq<char>),
    Job { label: Seq<char>, plist: Seq<char>, domain: Seq<char> },
    Receipt(Seq<char>),
}

/// Something an app leaves behind.
pub ghost struct LeftoverRow {
    pub kind: KindRow,
    pub reason: Seq<char>,
    pub size: u64,
    pub confidence: Confidence,
    pub needs_root: bool,
}

/// The file that a leftover is, where it is one.
pub open spec fn target_of(kind: KindRow) -> Option<Seq<char>> {
    match kind {
        KindRow::Path(p) => Some(p),
        KindRow::Job { plist, .. } => Some(plist),
        KindRow::Receipt(_) => None,
    }
}

/// A leftover in words.
pub open spec fn display_of(kind: KindRow) -> Seq<char> {
    match kind {
        KindRow::Path(p) => p,
        KindRow::Job { label, .. } => "launchd job "@ + label,
        KindRow::Receipt(id) => "pkgutil receipt "@ + id,
    }
}

impl Kind {
    pub open spec fn row(self) -> KindRow {
        match self {
            Kind::Path(p) => KindRow::Path(p@),
            Kind::LaunchdJob { label, plist, domain } => KindRow::Job {
                label: label@,
                plist: plist@,
                domain: domain@,
            },
            Kind::Receipt(id) => KindRow::Receipt(id@),
        }
    }
}

impl Leftover {
    pub open spec fn row(self) -> LeftoverRow {
        LeftoverRow {
            kind: self.kind.row(),
            reason: self.reason@,
            size: self.size,
            confidence: self.confidence,
            needs_root: self.needs_root,
        }
    }

    /// The leftover in words.
    pub fn display(&self) -> (r: String)
        ensures
            r@ == display_of(self.row().kind),
    {
        match &self.kind {
            Kind::Path(p) => p.clone(),
            Kind::LaunchdJob { label, .. } => {
                let mut out: String = "launchd job ".to_owned();
                out.append(label.as_str());
                out
            },
            Kind::Receipt(id) => {
                let mut out: String = "pkgutil receipt ".to_owned();
                out.append(id.as_str());
                out
            },
        }
    }

    /// The file this leftover ultimately deletes, if it is a file at all.
    pub fn target_path(&self) -> (r: Option<&String>)
        ensures
            match r {
                Some(p) => target_of(self.row().kind) == Some(p@),
                None => target_of(self.row().kind) is None,
            },
    {
        match &self.kind {
            Kind::Path(p) => Some(p),
            Kind::LaunchdJob { plist, .. } => Some(plist),
            Kind::Receipt(_) => None,
        }
    }
}

/// What the leftovers of a list are.
pub open spec fn rows(v: Seq<Leftover>) -> Seq<LeftoverRow> {
    v.map_values(row_of())
}

/// What a leftover is.
pub open spec fn row_of() -> spec_fn(Leftover) -> LeftoverRow {
    |l: Leftover| l.row()
}

proof fn lemma_rows_push(v: Seq<Leftover>, l: Leftover)
    ensures
        rows(v.push(l)) == rows(v).push(l.row()),
{
    assert(rows(v.push(l)) =~= rows(v).push(l.row()));
}

/// Leftovers that are sure before those that are not, and among either the larger first.
pub open spec fn order_of() -> spec_fn(LeftoverRow, LeftoverRow) -> bool {
    |a: LeftoverRow, b: LeftoverRow|
        if a.confidence == b.confidence {
            a.size >= b.size
        } else {
            a.confidence is Exact
        }
}

impl Ranked for Leftover {
    open spec fn le(&self, other: &Self) -> bool {
        order_of()(self.row(), other.row())
    }

    proof fn le_total(a: &Self, b: &Self) {
    }

    proof fn le_transitive(a: &Self, b: &Self, c: &Self) {
    }

    fn leq(&self, other: &Self) -> (r: bool) {
        if self.confidence == other.confidence {
            self.size >= other.size
        } else {
            match self.confidence {
                Confidence::Exact => true,
                Confidence::Likely => false,
            }
        }
    }
}

/// An entry of a directory.
#[derive(Debug)]
pub struct Entry {
    pub name: String,
    /// What it holds. Nothing reads this of an entry that is not listed.
    pub size: u64,
    /// Where it points, for a symbolic link.
    pub link: Option<String>,
    /// What is in it, for a property list.
    pub plist: Option<serde_json::Value>,
}

/// A directory that could be listed.
#[derive(Debug)]
pub struct Folder {
    pub path: String,
    /// Whether entries can be removed from it without further rights.
    pub writable: bool,
    pub entries: Vec<Entry>,
}

/// What is at the path of a bundle.
#[derive(Debug, Clone, Copy)]
pub struct Measure {
    pub size: u64,
    pub needs_root: bool,
}

/// Where to search.
#[derive(Debug)]
pub struct Locations {
    pub libraries: Vec<String>,
    pub bin_dirs: Vec<String>,
    pub uid: u32,
}

/// The libraries of a machine: that of the user first.
pub open spec fn real_libraries(home: Option<Seq<char>>) -> Seq<Seq<char>> {
    match home {
        Some(h) => seq![paths::below(h, "Library"@), "/Library"@],
        None => seq!["/Library"@],
    }
}

/// Where commands are installed.
pub open spec fn real_bins() -> Seq<Seq<char>> {
    seq!["/usr/local/bin"@, "/opt/homebrew/bin"@, "/usr/local/sbin"@]
}

impl Locations {
    /// Where to search on a machine.
    pub fn real_places(home: &Option<String>, uid: u32) -> (r: Self)
        ensures
            texts(r.libraries@) == real_libraries(text_opt(*home)),
            texts(r.bin_dirs@) == real_bins(),
            r.uid == uid,
    {
        let mut libraries: Vec<String> = Vec::new();
        if let Some(h) = home {
            libraries.push(paths::join(h, "Library"));
        }
        libraries.push("/Library".to_owned());
        assert(texts(libraries@) =~= real_libraries(text_opt(*home)));
        let bin_dirs: Vec<String> = vec![
            "/usr/local/bin".to_owned(),
            "/opt/homebrew/bin".to_owned(),
            "/usr/local/sbin".to_owned(),
        ];
        assert(texts(bin_dirs@) =~= real_bins());
        Locations { libraries, bin_dirs, uid }
    }
}

/// Directories searched under each library.
pub open spec fn library_subdirs() -> Seq<Seq<char>> {
    seq![
        "Application Support"@,
        "Application Scripts"@,
        "Autosave Information"@,
        "Caches"@,
        "Containers"@,
        "Cookies"@,
        "Group Containers"@,
        "HTTPStorages"@,
        "Internet Plug-Ins"@,
        "Logs"@,
        "Preferences"@,
        "Preferences/ByHost"@,
        "PrivilegedHelperTools"@,
        "Saved Application State"@,
        "WebKit"@,
    ]
}

/// Where a vendor drops a folder named for itself rather than a bundle id.
pub open spec fn vendor_subdirs() -> Seq<Seq<char>> {
    seq!["Application Support"@, "Caches"@, "Logs"@, "Preferences"@]
}

/// Where launchd jobs are.
pub open spec fn launchd_subdirs() -> Seq<Seq<char>> {
    seq!["LaunchAgents"@, "LaunchDaemons"@]
}

fn list_library_subdirs() -> (r: Vec<String>)
    ensures
        texts(r@) == library_subdirs(),
{
    let v: Vec<String> = vec![
        "Application Support".to_owned(),
        "Application Scripts".to_owned(),
        "Autosave Information".to_owned(),
        "Caches".to_owned(),
        "Containers".to_owned(),
        "Cookies".to_owned(),
        "Group Containers".to_owned(),
        "HTTPStorages".to_owned(),
        "Internet Plug-Ins".to_owned(),
        "Logs".to_owned(),
        "Preferences".to_owned(),
        "Preferences/ByHost".to_owned(),
        "PrivilegedHelperTools".to_owned(),
        "Saved Application State".to_owned(),
        "WebKit".to_owned(),
    ];
    assert(texts(v@) =~= library_subdirs());
    v
}

fn list_vendor_subdirs() -> (r: Vec<String>)
    ensures
        texts(r@) == vendor_subdirs(),
{
    let v: Vec<String> = vec![
        "Application Support".to_owned(),
        "Caches".to_owned(),
        "Logs".to_owned(),
        "Preferences".to_owned(),
    ];
    assert(texts(v@) =~= vendor_subdirs());
    v
}

fn list_launchd_subdirs() -> (r: Vec<String>)
    ensures
        texts(r@) == launchd_subdirs(),
{
    let v: Vec<String> = vec!["LaunchAgents".to_owned(), "LaunchDaemons".to_owned()];
    assert(texts(v@) =~= launchd_subdirs());
    v
}

/// An entry without the extension that says what sort of file it is.
pub open spec fn bare_stem(entry: Seq<char>) -> Seq<char> {
    match text::ahead_of(entry, ".plist"@) {
        Some(s) => s,
        None => match text::ahead_of(entry, ".binarycookies"@) {
            Some(s) => s,
            None => match text::ahead_of(entry, ".savedState"@) {
                Some(s) => s,
                None => match text::ahead_of(entry, ".sfl3"@) {
                    Some(s) => s,
                    None => match text::ahead_of(entry, ".sfl2"@) {
                        Some(s) => s,
                        None => entry,
                    },
                },
            },
        },
    }
}

/// Ten capital letters or digits, as teams are numbered.
pub open spec fn is_team(s: Seq<char>) -> bool {
    &&& s.len() == 10
    &&& forall|i: int|
        0 <= i < s.len() ==> ('A' <= #[trigger] s[i] <= 'Z') || ('0' <= s[i] <= '9')
}

/// A name without the prefix that a container carries, where it has one.
pub open spec fn peeled(s: Seq<char>) -> Option<Seq<char>> {
    match text::behind(s, "group."@) {
        Some(rest) => Some(rest),
        None => match text::cut_first(s, '.') {
            Some((first, rest)) => if is_team(first) {
                Some(rest)
            } else {
                None
            },
            None => None,
        },
    }
}

/// A name is an id or is derived from it.
pub open spec fn derives(name: Seq<char>, id: Seq<char>) -> bool {
    name == id || (id + "."@).is_prefix_of(name)
}

/// An entry is named for an id, up to two prefixes that containers carry aside.
pub open spec fn named_for(entry: Seq<char>, id: Seq<char>) -> bool {
    let stem = bare_stem(entry);
    ||| derives(stem, id)
    ||| match peeled(stem) {
        None => false,
        Some(once) => derives(once, id) || match peeled(once) {
            None => false,
            Some(twice) => derives(twice, id),
        },
    }
}

fn strip_kind(entry: &str) -> (r: String)
    ensures
        r@ == bare_stem(entry@),
{
    match text::strip_suffix(entry, ".plist") {
        Some(s) => {
            return s;
        },
        None => {},
    }
    match text::strip_suffix(entry, ".binarycookies") {
        Some(s) => {
            return s;
        },
        None => {},
    }
    match text::strip_suffix(entry, ".savedState") {
        Some(s) => {
            return s;
        },
        None => {},
    }
    match text::strip_suffix(entry, ".sfl3") {
        Some(s) => {
            return s;
        },
        None => {},
    }
    match text::strip_suffix(entry, ".sfl2") {
        Some(s) => s,
        None => entry.to_owned(),
    }
}

fn is_team_id(s: &str) -> (r: bool)
    ensures
        r == is_team(s@),
{
    let chars = text::chars_of(s);
    if chars.len() != 10 {
        return false;
    }
    for i in 0..chars.len()
        invariant
            chars@ == s@,
            forall|j: int|
                0 <= j < i ==> ('A' <= #[trigger] s@[j] <= 'Z') || ('0' <= s@[j] <= '9'),
    {
        let c = chars[i];
        if !(('A' <= c && c <= 'Z') || ('0' <= c && c <= '9')) {
            assert(s@[i as int] == c);
            return false;
        }
    }
    true
}

fn peel(s: &str) -> (r: Option<String>)
    ensures
        text_opt(r) == peeled(s@),
{
    match text::strip_prefix(s, "group.") {
        Some(rest) => Some(rest),
        None => match text::split_once(s, '.') {
            Some((first, rest)) => if is_team_id(&first) {
                Some(rest)
            } else {
                None
            },
            None => None,
        },
    }
}

/// True when `entry` is the bundle id, or a file or folder derived from it.
/// `com.foo.bar` matches `com.foo.bar.plist` and `com.foo.bar.helper`, but never
/// `com.foo.barbaz`.
pub fn matches_id(entry: &str, id: &str) -> (r: bool)
    ensures
        r == named_for(entry@, id@),
{
    let stem = strip_kind(entry);
    let mut prefix: String = id.to_owned();
    prefix.append(".");
    if text::same(&stem, id) || text::starts_with(&stem, &prefix) {
        return true;
    }
    match peel(&stem) {
        None => false,
        Some(once) => {
            if text::same(&once, id) || text::starts_with(&once, &prefix) {
                return true;
            }
            match peel(&once) {
                None => false,
                Some(twice) => text::same(&twice, id) || text::starts_with(&twice, &prefix),
            }
        },
    }
}

/// The ways entries are looked at.
#[derive(Debug, Clone, Copy, PartialEq, Eq, Structural)]
pub enum Pass {
    /// Data named for the bundle id.
    ById,
    /// Launchd jobs named for the bundle id or running a binary of the bundle.
    Jobs,
    /// Commands that are links into the bundle.
    Links,
    /// Data named for the app or its vendor.
    Vendor,
    /// Data in the vendor's namespace. Helpers a vendor ships alongside the app share it
    /// but are not derived from the bundle id; it is also how one vendor's other
    /// products look, so weak.
    Namespace,
    /// Launchd jobs in the vendor's namespace.
    NamespaceJobs,
}

/// The session a launchd job belongs to.
pub open spec fn domain_of(sub: Seq<char>, uid: u32) -> Seq<char> {
    if sub == "LaunchDaemons"@ {
        "system"@
    } else {
        "gui/"@ + text::decimal(uid as nat)
    }
}

/// The path of an entry.
pub open spec fn entry_path(f: Folder, e: Entry) -> Seq<char> {
    paths::below(f.path@, e.name@)
}

/// An entry as a leftover.
pub open spec fn path_row(f: Folder, e: Entry, reason: Seq<char>, confidence: Confidence) -> LeftoverRow {
    LeftoverRow {
        kind: KindRow::Path(entry_path(f, e)),
        reason,
        size: e.size,
        confidence,
        needs_root: !f.writable,
    }
}

/// The label of a launchd job: what its property list says, else its name.
pub open spec fn job_label(f: Folder, e: Entry) -> Seq<char> {
    match e.plist {
        Some(v) => match text_at(json_of(v), "Label"@) {
            Some(label) => label,
            None => stem_of(entry_path(f, e)),
        },
        None => stem_of(entry_path(f, e)),
    }
}

/// A launchd job as a leftover.
pub open spec fn job_row(
    f: Folder,
    e: Entry,
    domain: Seq<char>,
    reason: Seq<char>,
    confidence: Confidence,
) -> LeftoverRow {
    LeftoverRow {
        kind: KindRow::Job { label: job_label(f, e), plist: entry_path(f, e), domain },
        reason,
        size: e.size,
        confidence,
        needs_root: !f.writable,
    }
}

/// A launchd job runs a binary of the bundle.
pub open spec fn runs_bundle(e: Entry, bundle: Seq<char>) -> bool {
    match e.plist {
        Some(v) => any_under(plist::programs_in(json_of(v)), bundle),
        None => false,
    }
}

/// One of the paths lies at or under a directory.
pub open spec fn any_under(v: Seq<Seq<char>>, base: Seq<char>) -> bool {
    exists|i: int| 0 <= i < v.len() && paths::is_under(#[trigger] v[i], base)
}

/// An entry is named for the id, where there is one.
pub open spec fn named_for_id(e: Entry, id: Option<Seq<char>>) -> bool {
    match id {
        Some(id) => named_for(e.name@, id),
        None => false,
    }
}

/// Why an entry is taken for the app's or its vendor's, where it is.
pub open spec fn vendor_reason(app: AppBundle, name: Seq<char>) -> Option<Seq<char>> {
    let bare = match text::ahead_of(name, ".plist"@) {
        Some(s) => s,
        None => name,
    };
    let stem = text::lowercase(bare);
    if stem == text::lowercase(app.name@) {
        Some("named for the app '"@ + app.name@ + "'"@)
    } else {
        match vendor_of(text_opt(app.bundle_id)) {
            Some(v) => if stem == v {
                Some("named for vendor '"@ + v + "', which its other apps may share"@)
            } else {
                None
            },
            None => None,
        }
    }
}

/// Why an entry of the vendor's namespace is listed.
pub open spec fn namespace_reason(prefix: Seq<char>) -> Seq<char> {
    "in the "@ + prefix + " namespace, which the vendor's other apps also use"@
}

/// A leftover is the file at a path.
pub open spec fn is_at(row: LeftoverRow, path: Seq<char>) -> bool {
    match target_of(row.kind) {
        Some(p) => paths::same_path(p, path),
        None => false,
    }
}

/// One of the leftovers is the file at a path.
pub open spec fn already(out: Seq<LeftoverRow>, path: Seq<char>) -> bool {
    exists|i: int| 0 <= i < out.len() && is_at(#[trigger] out[i], path)
}

/// What looking at an entry adds, where it adds anything.
pub open spec fn sighted(
    pass: Pass,
    app: AppBundle,
    uid: u32,
    sub: Seq<char>,
    f: Folder,
    e: Entry,
    out: Seq<LeftoverRow>,
) -> Option<LeftoverRow> {
    let id = text_opt(app.bundle_id);
    let path = entry_path(f, e);
    let is_plist = extension_of(path) == Some("plist"@);
    match pass {
        Pass::ById => match id {
            Some(id) => if named_for(e.name@, id) {
                Some(path_row(f, e, "named for bundle id "@ + id, Confidence::Exact))
            } else {
                None
            },
            None => None,
        },
        Pass::Jobs => if !is_plist {
            None
        } else if runs_bundle(e, app.path@) {
            Some(
                job_row(
                    f,
                    e,
                    domain_of(sub, uid),
                    "launchd job running a binary inside the bundle"@,
                    Confidence::Exact,
                ),
            )
        } else if named_for_id(e, id) {
            Some(
                job_row(
                    f,
                    e,
                    domain_of(sub, uid),
                    "launchd job named for the bundle id"@,
                    Confidence::Exact,
                ),
            )
        } else {
            None
        },
        Pass::Links => match e.link {
            Some(t) => if paths::is_under(t@, app.path@) {
                Some(path_row(f, e, "symlink into the bundle"@, Confidence::Exact))
            } else {
                None
            },
            None => None,
        },
        Pass::Vendor => match vendor_reason(app, e.name@) {
            Some(reason) => if already(out, path) {
                None
            } else {
                Some(path_row(f, e, reason, Confidence::Likely))
            },
            None => None,
        },
        Pass::Namespace => match prefix_of(id) {
            Some(prefix) => if named_for(e.name@, prefix) && !already(out, path) {
                Some(path_row(f, e, namespace_reason(prefix), Confidence::Likely))
            } else {
                None
            },
            None => None,
        },
        Pass::NamespaceJobs => match prefix_of(id) {
            Some(prefix) => if is_plist && named_for(e.name@, prefix) && !already(out, path) {
                Some(
                    job_row(
                        f,
                        e,
                        domain_of(sub, uid),
                        namespace_reason(prefix),
                        Confidence::Likely,
                    ),
                )
            } else {
                None
            },
            None => None,
        },
    }
}

/// What there is once one more may have been added.
pub open spec fn plus(out: Seq<LeftoverRow>, one: Option<LeftoverRow>) -> Seq<LeftoverRow> {
    match one {
        Some(row) => out.push(row),
        None => out,
    }
}

/// What there is once the entries of a folder were looked at in order.
pub open spec fn over_entries(
    pass: Pass,
    app: AppBundle,
    uid: u32,
    sub: Seq<char>,
    f: Folder,
    entries: Seq<Entry>,
    out: Seq<LeftoverRow>,
) -> Seq<LeftoverRow>
    decreases entries.len(),
{
    if entries.len() == 0 {
        out
    } else {
        let before = over_entries(pass, app, uid, sub, f, entries.drop_last(), out);
        plus(before, sighted(pass, app, uid, sub, f, entries.last(), before))
    }
}

/// The first folder with a path.
pub open spec fn folder_at(disk: Seq<Folder>, path: Seq<char>) -> Option<Folder>
    decreases disk.len(),
{
    if disk.len() == 0 {
        None
    } else {
        match folder_at(disk.drop_last(), path) {
            Some(f) => Some(f),
            None => if disk.last().path@ == path {
                Some(disk.last())
            } else {
                None
            },
        }
    }
}

/// What there is once a directory was looked at. One that could not be listed adds
/// nothing.
pub open spec fn over_folder(
    pass: Pass,
    app: AppBundle,
    uid: u32,
    sub: Seq<char>,
    disk: Seq<Folder>,
    dir: Seq<char>,
    out: Seq<LeftoverRow>,
) -> Seq<LeftoverRow> {
    match folder_at(disk, dir) {
        Some(f) => over_entries(pass, app, uid, sub, f, f.entries@, out),
        None => out,
    }
}

/// What there is once directories of a library were looked at.
pub open spec fn over_subs(
    pass: Pass,
    app: AppBundle,
    uid: u32,
    disk: Seq<Folder>,
    library: Seq<char>,
    subs: Seq<Seq<char>>,
    out: Seq<LeftoverRow>,
) -> Seq<LeftoverRow>
    decreases subs.len(),
{
    if subs.len() == 0 {
        out
    } else {
        let before = over_subs(pass, app, uid, disk, library, subs.drop_last(), out);
        let sub = subs.last();
        over_folder(pass, app, uid, sub, disk, paths::below(library, sub), before)
    }
}

/// What there is once libraries were searched for what is surely the app's.
pub open spec fn strong(
    app: AppBundle,
    uid: u32,
    disk: Seq<Folder>,
    libraries: Seq<Seq<char>>,
    out: Seq<LeftoverRow>,
) -> Seq<LeftoverRow>
    decreases libraries.len(),
{
    if libraries.len() == 0 {
        out
    } else {
        let before = strong(app, uid, disk, libraries.drop_last(), out);
        let lib = libraries.last();
        let data = over_subs(Pass::ById, app, uid, disk, lib, library_subdirs(), before);
        over_subs(Pass::Jobs, app, uid, disk, lib, launchd_subdirs(), data)
    }
}

/// What there is once libraries were searched for what may be the app's.
pub open spec fn weak(
    app: AppBundle,
    uid: u32,
    disk: Seq<Folder>,
    libraries: Seq<Seq<char>>,
    out: Seq<LeftoverRow>,
) -> Seq<LeftoverRow>
    decreases libraries.len(),
{
    if libraries.len() == 0 {
        out
    } else {
        let before = weak(app, uid, disk, libraries.drop_last(), out);
        let lib = libraries.last();
        let named = over_subs(Pass::Vendor, app, uid, disk, lib, vendor_subdirs(), before);
        let data = over_subs(Pass::Namespace, app, uid, disk, lib, library_subdirs(), named);
        over_subs(Pass::NamespaceJobs, app, uid, disk, lib, launchd_subdirs(), data)
    }
}

/// What there is once the directories of commands were looked at.
pub open spec fn links(
    app: AppBundle,
    disk: Seq<Folder>,
    dirs: Seq<Seq<char>>,
    out: Seq<LeftoverRow>,
) -> Seq<LeftoverRow>
    decreases dirs.len(),
{
    if dirs.len() == 0 {
        out
    } else {
        let before = links(app, disk, dirs.drop_last(), out);
        over_folder(Pass::Links, app, 0, ""@, disk, dirs.last(), before)
    }
}

/// The receipt that a line lists, where it is one of the app's.
pub open spec fn receipt_in(line: Seq<char>, id: Seq<char>) -> Option<LeftoverRow> {
    let pkg = text::trimmed(line);
    if pkg.len() > 0 && (named_for(pkg, id) || named_for(id, pkg)) {
        Some(
            LeftoverRow {
                kind: KindRow::Receipt(pkg),
                reason: "installer receipt for "@ + id,
                size: 0,
                confidence: Confidence::Exact,
                needs_root: true,
            },
        )
    } else {
        None
    }
}

/// What there is once receipts were looked at.
pub open spec fn receipts(lines: Seq<Seq<char>>, id: Seq<char>, out: Seq<LeftoverRow>) -> Seq<
    LeftoverRow,
>
    decreases lines.len(),
{
    if lines.len() == 0 {
        out
    } else {
        plus(receipts(lines.drop_last(), id, out), receipt_in(lines.last(), id))
    }
}

/// The bundle itself as a leftover.
pub open spec fn bundle_row(path: Seq<char>, m: Measure) -> LeftoverRow {
    LeftoverRow {
        kind: KindRow::Path(path),
        reason: "the application bundle"@,
        size: m.size,
        confidence: Confidence::Exact,
        needs_root: m.needs_root,
    }
}

/// What is surely the app's: its bundle, what is named for it or runs it, commands that
/// point into it, and its receipts.
pub open spec fn sure(
    app: AppBundle,
    libraries: Seq<Seq<char>>,
    bins: Seq<Seq<char>>,
    uid: u32,
    disk: Seq<Folder>,
    bundle: Option<Measure>,
    pkgs: Option<Seq<char>>,
) -> Seq<LeftoverRow> {
    let first = match bundle {
        Some(m) => seq![bundle_row(app.path@, m)],
        None => Seq::empty(),
    };
    let linked = links(app, disk, bins, strong(app, uid, disk, libraries, first));
    match (text_opt(app.bundle_id), pkgs) {
        (Some(id), Some(raw)) => receipts(text::lines(raw), id, linked),
        _ => linked,
    }
}

/// Everything that is found, weak matches last, so that an exact hit on the same path
/// comes first.
pub open spec fn gathered(
    app: AppBundle,
    libraries: Seq<Seq<char>>,
    bins: Seq<Seq<char>>,
    uid: u32,
    disk: Seq<Folder>,
    bundle: Option<Measure>,
    pkgs: Option<Seq<char>>,
) -> Seq<LeftoverRow> {
    weak(app, uid, disk, libraries, sure(app, libraries, bins, uid, disk, bundle, pkgs))
}

fn already_found(out: &Vec<Leftover>, path: &str) -> (r: bool)
    ensures
        r == already(rows(out@), path@),
{
    for i in 0..out.len()
        invariant
            forall|j: int| 0 <= j < i ==> !is_at(#[trigger] rows(out@)[j], path@),
    {
        assert(rows(out@)[i as int] == out@[i as int].row());
        if let Some(p) = out[i].target_path() {
            if paths::same(p, path) {
                assert(is_at(rows(out@)[i as int], path@));
                return true;
            }
        }
    }
    false
}

fn launchd_domain(sub: &str, uid: u32) -> (r: String)
    ensures
        r@ == domain_of(sub@, uid),
{
    if text::same(sub, "LaunchDaemons") {
        "system".to_owned()
    } else {
        let mut out: String = "gui/".to_owned();
        let n = text::dec(uid as u64);
        out.append(n.as_str());
        out
    }
}

fn path_leftover(f: &Folder, e: &Entry, reason: String, confidence: Confidence) -> (r: Leftover)
    ensures
        r.row() == path_row(*f, *e, reason@, confidence),
{
    Leftover {
        kind: Kind::Path(paths::join(&f.path, &e.name)),
        reason,
        size: e.size,
        confidence,
        needs_root: !f.writable,
    }
}

fn label_for(f: &Folder, e: &Entry) -> (r: String)
    ensures
        r@ == job_label(*f, *e),
{
    let path = paths::join(&f.path, &e.name);
    match &e.plist {
        Some(v) => match json::get_text(v, "Label") {
            Some(label) => label.to_owned(),
            None => bundle::stem(&path),
        },
        None => bundle::stem(&path),
    }
}

fn job(f: &Folder, e: &Entry, domain: String, reason: String, confidence: Confidence) -> (r:
    Leftover)
    ensures
        r.row() == job_row(*f, *e, domain@, reason@, confidence),
{
    Leftover {
        kind: Kind::LaunchdJob {
            label: label_for(f, e),
            plist: paths::join(&f.path, &e.name),
            domain,
        },
        reason,
        size: e.size,
        confidence,
        needs_root: !f.writable,
    }
}

fn runs_inside(e: &Entry, bundle: &str) -> (r: bool)
    ensures
        r == runs_bundle(*e, bundle@),
{
    match &e.plist {
        None => false,
        Some(v) => {
            let programs = plist::program_paths(v);
            let ghost all = plist::programs_in(json_of(*v));
            for i in 0..programs.len()
                invariant
                    texts(programs@) == all,
                    e.plist == Some(*v),
                    all == plist::programs_in(json_of(*v)),
                    forall|j: int| 0 <= j < i ==> !paths::is_under(#[trigger] all[j], bundle@),
            {
                assert(programs@[i as int]@ == all[i as int]);
                if paths::starts_with(&programs[i], bundle) {
                    assert(paths::is_under(all[i as int], bundle@));
                    return true;
                }
            }
            assert(all.len() == programs@.len());
            false
        },
    }
}

fn is_named_for_id(e: &Entry, id: &Option<String>) -> (r: bool)
    ensures
        r == named_for_id(*e, text_opt(*id)),
{
    match id {
        Some(id) => matches_id(&e.name, id),
        None => false,
    }
}

fn reason_for_vendor(app: &AppBundle, name: &str) -> (r: Option<String>)
    ensures
        text_opt(r) == vendor_reason(*app, name@),
{
    let bare = match text::strip_suffix(name, ".plist") {
        Some(s) => s,
        None => name.to_owned(),
    };
    let stem = text::to_lowercase(&bare);
    let wanted = text::to_lowercase(&app.name);
    if text::same(&stem, &wanted) {
        let mut out: String = "named for the app '".to_owned();
        out.append(app.name.as_str());
        out.append("'");
        return Some(out);
    }
    match app.vendor() {
        Some(v) => {
            if text::same(&stem, &v) {
                let mut out: String = "named for vendor '".to_owned();
                out.append(v.as_str());
                out.append("', which its other apps may share");
                Some(out)
            } else {
                None
            }
        },
        None => None,
    }
}

fn reason_for_namespace(prefix: &str) -> (r: String)
    ensures
        r@ == namespace_reason(prefix@),
{
    let mut out: String = "in the ".to_owned();
    out.append(prefix);
    out.append(" namespace, which the vendor's other apps also use");
    out
}

/// Whether an entry with a name can be listed for what it is called, so that what it
/// holds has to be known.
pub fn concerns(app: &AppBundle, name: &str) -> (r: bool)
    ensures
        r == ((match text_opt(app.bundle_id) {
            Some(id) => named_for(name@, id),
            None => false,
        }) || (match prefix_of(text_opt(app.bundle_id)) {
            Some(prefix) => named_for(name@, prefix),
            None => false,
        }) || vendor_reason(*app, name@) is Some),
{
    if let Some(id) = &app.bundle_id {
        if matches_id(name, id) {
            return true;
        }
    }
    if let Some(prefix) = app.vendor_prefix() {
        if matches_id(name, &prefix) {
            return true;
        }
    }
    reason_for_vendor(app, name).is_some()
}

fn look(
    pass: Pass,
    app: &AppBundle,
    uid: u32,
    sub: &str,
    f: &Folder,
    e: &Entry,
    out: &Vec<Leftover>,
) -> (r: Option<Leftover>)
    ensures
        match r {
            Some(l) => sighted(pass, *app, uid, sub@, *f, *e, rows(out@)) == Some(l.row()),
            None => sighted(pass, *app, uid, sub@, *f, *e, rows(out@)) is None,
        },
{
    let path = paths::join(&f.path, &e.name);
    match pass {
        Pass::ById => match &app.bundle_id {
            Some(id) => {
                if matches_id(&e.name, id) {
                    let mut reason: String = "named for bundle id ".to_owned();
                    reason.append(id.as_str());
                    Some(path_leftover(f, e, reason, Confidence::Exact))
                } else {
                    None
                }
            },
            None => None,
        },
        Pass::Jobs => {
            if !bundle::has_extension(&path, "plist") {
                return None;
            }
            let by_id = is_named_for_id(e, &app.bundle_id);
            let by_program = runs_inside(e, &app.path);
            if by_program {
                let reason: String = "launchd job running a binary inside the bundle".to_owned();
                let domain = launchd_domain(sub, uid);
                Some(job(f, e, domain, reason, Confidence::Exact))
            } else if by_id {
                let reason: String = "launchd job named for the bundle id".to_owned();
                let domain = launchd_domain(sub, uid);
                Some(job(f, e, domain, reason, Confidence::Exact))
            } else {
                None
            }
        },
        Pass::Links => match &e.link {
            Some(t) => {
                if paths::starts_with(t, &app.path) {
                    let reason: String = "symlink into the bundle".to_owned();
                    Some(path_leftover(f, e, reason, Confidence::Exact))
                } else {
                    None
                }
            },
            None => None,
        },
        Pass::Vendor => match reason_for_vendor(app, &e.name) {
            Some(reason) => {
                if already_found(out, &path) {
                    None
                } else {
                    Some(path_leftover(f, e, reason, Confidence::Likely))
                }
            },
            None => None,
        },
        Pass::Namespace => match app.vendor_prefix() {
            Some(prefix) => {
                if matches_id(&e.name, &prefix) && !already_found(out, &path) {
                    let reason = reason_for_namespace(&prefix);
                    Some(path_leftover(f, e, reason, Confidence::Likely))
                } else {
                    None
                }
            },
            None => None,
        },
        Pass::NamespaceJobs => match app.vendor_prefix() {
            Some(prefix) => {
                if bundle::has_extension(&path, "plist") && matches_id(&e.name, &prefix)
                    && !already_found(out, &path) {
                    let reason = reason_for_namespace(&prefix);
                    let domain = launchd_domain(sub, uid);
                    Some(job(f, e, domain, reason, Confidence::Likely))
                } else {
                    None
                }
            },
            None => None,
        },
    }
}

proof fn lemma_folder_prefix(disk: Seq<Folder>, path: Seq<char>, n: int)
    requires
        0 <= n <= disk.len(),
        folder_at(disk.take(n), path) is Some,
    ensures
        folder_at(disk, path) == folder_at(disk.take(n), path),
    decreases disk.len() - n,
{
    if n == disk.len() {
        assert(disk.take(n) =~= disk);
    } else {
        assert(disk.take(n + 1).drop_last() =~= disk.take(n));
        lemma_folder_prefix(disk, path, n + 1);
    }
}

fn find_folder<'a>(disk: &'a Vec<Folder>, path: &str) -> (r: Option<&'a Folder>)
    ensures
        match r {
            Some(f) => folder_at(disk@, path@) == Some(*f),
            None => folder_at(disk@, path@) is None,
        },
{
    for i in 0..disk.len()
        invariant
            folder_at(disk@.take(i as int), path@) is None,
    {
        assert(disk@.take(i + 1).drop_last() =~= disk@.take(i as int));
        if text::same(&disk[i].path, path) {
            proof {
                lemma_folder_prefix(disk@, path@, i + 1);
            }
            return Some(&disk[i]);
        }
    }
    assert(disk@.take(disk@.len() as int) =~= disk@);
    None
}

fn collect_folder(
    pass: Pass,
    app: &AppBundle,
    uid: u32,
    sub: &str,
    disk: &Vec<Folder>,
    dir: &str,
    out: &mut Vec<Leftover>,
)
    ensures
        rows(final(out)@) == over_folder(pass, *app, uid, sub@, disk@, dir@, rows(old(out)@)),
{
    let ghost first = rows(out@);
    if let Some(f) = find_folder(disk, dir) {
        let ghost all = f.entries@;
        for i in 0..f.entries.len()
            invariant
                all == f.entries@,
                rows(out@) == over_entries(
                    pass,
                    *app,
                    uid,
                    sub@,
                    *f,
                    all.take(i as int),
                    first,
                ),
        {
            assert(all.take(i + 1).drop_last() =~= all.take(i as int));
            let ghost before = out@;
            if let Some(l) = look(pass, app, uid, sub, f, &f.entries[i], out) {
                proof {
                    lemma_rows_push(before, l);
                }
                out.push(l);
            }
        }
        assert(all.take(all.len() as int) =~= all);
    }
}

fn collect_subs(
    pass: Pass,
    app: &AppBundle,
    uid: u32,
    disk: &Vec<Folder>,
    library: &str,
    subs: &Vec<String>,
    out: &mut Vec<Leftover>,
)
    ensures
        rows(final(out)@) == over_subs(
            pass,
            *app,
            uid,
            disk@,
            library@,
            texts(subs@),
            rows(old(out)@),
        ),
{
    let ghost first = rows(out@);
    let ghost all = texts(subs@);
    for i in 0..subs.len()
        invariant
            all == texts(subs@),
            rows(out@) == over_subs(pass, *app, uid, disk@, library@, all.take(i as int), first),
    {
        assert(all.take(i + 1).drop_last() =~= all.take(i as int));
        assert(all[i as int] == subs@[i as int]@);
        let dir = paths::join(library, &subs[i]);
        collect_folder(pass, app, uid, &subs[i], disk, &dir, out);
    }
    assert(all.take(all.len() as int) =~= all);
}

fn collect_strong(
    app: &AppBundle,
    uid: u32,
    disk: &Vec<Folder>,
    libraries: &Vec<String>,
    out: &mut Vec<Leftover>,
)
    ensures
        rows(final(out)@) == strong(*app, uid, disk@, texts(libraries@), rows(old(out)@)),
{
    let ghost first = rows(out@);
    let ghost all = texts(libraries@);
    let data = list_library_subdirs();
    let jobs = list_launchd_subdirs();
    for i in 0..libraries.len()
        invariant
            all == texts(libraries@),
            texts(data@) == library_subdirs(),
            texts(jobs@) == launchd_subdirs(),
            rows(out@) == strong(*app, uid, disk@, all.take(i as int), first),
    {
        assert(all.take(i + 1).drop_last() =~= all.take(i as int));
        assert(all[i as int] == libraries@[i as int]@);
        collect_subs(Pass::ById, app, uid, disk, &libraries[i], &data, out);
        collect_subs(Pass::Jobs, app, uid, disk, &libraries[i], &jobs, out);
    }
    assert(all.take(all.len() as int) =~= all);
}

fn collect_weak(
    app: &AppBundle,
    uid: u32,
    disk: &Vec<Folder>,
    libraries: &Vec<String>,
    out: &mut Vec<Leftover>,
)
    ensures
        rows(final(out)@) == weak(*app, uid, disk@, texts(libraries@), rows(old(out)@)),
{
    let ghost first = rows(out@);
    let ghost all = texts(libraries@);
    let vendor = list_vendor_subdirs();
    let data = list_library_subdirs();
    let jobs = list_launchd_subdirs();
    for i in 0..libraries.len()
        invariant
            all == texts(libraries@),
            texts(vendor@) == vendor_subdirs(),
            texts(data@) == library_subdirs(),
            texts(jobs@) == launchd_subdirs(),
            rows(out@) == weak(*app, uid, disk@, all.take(i as int), first),
    {
        assert(all.take(i + 1).drop_last() =~= all.take(i as int));
        assert(all[i as int] == libraries@[i as int]@);
        collect_subs(Pass::Vendor, app, uid, disk, &libraries[i], &vendor, out);
        collect_subs(Pass::Namespace, app, uid, disk, &libraries[i], &data, out);
        collect_subs(Pass::NamespaceJobs, app, uid, disk, &libraries[i], &jobs, out);
    }
    assert(all.take(all.len() as int) =~= all);
}

fn collect_bin_symlinks(
    app: &AppBundle,
    disk: &Vec<Folder>,
    dirs: &Vec<String>,
    out: &mut Vec<Leftover>,
)
    ensures
        rows(final(out)@) == links(*app, disk@, texts(dirs@), rows(old(out)@)),
{
    let ghost first = rows(out@);
    let ghost all = texts(dirs@);
    for i in 0..dirs.len()
        invariant
            all == texts(dirs@),
            rows(out@) == links(*app, disk@, all.take(i as int), first),
    {
        assert(all.take(i + 1).drop_last() =~= all.take(i as int));
        assert(all[i as int] == dirs@[i as int]@);
        collect_folder(Pass::Links, app, 0, "", disk, &dirs[i], out);
    }
    assert(all.take(all.len() as int) =~= all);
}

fn collect_receipts(id: &str, pkgs: &str, out: &mut Vec<Leftover>)
    ensures
        rows(final(out)@) == receipts(text::lines(pkgs@), id@, rows(old(out)@)),
{
    let ghost first = rows(out@);
    let lines = text::split_lines(pkgs);
    let ghost all = text::lines(pkgs@);
    for i in 0..lines.len()
        invariant
            all == texts(lines@),
            rows(out@) == receipts(all.take(i as int), id@, first),
    {
        assert(all.take(i + 1).drop_last() =~= all.take(i as int));
        assert(all[i as int] == lines@[i as int]@);
        let pkg = text::trim(&lines[i]);
        if !pkg.as_str().is_empty() && (matches_id(&pkg, id) || matches_id(id, &pkg)) {
            let mut reason: String = "installer receipt for ".to_owned();
            reason.append(id);
            let l = Leftover {
                kind: Kind::Receipt(pkg),
                reason,
                size: 0,
                confidence: Confidence::Exact,
                needs_root: true,
            };
            proof {
                lemma_rows_push(out@, l);
            }
            out.push(l);
        }
    }
    assert(all.take(all.len() as int) =~= all);
}

/// The characters of a text that may be absent.
pub open spec fn str_opt(s: Option<&str>) -> Option<Seq<char>> {
    match s {
        Some(t) => Some(t@),
        None => None,
    }
}

/// What an app leaves behind: sure finds before weak ones, and among either the larger
/// first. `bundle` says what is at the path of the bundle, where anything is, and `pkgs`
/// holds the receipts that `pkgutil` lists, where it was asked.
pub fn scan_in(
    app: &AppBundle,
    at: &Locations,
    disk: &Vec<Folder>,
    bundle: Option<Measure>,
    pkgs: Option<&str>,
) -> (r: Vec<Leftover>)
    ensures
        rows(r@) == order::arranged(
            gathered(
                *app,
                texts(at.libraries@),
                texts(at.bin_dirs@),
                at.uid,
                disk@,
                bundle,
                str_opt(pkgs),
            ),
            order_of(),
        ),
        forall|i: int, j: int|
            0 <= i < j < r@.len() && (#[trigger] r@[i]).confidence is Likely ==> (
            #[trigger] r@[j]).confidence is Likely,
{
    let mut found: Vec<Leftover> = Vec::new();
    assert(rows(found@) =~= Seq::<LeftoverRow>::empty());
    if let Some(m) = bundle {
        let l = Leftover {
            kind: Kind::Path(app.path.clone()),
            reason: "the application bundle".to_owned(),
            size: m.size,
            confidence: Confidence::Exact,
            needs_root: m.needs_root,
        };
        found.push(l);
        assert(rows(found@) =~= seq![bundle_row(app.path@, m)]);
    }
    collect_strong(app, at.uid, disk, &at.libraries, &mut found);
    collect_bin_symlinks(app, disk, &at.bin_dirs, &mut found);
    if let (Some(id), Some(raw)) = (&app.bundle_id, pkgs) {
        collect_receipts(id, raw, &mut found);
    }
    collect_weak(app, at.uid, disk, &at.libraries, &mut found);
    proof {
        order::lemma_arranged(found@, row_of(), order_of());
        order::lemma_sorted_ordered(found@);
    }
    let r = order::sort(found);
    proof {
        assert forall|i: int, j: int|
            0 <= i < j < r@.len() && (#[trigger] r@[i]).confidence is Likely implies (
        #[trigger] r@[j]).confidence is Likely by {
            assert(r@[i].le(&r@[j]));
        }
    }
    r
}

/// What an app leaves behind on a machine, its receipts among it.
pub fn scan(
    app: &AppBundle,
    home: &Option<String>,
    uid: u32,
    disk: &Vec<Folder>,
    bundle: Option<Measure>,
    pkgs: Option<&str>,
) -> (r: Vec<Leftover>)
    ensures
        rows(r@) == order::arranged(
            gathered(
                *app,
                real_libraries(text_opt(*home)),
                real_bins(),
                uid,
                disk@,
                bundle,
                str_opt(pkgs),
            ),
            order_of(),
        ),
{
    let at = Locations::real_places(home, uid);
    scan_in(app, &at, disk, bundle, pkgs)
}

/// The directories of a library that are searched.
pub open spec fn searched_in(library: Seq<char>) -> Seq<Seq<char>> {
    (library_subdirs() + launchd_subdirs()).map_values(|sub: Seq<char>| paths::below(library, sub))
}

/// The directories that are searched.
pub open spec fn searched(libraries: Seq<Seq<char>>, bins: Seq<Seq<char>>) -> Seq<Seq<char>>
    decreases libraries.len(),
{
    if libraries.len() == 0 {
        bins
    } else {
        searched_in(libraries[0]) + searched(libraries.drop_first(), bins)
    }
}

fn push_subs(library: &str, subs: &Vec<String>, out: &mut Vec<String>)
    ensures
        texts(final(out)@) == texts(old(out)@) + texts(subs@).map_values(
            |sub: Seq<char>| paths::below(library@, sub),
        ),
{
    let ghost want = texts(subs@).map_values(|sub: Seq<char>| paths::below(library@, sub));
    let ghost first = texts(out@);
    assert(first + want.take(0) =~= first);
    for i in 0..subs.len()
        invariant
            want == texts(subs@).map_values(|sub: Seq<char>| paths::below(library@, sub)),
            texts(out@) == first + want.take(i as int),
    {
        broadcast use text::lemma_texts_push;

        let dir = paths::join(library, &subs[i]);
        assert(want[i as int] == dir@);
        let ghost before = texts(out@);
        out.push(dir);
        assert(before.push(want[i as int]) =~= first + want.take(i + 1));
    }
    assert(want.take(want.len() as int) =~= want);
}

impl Locations {
    /// The directories whose entries have to be known.
    pub fn folders(&self) -> (r: Vec<String>)
        ensures
            texts(r@) == searched(texts(self.libraries@), texts(self.bin_dirs@)),
    {
        broadcast use text::lemma_texts_push;

        let data = list_library_subdirs();
        let jobs = list_launchd_subdirs();
        let ghost libs = texts(self.libraries@);
        let ghost bins = texts(self.bin_dirs@);
        let mut out: Vec<String> = Vec::new();
        assert(texts(out@) =~= Seq::<Seq<char>>::empty());
        assert(libs.skip(0) =~= libs);
        assert(texts(out@) + searched(libs, bins) =~= searched(libs, bins));
        for i in 0..self.libraries.len()
            invariant
                libs == texts(self.libraries@),
                texts(data@) == library_subdirs(),
                texts(jobs@) == launchd_subdirs(),
                texts(out@) + searched(libs.skip(i as int), bins) == searched(libs, bins),
        {
            let ghost before = texts(out@);
            let lib = &self.libraries[i];
            assert(libs[i as int] == lib@);
            push_subs(lib, &data, &mut out);
            push_subs(lib, &jobs, &mut out);
            assert(texts(out@) =~= before + searched_in(lib@));
            assert(libs.skip(i as int).drop_first() =~= libs.skip(i + 1));
            assert(texts(out@) + searched(libs.skip(i + 1), bins) =~= before + searched(
                libs.skip(i as int),
                bins,
            ));
        }
        let ghost all = texts(out@);
        assert(all + bins == searched(libs, bins));
        assert(all + bins.take(0) =~= all);
        for i in 0..self.bin_dirs.len()
            invariant
                bins == texts(self.bin_dirs@),
                texts(out@) == all + bins.take(i as int),
        {
            broadcast use text::lemma_texts_push;

            assert(bins[i as int] == self.bin_dirs@[i as int]@);
            let ghost before = texts(out@);
            out.push(self.bin_dirs[i].clone());
            assert(before.push(bins[i as int]) =~= all + bins.take(i + 1));
        }
        assert(bins.take(bins.len() as int) =~= bins);
        out
    }
}

/// A name that goes on where an id ends with anything but a dot is never taken for the
/// id's, unless a prefix that containers carry stands before it.
pub proof fn law_a_longer_neighbour_is_not_matched(entry: Seq<char>, id: Seq<char>)
    requires
        id.is_prefix_of(bare_stem(entry)),
        bare_stem(entry).len() > id.len(),
        bare_stem(entry)[id.len() as int] != '.',
        peeled(bare_stem(entry)) is None,
    ensures
        !named_for(entry, id),
{
    reveal_strlit(".");
    let stem = bare_stem(entry);
    if (id + "."@).is_prefix_of(stem) {
        assert(stem.subrange(0, (id.len() + 1) as int)[id.len() as int] == '.');
    }
}

/// Every id matches itself and whatever hangs below it, unless it ends in an extension
/// that is stripped.
pub proof fn law_what_hangs_below_an_id_is_matched(id: Seq<char>, more: Seq<char>)
    requires
        bare_stem(id) == id,
        bare_stem(id + "."@ + more) == id + "."@ + more,
    ensures
        named_for(id, id),
        named_for(id + "."@ + more, id),
{
    assert((id + "."@).is_prefix_of(id + "."@ + more));
}

/// No weak find is at a path that was found before it.
pub open spec fn unrepeated(v: Seq<LeftoverRow>) -> bool {
    forall|i: int, j: int|
        #![trigger v[i], v[j]]
        0 <= i < j < v.len() && v[j].confidence is Likely && target_of(v[j].kind) is Some
            ==> !is_at(v[i], target_of(v[j].kind)->0)
}

/// Every find is a sure one.
pub open spec fn all_exact(v: Seq<LeftoverRow>) -> bool {
    forall|i: int| 0 <= i < v.len() ==> (#[trigger] v[i]).confidence is Exact
}

/// A pass that only makes sure finds.
pub open spec fn is_sure(pass: Pass) -> bool {
    pass is ById || pass is Jobs || pass is Links
}

proof fn lemma_entries_keep(
    pass: Pass,
    app: AppBundle,
    uid: u32,
    sub: Seq<char>,
    f: Folder,
    entries: Seq<Entry>,
    out: Seq<LeftoverRow>,
)
    requires
        unrepeated(out),
    ensures
        unrepeated(over_entries(pass, app, uid, sub, f, entries, out)),
        is_sure(pass) && all_exact(out) ==> all_exact(
            over_entries(pass, app, uid, sub, f, entries, out),
        ),
    decreases entries.len(),
{
    if entries.len() > 0 {
        lemma_entries_keep(pass, app, uid, sub, f, entries.drop_last(), out);
    }
}

proof fn lemma_subs_keep(
    pass: Pass,
    app: AppBundle,
    uid: u32,
    disk: Seq<Folder>,
    library: Seq<char>,
    subs: Seq<Seq<char>>,
    out: Seq<LeftoverRow>,
)
    requires
        unrepeated(out),
    ensures
        unrepeated(over_subs(pass, app, uid, disk, library, subs, out)),
        is_sure(pass) && all_exact(out) ==> all_exact(
            over_subs(pass, app, uid, disk, library, subs, out),
        ),
    decreases subs.len(),
{
    if subs.len() > 0 {
        lemma_subs_keep(pass, app, uid, disk, library, subs.drop_last(), out);
        let before = over_subs(pass, app, uid, disk, library, subs.drop_last(), out);
        let dir = paths::below(library, subs.last());
        if let Some(f) = folder_at(disk, dir) {
            lemma_entries_keep(pass, app, uid, subs.last(), f, f.entries@, before);
        }
    }
}

proof fn lemma_strong_keeps(
    app: AppBundle,
    uid: u32,
    disk: Seq<Folder>,
    libraries: Seq<Seq<char>>,
    out: Seq<LeftoverRow>,
)
    requires
        unrepeated(out),
        all_exact(out),
    ensures
        unrepeated(strong(app, uid, disk, libraries, out)),
        all_exact(strong(app, uid, disk, libraries, out)),
    decreases libraries.len(),
{
    if libraries.len() > 0 {
        lemma_strong_keeps(app, uid, disk, libraries.drop_last(), out);
        let before = strong(app, uid, disk, libraries.drop_last(), out);
        let lib = libraries.last();
        lemma_subs_keep(Pass::ById, app, uid, disk, lib, library_subdirs(), before);
        let data = over_subs(Pass::ById, app, uid, disk, lib, library_subdirs(), before);
        lemma_subs_keep(Pass::Jobs, app, uid, disk, lib, launchd_subdirs(), data);
    }
}

proof fn lemma_weak_keeps(
    app: AppBundle,
    uid: u32,
    disk: Seq<Folder>,
    libraries: Seq<Seq<char>>,
    out: Seq<LeftoverRow>,
)
    requires
        unrepeated(out),
    ensures
        unrepeated(weak(app, uid, disk, libraries, out)),
    decreases libraries.len(),
{
    if libraries.len() > 0 {
        lemma_weak_keeps(app, uid, disk, libraries.drop_last(), out);
        let before = weak(app, uid, disk, libraries.drop_last(), out);
        let lib = libraries.last();
        lemma_subs_keep(Pass::Vendor, app, uid, disk, lib, vendor_subdirs(), before);
        let named = over_subs(Pass::Vendor, app, uid, disk, lib, vendor_subdirs(), before);
        lemma_subs_keep(Pass::Namespace, app, uid, disk, lib, library_subdirs(), named);
        let data = over_subs(Pass::Namespace, app, uid, disk, lib, library_subdirs(), named);
        lemma_subs_keep(Pass::NamespaceJobs, app, uid, disk, lib, launchd_subdirs(), data);
    }
}

proof fn lemma_links_keep(
    app: AppBundle,
    disk: Seq<Folder>,
    dirs: Seq<Seq<char>>,
    out: Seq<LeftoverRow>,
)
    requires
        unrepeated(out),
        all_exact(out),
    ensures
        unrepeated(links(app, disk, dirs, out)),
        all_exact(links(app, disk, dirs, out)),
    decreases dirs.len(),
{
    if dirs.len() > 0 {
        lemma_links_keep(app, disk, dirs.drop_last(), out);
        let before = links(app, disk, dirs.drop_last(), out);
        if let Some(f) = folder_at(disk, dirs.last()) {
            lemma_entries_keep(Pass::Links, app, 0, ""@, f, f.entries@, before);
        }
    }
}

proof fn lemma_receipts_keep(lines: Seq<Seq<char>>, id: Seq<char>, out: Seq<LeftoverRow>)
    requires
        unrepeated(out),
        all_exact(out),
    ensures
        unrepeated(receipts(lines, id, out)),
        all_exact(receipts(lines, id, out)),
    decreases lines.len(),
{
    if lines.len() > 0 {
        lemma_receipts_keep(lines.drop_last(), id, out);
    }
}

/// A weak find is never at a path that was found before: an exact hit is not listed a
/// second time as a guess, and no guess is listed twice. What is searched for first is
/// sure throughout.
pub proof fn law_an_exact_hit_is_not_also_a_guess(
    app: AppBundle,
    libraries: Seq<Seq<char>>,
    bins: Seq<Seq<char>>,
    uid: u32,
    disk: Seq<Folder>,
    bundle: Option<Measure>,
    pkgs: Option<Seq<char>>,
)
    ensures
        all_exact(sure(app, libraries, bins, uid, disk, bundle, pkgs)),
        unrepeated(gathered(app, libraries, bins, uid, disk, bundle, pkgs)),
{
    let first = match bundle {
        Some(m) => seq![bundle_row(app.path@, m)],
        None => Seq::empty(),
    };
    lemma_strong_keeps(app, uid, disk, libraries, first);
    let found = strong(app, uid, disk, libraries, first);
    lemma_links_keep(app, disk, bins, found);
    let linked = links(app, disk, bins, found);
    if let (Some(id), Some(raw)) = (text_opt(app.bundle_id), pkgs) {
        lemma_receipts_keep(text::lines(raw), id, linked);
    }
    lemma_weak_keeps(
        app,
        uid,
        disk,
        libraries,
        sure(app, libraries, bins, uid, disk, bundle, pkgs),
    );
}

} // verus!
