//! What Homebrew has installed.
use vstd::prelude::*;
use crate::packages::brew::brewfile::{short_name, unqualified};
use crate::paths;
use crate::resource::{checked, is_failure, CommandOutput, Failure};
use crate::text;
use crate::text::{text_opt, texts};

verus! {

/// What sort of package.
#[derive(Debug, Clone, Copy, PartialEq, Eq, Hash, Structural)]
pub enum PkgKind {
    Formula,
    Cask,
}

/// An installed package.
#[derive(Debug)]
pub struct InstalledPackage {
    pub name: String,
    pub kind: PkgKind,
    pub version: Option<String>,
    /// On-disk size in bytes. Zero means unknown or not yet measured.
    pub size_bytes: u64,
    /// Unqualified names of direct dependencies.
    pub deps: Vec<String>,
    /// Unix timestamp in seconds of installation, if known.
    pub installed_at: Option<u64>,
}

/// An installed package.
pub ghost struct PackageRow {
    pub name: Seq<char>,
    pub kind: PkgKind,
    pub version: Option<Seq<char>>,
    pub size_bytes: u64,
    pub deps: Seq<Seq<char>>,
    pub installed_at: Option<u64>,
}

impl InstalledPackage {
    pub open spec fn row(self) -> PackageRow {
        PackageRow {
            name: self.name@,
            kind: self.kind,
            version: text_opt(self.version),
            size_bytes: self.size_bytes,
            deps: texts(self.deps@),
            installed_at: self.installed_at,
        }
    }
}

/// What `brew info --json=v2` says of everything that is installed.
#[derive(Debug)]
pub struct BrewInfoV2 {
    pub formulae: Vec<FormulaInfo>,
    pub casks: Vec<CaskInfo>,
}

/// What it says of a formula.
#[derive(Debug)]
pub struct FormulaInfo {
    pub name: String,
    pub installed: Vec<FormulaInstalled>,
}

/// What it says of an installed version.
#[derive(Debug)]
pub struct FormulaInstalled {
    pub version: String,
    pub time: Option<u64>,
    /// The full names of what it depends on.
    pub runtime_dependencies: Vec<String>,
}

/// What it says of a cask.
#[derive(Debug)]
pub struct CaskInfo {
    pub token: String,
    pub installed: Option<String>,
    pub installed_time: Option<u64>,
    pub formula_deps: Vec<String>,
    pub cask_deps: Vec<String>,
}

/// The formula as a package: its first installed version counts.
pub open spec fn formula_row(f: FormulaInfo) -> PackageRow {
    if f.installed@.len() == 0 {
        PackageRow {
            name: f.name@,
            kind: PkgKind::Formula,
            version: None,
            size_bytes: 0,
            deps: Seq::empty(),
            installed_at: None,
        }
    } else {
        let first = f.installed@[0];
        PackageRow {
            name: f.name@,
            kind: PkgKind::Formula,
            version: Some(first.version@),
            size_bytes: 0,
            deps: texts(first.runtime_dependencies@).map_values(|d: Seq<char>| unqualified(d)),
            installed_at: first.time,
        }
    }
}

/// The cask as a package.
pub open spec fn cask_row(c: CaskInfo) -> PackageRow {
    PackageRow {
        name: c.token@,
        kind: PkgKind::Cask,
        version: text_opt(c.installed),
        size_bytes: 0,
        deps: texts(c.formula_deps@) + texts(c.cask_deps@),
        installed_at: c.installed_time,
    }
}

/// The packages: the formulae, then the casks.
pub open spec fn package_rows(info: BrewInfoV2) -> Seq<PackageRow> {
    info.formulae@.map_values(|f: FormulaInfo| formula_row(f)) + info.casks@.map_values(
        |c: CaskInfo| cask_row(c),
    )
}

/// What the packages of a list are.
pub open spec fn rows(v: Seq<InstalledPackage>) -> Seq<PackageRow> {
    v.map_values(|p: InstalledPackage| p.row())
}

fn short_names(full: &Vec<String>) -> (r: Vec<String>)
    ensures
        texts(r@) == texts(full@).map_values(|d: Seq<char>| unqualified(d)),
{
    let ghost want = texts(full@).map_values(|d: Seq<char>| unqualified(d));
    let mut out: Vec<String> = Vec::new();
    assert(texts(out@) =~= want.take(0));
    for i in 0..full.len()
        invariant
            want == texts(full@).map_values(|d: Seq<char>| unqualified(d)),
            texts(out@) == want.take(i as int),
    {
        broadcast use text::lemma_texts_push;

        out.push(short_name(&full[i]));
        assert(want.take(i + 1) =~= want.take(i as int).push(unqualified(full@[i as int]@)));
    }
    assert(want.take(want.len() as int) =~= want);
    out
}

fn push_all(out: &mut Vec<String>, more: &Vec<String>)
    ensures
        texts(final(out)@) == texts(old(out)@) + texts(more@),
{
    let ghost first = texts(out@);
    let ghost want = texts(more@);
    assert(first + want.take(0) =~= first);
    for i in 0..more.len()
        invariant
            want == texts(more@),
            texts(out@) == first + want.take(i as int),
    {
        broadcast use text::lemma_texts_push;

        let ghost before = texts(out@);
        out.push(more[i].clone());
        assert(before.push(more@[i as int]@) =~= first + want.take(i + 1));
    }
    assert(want.take(want.len() as int) =~= want);
}

fn copy_opt(s: &Option<String>) -> (r: Option<String>)
    ensures
        text_opt(r) == text_opt(*s),
{
    match s {
        Some(t) => Some(t.clone()),
        None => None,
    }
}

fn package_of_formula(f: &FormulaInfo) -> (r: InstalledPackage)
    ensures
        r.row() == formula_row(*f),
{
    if f.installed.len() == 0 {
        let deps: Vec<String> = Vec::new();
        assert(texts(deps@) =~= Seq::<Seq<char>>::empty());
        return InstalledPackage {
            name: f.name.clone(),
            kind: PkgKind::Formula,
            version: None,
            size_bytes: 0,
            deps,
            installed_at: None,
        };
    }
    let first = &f.installed[0];
    InstalledPackage {
        name: f.name.clone(),
        kind: PkgKind::Formula,
        version: Some(first.version.clone()),
        size_bytes: 0,
        deps: short_names(&first.runtime_dependencies),
        installed_at: first.time,
    }
}

fn package_of_cask(c: &CaskInfo) -> (r: InstalledPackage)
    ensures
        r.row() == cask_row(*c),
{
    let mut deps: Vec<String> = Vec::new();
    assert(texts(deps@) =~= Seq::<Seq<char>>::empty());
    push_all(&mut deps, &c.formula_deps);
    push_all(&mut deps, &c.cask_deps);
    assert(texts(deps@) =~= texts(c.formula_deps@) + texts(c.cask_deps@));
    InstalledPackage {
        name: c.token.clone(),
        kind: PkgKind::Cask,
        version: copy_opt(&c.installed),
        size_bytes: 0,
        deps,
        installed_at: c.installed_time,
    }
}

/// The installed packages, from what the JSON of `brew info` was read as.
pub fn parse_installed(read: &Result<BrewInfoV2, String>) -> (r: Result<
    Vec<InstalledPackage>,
    Failure,
>)
    ensures
        match *read {
            Ok(info) => r matches Ok(v) && rows(v@) == package_rows(info),
            Err(why) => r matches Err(Failure::Other(e)) && e@ == "brew info parse failed: "@
                + why@,
        },
{
    let info = match read {
        Ok(info) => info,
        Err(why) => {
            let mut out: String = "brew info parse failed: ".to_owned();
            out.append(why.as_str());
            return Err(Failure::Other(out));
        },
    };
    let ghost formulae = info.formulae@.map_values(|f: FormulaInfo| formula_row(f));
    let ghost casks = info.casks@.map_values(|c: CaskInfo| cask_row(c));
    let mut out: Vec<InstalledPackage> = Vec::new();
    assert(rows(out@) =~= formulae.take(0));
    for i in 0..info.formulae.len()
        invariant
            formulae == info.formulae@.map_values(|f: FormulaInfo| formula_row(f)),
            rows(out@) == formulae.take(i as int),
    {
        let p = package_of_formula(&info.formulae[i]);
        let ghost before = rows(out@);
        let ghost row = p.row();
        out.push(p);
        assert(rows(out@) =~= before.push(row));
        assert(formulae.take(i + 1) =~= formulae.take(i as int).push(row));
    }
    assert(formulae.take(formulae.len() as int) =~= formulae);
    assert(formulae + casks.take(0) =~= formulae);
    for i in 0..info.casks.len()
        invariant
            casks == info.casks@.map_values(|c: CaskInfo| cask_row(c)),
            rows(out@) == formulae + casks.take(i as int),
    {
        let p = package_of_cask(&info.casks[i]);
        let ghost before = rows(out@);
        let ghost row = p.row();
        out.push(p);
        assert(rows(out@) =~= before.push(row));
        assert(before.push(row) =~= formulae + casks.take(i + 1));
    }
    assert(casks.take(casks.len() as int) =~= casks);
    Ok(out)
}

/// The arguments of the command that says what is installed.
pub fn fetch_args() -> (r: Vec<String>)
    ensures
        texts(r@) == seq!["info"@, "--json=v2"@, "--installed"@],
{
    let v: Vec<String> = vec!["info".to_owned(), "--json=v2".to_owned(), "--installed".to_owned()];
    assert(texts(v@) =~= seq!["info"@, "--json=v2"@, "--installed"@]);
    v
}

/// The installed packages, from how the command ended and what its output was read as.
pub fn fetch_installed(out: &CommandOutput, read: &Result<BrewInfoV2, String>) -> (r: Result<
    Vec<InstalledPackage>,
    Failure,
>)
    ensures
        if !out.success {
            r matches Err(e) && is_failure(e, "brew info --json=v2 --installed"@, out.stderr@)
        } else {
            match *read {
                Ok(info) => r matches Ok(v) && rows(v@) == package_rows(info),
                Err(why) => r matches Err(Failure::Other(e)) && e@ == "brew info parse failed: "@
                    + why@,
            }
        },
{
    match checked("brew info --json=v2 --installed", out) {
        Ok(_) => parse_installed(read),
        Err(e) => Err(e),
    }
}

/// Where Homebrew is installed, from how `brew --prefix` ended.
pub fn brew_prefix(out: &CommandOutput) -> (r: Result<String, Failure>)
    ensures
        if out.success {
            r matches Ok(p) && p@ == text::trimmed(out.stdout@)
        } else {
            r matches Err(e) && is_failure(e, "brew --prefix"@, out.stderr@)
        },
{
    match checked("brew --prefix", out) {
        Ok(_) => Ok(text::trim(&out.stdout)),
        Err(e) => Err(e),
    }
}

/// Where a package lies.
pub open spec fn package_dir(prefix: Seq<char>, p: PackageRow) -> Seq<char> {
    match p.kind {
        PkgKind::Formula => paths::below(paths::below(prefix, "Cellar"@), p.name),
        PkgKind::Cask => paths::below(paths::below(prefix, "Caskroom"@), p.name),
    }
}

/// Where a package lies.
pub fn package_path(prefix: &str, p: &InstalledPackage) -> (r: String)
    ensures
        r@ == package_dir(prefix@, p.row()),
{
    let room = match p.kind {
        PkgKind::Formula => paths::join(prefix, "Cellar"),
        PkgKind::Cask => paths::join(prefix, "Caskroom"),
    };
    paths::join(&room, &p.name)
}

/// The first package that is there and lies at a path.
pub open spec fn package_at(
    prefix: Seq<char>,
    packages: Seq<PackageRow>,
    there: Seq<bool>,
    path: Seq<char>,
) -> Option<int>
    decreases packages.len(),
{
    if packages.len() == 0 {
        None
    } else {
        match package_at(prefix, packages.drop_last(), there, path) {
            Some(i) => Some(i),
            None => {
                let last = packages.len() - 1;
                if there[last] && package_dir(prefix, packages[last]) == path {
                    Some(last)
                } else {
                    None
                }
            },
        }
    }
}

/// The kilobytes and the path on a line of `du`.
pub open spec fn du_line(line: Seq<char>) -> Option<(int, Seq<char>)> {
    match text::cut_first(line, '\t') {
        Some((kb, path)) => match text::unsigned_value(text::trimmed(kb), u64::MAX as int) {
            Some(n) => Some((n, path)),
            None => None,
        },
        None => None,
    }
}

/// The sizes once lines of `du` were read.
pub open spec fn sizes_from(
    prefix: Seq<char>,
    packages: Seq<PackageRow>,
    there: Seq<bool>,
    lines: Seq<Seq<char>>,
) -> Seq<int>
    decreases lines.len(),
{
    if lines.len() == 0 {
        packages.map_values(|p: PackageRow| p.size_bytes as int)
    } else {
        let before = sizes_from(prefix, packages, there, lines.drop_last());
        match du_line(lines.last()) {
            Some((kb, path)) => match package_at(prefix, packages, there, path) {
                Some(i) => before.update(i, kb * 1024),
                None => before,
            },
            None => before,
        }
    }
}

/// No size on a line of `du` is too large to be held in bytes.
pub open spec fn sizes_fit(lines: Seq<Seq<char>>) -> bool {
    forall|i: int|
        0 <= i < lines.len() ==> (match du_line(#[trigger] lines[i]) {
            Some((kb, _)) => kb * 1024 <= u64::MAX,
            None => true,
        })
}

fn read_line(line: &str) -> (r: Option<(u64, String)>)
    ensures
        (match r {
            Some((kb, path)) => Some((kb as int, path@)),
            None => None,
        }) == du_line(line@),
{
    match text::split_once(line, '\t') {
        Some((kb, path)) => {
            let bare = text::trim(&kb);
            match text::parse_u64(&bare) {
                Some(n) => Some((n, path)),
                None => None,
            }
        },
        None => None,
    }
}

/// Whether every size that `du` printed can be held in bytes.
pub fn can_attach(du: &str) -> (r: bool)
    ensures
        r == sizes_fit(text::lines(du@)),
{
    let lines = text::split_lines(du);
    let ghost all = text::lines(du@);
    for i in 0..lines.len()
        invariant
            texts(lines@) == all,
            all == text::lines(du@),
            forall|j: int|
                0 <= j < i ==> (match du_line(#[trigger] all[j]) {
                    Some((kb, _)) => kb * 1024 <= u64::MAX,
                    None => true,
                }),
    {
        assert(lines@[i as int]@ == all[i as int]);
        if let Some((kb, _)) = read_line(&lines[i]) {
            if kb > u64::MAX / 1024 {
                assert(!sizes_fit(all));
                return false;
            }
        }
    }
    assert(all.len() == lines@.len());
    true
}

proof fn lemma_package_at_prefix(
    prefix: Seq<char>,
    packages: Seq<PackageRow>,
    there: Seq<bool>,
    path: Seq<char>,
    n: int,
)
    requires
        0 <= n <= packages.len(),
        package_at(prefix, packages.take(n), there, path) is Some,
    ensures
        package_at(prefix, packages, there, path) == package_at(
            prefix,
            packages.take(n),
            there,
            path,
        ),
    decreases packages.len() - n,
{
    if n == packages.len() {
        assert(packages.take(n) =~= packages);
    } else {
        assert(packages.take(n + 1).drop_last() =~= packages.take(n));
        lemma_package_at_prefix(prefix, packages, there, path, n + 1);
    }
}

fn find_package(
    prefix: &str,
    packages: &Vec<InstalledPackage>,
    there: &Vec<bool>,
    path: &str,
) -> (r: Option<usize>)
    requires
        there@.len() == packages@.len(),
    ensures
        match r {
            Some(i) => i < packages@.len() && package_at(prefix@, rows(packages@), there@, path@)
                == Some(i as int),
            None => package_at(prefix@, rows(packages@), there@, path@) is None,
        },
{
    let ghost all = rows(packages@);
    for i in 0..packages.len()
        invariant
            there@.len() == packages@.len(),
            all == rows(packages@),
            package_at(prefix@, all.take(i as int), there@, path@) is None,
    {
        assert(all.take(i + 1).drop_last() =~= all.take(i as int));
        assert(all[i as int] == packages@[i as int].row());
        let dir = package_path(prefix, &packages[i]);
        if there[i] && text::same(&dir, path) {
            proof {
                lemma_package_at_prefix(prefix@, all, there@, path@, i + 1);
            }
            return Some(i);
        }
    }
    assert(all.take(all.len() as int) =~= all);
    None
}

/// The arguments of the one `du` that measures every package that is there.
pub fn du_args(prefix: &str, packages: &Vec<InstalledPackage>, there: &Vec<bool>) -> (r: Vec<String>)
    requires
        there@.len() == packages@.len(),
    ensures
        texts(r@) == seq!["-sk"@] + dirs_there(prefix@, rows(packages@), there@),
{
    broadcast use text::lemma_texts_push;

    let ghost all = rows(packages@);
    let mut out: Vec<String> = vec!["-sk".to_owned()];
    assert(texts(out@) =~= seq!["-sk"@] + dirs_there(prefix@, all.take(0), there@));
    for i in 0..packages.len()
        invariant
            there@.len() == packages@.len(),
            all == rows(packages@),
            texts(out@) == seq!["-sk"@] + dirs_there(prefix@, all.take(i as int), there@),
    {
        broadcast use text::lemma_texts_push;

        assert(all.take(i + 1).drop_last() =~= all.take(i as int));
        assert(all[i as int] == packages@[i as int].row());
        if there[i] {
            let ghost before = texts(out@);
            let dir = package_path(prefix, &packages[i]);
            let ghost text = dir@;
            out.push(dir);
            assert(before.push(text) =~= seq!["-sk"@] + dirs_there(
                prefix@,
                all.take(i + 1),
                there@,
            ));
        }
    }
    assert(all.take(all.len() as int) =~= all);
    out
}

/// Where the packages that are there lie.
pub open spec fn dirs_there(prefix: Seq<char>, packages: Seq<PackageRow>, there: Seq<bool>) -> Seq<
    Seq<char>,
>
    decreases packages.len(),
{
    if packages.len() == 0 {
        Seq::empty()
    } else {
        let before = dirs_there(prefix, packages.drop_last(), there);
        let last = packages.len() - 1;
        if there[last] {
            before.push(package_dir(prefix, packages[last]))
        } else {
            before
        }
    }
}

proof fn lemma_package_in_range(
    prefix: Seq<char>,
    packages: Seq<PackageRow>,
    there: Seq<bool>,
    path: Seq<char>,
)
    ensures
        package_at(prefix, packages, there, path) matches Some(i) ==> 0 <= i < packages.len(),
    decreases packages.len(),
{
    if packages.len() > 0 {
        lemma_package_in_range(prefix, packages.drop_last(), there, path);
    }
}

proof fn lemma_sizes_len(
    prefix: Seq<char>,
    packages: Seq<PackageRow>,
    there: Seq<bool>,
    lines: Seq<Seq<char>>,
)
    ensures
        sizes_from(prefix, packages, there, lines).len() == packages.len(),
    decreases lines.len(),
{
    if lines.len() > 0 {
        lemma_sizes_len(prefix, packages, there, lines.drop_last());
        if let Some((_, path)) = du_line(lines.last()) {
            lemma_package_in_range(prefix, packages, there, path);
        }
    }
}

fn sizes_of(packages: &Vec<InstalledPackage>) -> (r: Vec<u64>)
    ensures
        r@.map_values(|n: u64| n as int) == rows(packages@).map_values(
            |p: PackageRow| p.size_bytes as int,
        ),
{
    let ghost want = rows(packages@).map_values(|p: PackageRow| p.size_bytes as int);
    let mut out: Vec<u64> = Vec::new();
    for i in 0..packages.len()
        invariant
            want == rows(packages@).map_values(|p: PackageRow| p.size_bytes as int),
            out@.len() == i,
            forall|j: int| 0 <= j < i ==> #[trigger] out@[j] == want[j],
    {
        out.push(packages[i].size_bytes);
        assert(want[i as int] == packages@[i as int].size_bytes);
    }
    assert(out@.map_values(|n: u64| n as int) =~= want);
    out
}

/// The size of each package, from what one `du -sk` over those that are there printed,
/// where it ran. Packages that are not there, or that it says nothing of, keep theirs.
pub fn attach_sizes(
    prefix: &str,
    packages: &Vec<InstalledPackage>,
    there: &Vec<bool>,
    du: &Option<String>,
) -> (r: Vec<u64>)
    requires
        there@.len() == packages@.len(),
        du matches Some(printed) ==> sizes_fit(text::lines(printed@)),
    ensures
        r@.map_values(|n: u64| n as int) == sizes_from(
            prefix@,
            rows(packages@),
            there@,
            match *du {
                Some(printed) => text::lines(printed@),
                None => Seq::empty(),
            },
        ),
{
    let mut sizes = sizes_of(packages);
    let printed = match du {
        Some(p) => p,
        None => {
            return sizes;
        },
    };
    let lines = text::split_lines(printed);
    let ghost all = text::lines(printed@);
    for i in 0..lines.len()
        invariant
            there@.len() == packages@.len(),
            texts(lines@) == all,
            sizes_fit(all),
            sizes@.map_values(|n: u64| n as int) == sizes_from(
                prefix@,
                rows(packages@),
                there@,
                all.take(i as int),
            ),
    {
        assert(all.take(i + 1).drop_last() =~= all.take(i as int));
        assert(lines@[i as int]@ == all[i as int]);
        let ghost before = sizes@.map_values(|n: u64| n as int);
        proof {
            lemma_sizes_len(prefix@, rows(packages@), there@, all.take(i as int));
            assert(sizes@.len() == before.len());
        }
        if let Some((kb, path)) = read_line(&lines[i]) {
            if let Some(k) = find_package(prefix, packages, there, &path) {
                assert(kb * 1024 <= u64::MAX);
                let bytes = kb * 1024;
                sizes.set(k, bytes);
                assert(sizes@.map_values(|n: u64| n as int) =~= before.update(
                    k as int,
                    bytes as int,
                ));
            }
        }
    }
    assert(all.take(all.len() as int) =~= all);
    sizes
}

/// A directory is a package's exactly where the package is there and the directory has its name
/// below the cellar, or the room for casks; of two the first has it.
pub proof fn law_a_directory_is_its_packages(
    prefix: Seq<char>,
    packages: Seq<PackageRow>,
    there: Seq<bool>,
    path: Seq<char>,
)
    ensures
        match package_at(prefix, packages, there, path) {
            Some(k) => {
                &&& 0 <= k < packages.len()
                &&& there[k]
                &&& path == paths::below(
                    paths::below(
                        prefix,
                        if packages[k].kind == PkgKind::Formula {
                            "Cellar"@
                        } else {
                            "Caskroom"@
                        },
                    ),
                    packages[k].name,
                )
                &&& forall|i: int|
                    0 <= i < k && there[i] ==> package_dir(prefix, #[trigger] packages[i]) != path
            },
            None => forall|i: int|
                0 <= i < packages.len() && there[i] ==> package_dir(prefix, #[trigger] packages[i])
                    != path,
        },
    decreases packages.len(),
{
    if packages.len() > 0 {
        let front = packages.drop_last();
        let last = packages.len() - 1;
        law_a_directory_is_its_packages(prefix, front, there, path);
        assert forall|i: int| 0 <= i < front.len() implies front[i] == #[trigger] packages[i] by {}
        match package_at(prefix, front, there, path) {
            Some(k) => {
                assert forall|i: int| 0 <= i < k && there[i] implies package_dir(
                    prefix,
                    #[trigger] packages[i],
                ) != path by {
                    assert(package_dir(prefix, front[i]) != path);
                }
            },
            None => {
                assert forall|i: int| 0 <= i < last && there[i] implies package_dir(
                    prefix,
                    #[trigger] packages[i],
                ) != path by {
                    assert(package_dir(prefix, front[i]) != path);
                }
            },
        }
    }
}

/// One more line of the report, a number of kilobytes and a path, gives the package at that path
/// 1024 bytes for each, and leaves all others as they were.
pub proof fn law_a_line_sizes_its_own_package(
    prefix: Seq<char>,
    packages: Seq<PackageRow>,
    there: Seq<bool>,
    lines: Seq<Seq<char>>,
    kb: nat,
    path: Seq<char>,
    i: int,
)
    requires
        kb <= u64::MAX,
        0 <= i < packages.len(),
    ensures
        sizes_from(
            prefix,
            packages,
            there,
            lines.push(text::decimal(kb).push('\t') + path),
        )[i] == (if package_at(prefix, packages, there, path) == Some(i) {
            kb * 1024int
        } else {
            sizes_from(prefix, packages, there, lines)[i]
        }),
        sizes_from(prefix, packages, there, Seq::empty())[i] == packages[i].size_bytes,
{
    let line = text::decimal(kb).push('\t') + path;
    let d = text::decimal(kb);
    text::lemma_decimal_reads_back(kb);
    text::law_a_cut_text_goes_together_again(line, '\t');
    let n = d.len() as int;
    assert(line[n] == '\t');
    assert(line.contains(line[n]));
    let (a, b) = text::cut_first(line, '\t')->0;
    let k = a.len() as int;
    assert(line[k] == '\t');
    if k < n {
        assert(text::is_digit(d[k]));
    }
    if k > n {
        assert(a[n] == line[n]);
        assert(a.contains(a[n]));
    }
    assert(k == n);
    assert(line.take(n) =~= d);
    assert(line.skip(n + 1) =~= path);
    assert(line == a.push('\t') + b);
    assert(a =~= line.take(n));
    assert(b =~= line.skip(n + 1));
    text::law_a_written_number_is_a_word(kb);
    text::law_a_written_number_reads_back(kb, u64::MAX as int);
    assert(du_line(line) == Some((kb as int, path)));
    assert(lines.push(line).drop_last() =~= lines);
    law_a_directory_is_its_packages(prefix, packages, there, path);
    lemma_sizes_len(prefix, packages, there, lines);
}

/// The directories that are measured are those of the packages that are there, each of them and
/// no other.
pub proof fn law_every_package_that_is_there_is_measured(
    prefix: Seq<char>,
    packages: Seq<PackageRow>,
    there: Seq<bool>,
    path: Seq<char>,
)
    ensures
        dirs_there(prefix, packages, there).contains(path) <==> exists|i: int|
            0 <= i < packages.len() && there[i] && package_dir(prefix, #[trigger] packages[i])
                == path,
    decreases packages.len(),
{
    let all = dirs_there(prefix, packages, there);
    if packages.len() > 0 {
        let front = packages.drop_last();
        let before = dirs_there(prefix, front, there);
        let last = packages.len() - 1;
        law_every_package_that_is_there_is_measured(prefix, front, there, path);
        assert forall|i: int| 0 <= i < front.len() implies front[i] == #[trigger] packages[i] by {}
        if all.contains(path) {
            let j = choose|j: int| 0 <= j < all.len() && all[j] == path;
            if j < before.len() {
                assert(before[j] == path);
                let i = choose|i: int|
                    0 <= i < front.len() && there[i] && package_dir(prefix, #[trigger] front[i])
                        == path;
                assert(package_dir(prefix, packages[i]) == path);
            } else {
                assert(package_dir(prefix, packages[last]) == path);
            }
        }
        if exists|i: int|
            0 <= i < packages.len() && there[i] && package_dir(prefix, #[trigger] packages[i])
                == path {
            let i = choose|i: int|
                0 <= i < packages.len() && there[i] && package_dir(prefix, #[trigger] packages[i])
                    == path;
            if i < last {
                assert(package_dir(prefix, front[i]) == path);
                let j = choose|j: int| 0 <= j < before.len() && before[j] == path;
                assert(all[j] == path);
            } else {
                assert(all[before.len() as int] == path);
            }
        }
    }
}

/// A formula has the version that is listed first, and depends on each package that version
/// names, by what stands behind the last slash of the name.
pub proof fn law_a_formula_is_its_first_version(f: FormulaInfo, i: int)
    requires
        f.installed@.len() > 0,
        0 <= i < f.installed@[0].runtime_dependencies@.len(),
    ensures
        ({
            let row = formula_row(f);
            let full = f.installed@[0].runtime_dependencies@[i]@;
            &&& row.name == f.name@
            &&& row.kind == PkgKind::Formula
            &&& row.version == Some(f.installed@[0].version@)
            &&& row.installed_at == f.installed@[0].time
            &&& row.deps.len() == f.installed@[0].runtime_dependencies@.len()
            &&& !row.deps[i].contains('/')
            &&& row.deps[i] == full || exists|tap: Seq<char>| full == #[trigger] tap.push('/')
                + row.deps[i]
        }),
{
    let full = f.installed@[0].runtime_dependencies@[i]@;
    text::law_a_cut_text_goes_together_again(full, '/');
    match text::cut_last(full, '/') {
        Some((tap, last)) => {
            paths::lemma_pieces_joined(tap, last, '/');
            text::lemma_one_line(last, '/');
            assert(unqualified(full) == last);
            assert(full == tap.push('/') + last);
        },
        None => {
            text::lemma_one_line(full, '/');
        },
    }
}

/// Everything that is installed is listed: the formulae in order, then the casks, each cask with
/// every formula and every cask it depends on.
pub proof fn law_everything_installed_is_listed(info: BrewInfoV2, i: int, j: int)
    ensures
        package_rows(info).len() == info.formulae@.len() + info.casks@.len(),
        0 <= i < info.formulae@.len() ==> package_rows(info)[i].name == info.formulae@[i].name@,
        0 <= i < info.casks@.len() ==> {
            let row = package_rows(info)[info.formulae@.len() + i];
            let c = info.casks@[i];
            &&& row.name == c.token@
            &&& row.kind == PkgKind::Cask
            &&& row.version == text_opt(c.installed)
            &&& 0 <= j < c.formula_deps@.len() ==> row.deps.contains(c.formula_deps@[j]@)
            &&& 0 <= j < c.cask_deps@.len() ==> row.deps.contains(c.cask_deps@[j]@)
        },
{
    if 0 <= i < info.casks@.len() {
        let c = info.casks@[i];
        let row = package_rows(info)[info.formulae@.len() + i];
        assert(row == cask_row(c));
        let a = texts(c.formula_deps@);
        let b = texts(c.cask_deps@);
        if 0 <= j < a.len() {
            assert(row.deps[j] == a[j]);
        }
        if 0 <= j < b.len() {
            assert(row.deps[a.len() + j] == b[j]);
        }
    }
}

} // verus!
