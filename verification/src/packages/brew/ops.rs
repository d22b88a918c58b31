//! What Homebrew is asked to do, and what came of it.
use vstd::prelude::*;
use crate::packages::brew::info::PkgKind;
use crate::resource::{checked, is_failure, CommandOutput, Failure};
use crate::text;
use crate::text::texts;

verus! {

/// The arguments that uninstall a formula.
pub fn uninstall_formula_args(name: &str) -> (r: Vec<String>)
    ensures
        texts(r@) == seq!["uninstall"@, name@],
{
    let v: Vec<String> = vec!["uninstall".to_owned(), name.to_owned()];
    assert(texts(v@) =~= seq!["uninstall"@, name@]);
    v
}

/// What uninstalling a formula came to. Fails if other installed packages depend on it.
pub fn uninstall_formula(name: &str, out: &CommandOutput) -> (r: Result<(), Failure>)
    ensures
        match r {
            Ok(_) => out.success,
            Err(e) => !out.success && is_failure(e, "brew uninstall "@ + name@, out.stderr@),
        },
{
    let mut command: String = "brew uninstall ".to_owned();
    command.append(name);
    checked(&command, out)
}

/// The arguments that remove an app along with its preferences and data.
pub fn uninstall_cask_zap_args(name: &str) -> (r: Vec<String>)
    ensures
        texts(r@) == seq!["uninstall"@, "--cask"@, "--zap"@, name@],
{
    let v: Vec<String> = vec![
        "uninstall".to_owned(),
        "--cask".to_owned(),
        "--zap".to_owned(),
        name.to_owned(),
    ];
    assert(texts(v@) =~= seq!["uninstall"@, "--cask"@, "--zap"@, name@]);
    v
}

/// What removing an app along with its preferences and data came to.
pub fn uninstall_cask_zap(name: &str, out: &CommandOutput) -> (r: Result<(), Failure>)
    ensures
        match r {
            Ok(_) => out.success,
            Err(e) => !out.success && is_failure(
                e,
                "brew uninstall --cask --zap "@ + name@,
                out.stderr@,
            ),
        },
{
    let mut command: String = "brew uninstall --cask --zap ".to_owned();
    command.append(name);
    checked(&command, out)
}

/// The arguments that write the current state to a new Brewfile.
pub fn bundle_dump_args(path: &str) -> (r: Vec<String>)
    ensures
        texts(r@) == seq!["bundle"@, "dump"@, "--file="@ + path@],
{
    let mut file: String = "--file=".to_owned();
    file.append(path);
    let v: Vec<String> = vec!["bundle".to_owned(), "dump".to_owned(), file];
    assert(texts(v@) =~= seq!["bundle"@, "dump"@, "--file="@ + path@]);
    v
}

/// What writing the current state to a new Brewfile came to.
pub fn bundle_dump(path: &str, out: &CommandOutput) -> (r: Result<(), Failure>)
    ensures
        match r {
            Ok(_) => out.success,
            Err(e) => !out.success && is_failure(
                e,
                "brew bundle dump --file="@ + path@,
                out.stderr@,
            ),
        },
{
    let mut command: String = "brew bundle dump --file=".to_owned();
    command.append(path);
    checked(&command, out)
}

/// What removing orphaned dependencies came to: what it printed.
pub fn autoremove(out: &CommandOutput) -> (r: Result<String, Failure>)
    ensures
        match r {
            Ok(printed) => out.success && printed@ == out.stdout@,
            Err(e) => !out.success && is_failure(e, "brew autoremove"@, out.stderr@),
        },
{
    match checked("brew autoremove", out) {
        Ok(_) => Ok(out.stdout.clone()),
        Err(e) => Err(e),
    }
}

/// The flag for a sort of package.
pub open spec fn kind_flag(kind: PkgKind) -> Seq<char> {
    match kind {
        PkgKind::Formula => "--formula"@,
        PkgKind::Cask => "--cask"@,
    }
}

/// The arguments that ask whether a package is installed.
pub fn is_installed_args(name: &str, kind: PkgKind) -> (r: Vec<String>)
    ensures
        texts(r@) == seq!["list"@, kind_flag(kind), name@],
{
    let flag: String = match kind {
        PkgKind::Formula => "--formula".to_owned(),
        PkgKind::Cask => "--cask".to_owned(),
    };
    let v: Vec<String> = vec!["list".to_owned(), flag, name.to_owned()];
    assert(texts(v@) =~= seq!["list"@, kind_flag(kind), name@]);
    v
}

/// Whether a package is still installed: the command that asks succeeds where it is.
pub fn is_installed(out: &CommandOutput) -> (r: bool)
    ensures
        r == out.success,
{
    out.success
}

/// The arguments that ask what depends on a package.
pub fn dependents_args(name: &str) -> (r: Vec<String>)
    ensures
        texts(r@) == seq!["uses"@, "--installed"@, name@],
{
    let v: Vec<String> = vec!["uses".to_owned(), "--installed".to_owned(), name.to_owned()];
    assert(texts(v@) =~= seq!["uses"@, "--installed"@, name@]);
    v
}

/// Names of installed packages that directly depend on `name`. Only meaningful for
/// formulae.
pub fn dependents(name: &str, out: &CommandOutput) -> (r: Result<Vec<String>, Failure>)
    ensures
        match r {
            Ok(v) => out.success && texts(v@) == text::words(out.stdout@),
            Err(e) => !out.success && is_failure(e, "brew uses --installed "@ + name@, out.stderr@),
        },
{
    let mut command: String = "brew uses --installed ".to_owned();
    command.append(name);
    match checked(&command, out) {
        Ok(_) => Ok(text::split_words(&out.stdout)),
        Err(e) => Err(e),
    }
}

} // verus!
