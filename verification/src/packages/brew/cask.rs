//! Homebrew casks: applications with a window.
use vstd::prelude::*;
use crate::resource::{
    checked, create_if_absent, is_failure, Change, CommandOutput, Failure, ResourceId, ResourceState,
};
use crate::text;
use crate::text::texts;

verus! {

/// Declares that a cask is installed.
#[derive(Debug)]
pub struct Cask {
    pub name: String,
}

/// The second word that a command printed, where it succeeded and printed one.
pub open spec fn version_in(out: CommandOutput) -> Option<Seq<char>> {
    let words = text::words(out.stdout@);
    if out.success && words.len() > 1 {
        Some(words[1])
    } else {
        None
    }
}

/// What a change asks Homebrew for. Nothing where there is nothing to do.
pub open spec fn change_args(change: Change, name: Seq<char>) -> Option<Seq<Seq<char>>> {
    match change {
        Change::Create => Some(seq!["install"@, "--cask"@, name]),
        Change::Remove => Some(seq!["uninstall"@, "--cask"@, name]),
        _ => None,
    }
}

impl Cask {
    /// The cask with a name.
    pub fn new(name: &str) -> (r: Self)
        ensures
            r.name@ == name@,
    {
        Cask { name: name.to_owned() }
    }

    /// The identity of the declaration.
    pub fn id(&self) -> (r: ResourceId)
        ensures
            r.kind@ == "brew::cask"@,
            r.name@ == self.name@,
    {
        ResourceId::new("brew::cask", &self.name)
    }

    /// The arguments that ask whether it is installed.
    pub fn list_args(&self) -> (r: Vec<String>)
        ensures
            texts(r@) == seq!["list"@, "--cask"@, self.name@],
    {
        let v: Vec<String> = vec!["list".to_owned(), "--cask".to_owned(), self.name.clone()];
        assert(texts(v@) =~= seq!["list"@, "--cask"@, self.name@]);
        v
    }

    /// The arguments that ask for its version.
    pub fn version_args(&self) -> (r: Vec<String>)
        ensures
            texts(r@) == seq!["list"@, "--cask"@, "--versions"@, self.name@],
    {
        let v: Vec<String> = vec![
            "list".to_owned(),
            "--cask".to_owned(),
            "--versions".to_owned(),
            self.name.clone(),
        ];
        assert(texts(v@) =~= seq!["list"@, "--cask"@, "--versions"@, self.name@]);
        v
    }

    /// What is there, from how the two questions were answered.
    pub fn detect(&self, list: &CommandOutput, versions: &CommandOutput) -> (r: ResourceState)
        ensures
            if !list.success {
                r is Absent
            } else {
                r matches ResourceState::Present { version } && text::text_opt(version)
                    == version_in(*versions)
            },
    {
        if !list.success {
            return ResourceState::Absent;
        }
        if !versions.success {
            return ResourceState::present();
        }
        let words = text::split_words(&versions.stdout);
        assert(words@.len() == text::words(versions.stdout@).len());
        if words.len() > 1 {
            assert(words@[1]@ == text::words(versions.stdout@)[1]);
            ResourceState::present_with_version(&words[1])
        } else {
            ResourceState::present()
        }
    }

    /// What it takes. What cannot be told is left alone.
    pub fn diff(&self, current: &ResourceState) -> (r: Change)
        ensures
            current is Absent ==> r is Create,
            !(current is Absent) ==> r is NoOp,
    {
        create_if_absent(current)
    }

    /// What a change asks Homebrew for, where there is anything to do.
    pub fn apply_args(&self, change: &Change) -> (r: Option<Vec<String>>)
        ensures
            match r {
                Some(v) => change_args(*change, self.name@) == Some(texts(v@)),
                None => change_args(*change, self.name@) is None,
            },
    {
        match change {
            Change::Create => {
                let v: Vec<String> = vec!["install".to_owned(), "--cask".to_owned(), self.name.clone()];
                assert(texts(v@) =~= seq!["install"@, "--cask"@, self.name@]);
                Some(v)
            },
            Change::Remove => {
                let v: Vec<String> = vec!["uninstall".to_owned(), "--cask".to_owned(), self.name.clone()];
                assert(texts(v@) =~= seq!["uninstall"@, "--cask"@, self.name@]);
                Some(v)
            },
            _ => None,
        }
    }

    /// What applying a change came to, from how its command ended.
    pub fn apply(&self, change: &Change, out: &CommandOutput) -> (r: Result<(), Failure>)
        ensures
            match *change {
                Change::Create => match r {
                    Ok(_) => out.success,
                    Err(e) => !out.success && is_failure(
                        e,
                        "brew install --cask "@ + self.name@,
                        out.stderr@,
                    ),
                },
                Change::Remove => match r {
                    Ok(_) => out.success,
                    Err(e) => !out.success && is_failure(
                        e,
                        "brew uninstall --cask "@ + self.name@,
                        out.stderr@,
                    ),
                },
                _ => r is Ok,
            },
    {
        match change {
            Change::Create => {
                let mut command: String = "brew install --cask ".to_owned();
                command.append(self.name.as_str());
                checked(&command, out)
            },
            Change::Remove => {
                let mut command: String = "brew uninstall --cask ".to_owned();
                command.append(self.name.as_str());
                checked(&command, out)
            },
            _ => Ok(()),
        }
    }

    /// The declaration in words.
    pub fn description(&self) -> (r: String)
        ensures
            r@ == "Homebrew cask: "@ + self.name@,
    {
        let mut out: String = "Homebrew cask: ".to_owned();
        out.append(self.name.as_str());
        out
    }
}

/// The version is the word behind the name in what a run that came through printed.
pub proof fn law_the_version_stands_behind_the_name(
    out: CommandOutput,
    name: Seq<char>,
    version: Seq<char>,
    rest: Seq<char>,
)
    requires
        name.len() > 0,
        forall|i: int| 0 <= i < name.len() ==> !text::is_space(#[trigger] name[i]),
        version.len() > 0,
        forall|i: int| 0 <= i < version.len() ==> !text::is_space(#[trigger] version[i]),
        out.stdout@ == name.push(' ') + (version.push('\n') + rest),
    ensures
        version_in(out) == (if out.success {
            Some(version)
        } else {
            None
        }),
{
    let behind = version.push('\n') + rest;
    text::law_space_keeps_words_apart(name, ' ', behind);
    text::law_space_keeps_words_apart(version, '\n', rest);
    text::law_a_solid_text_is_one_word(name);
    text::law_a_solid_text_is_one_word(version);
    assert(text::words(out.stdout@) =~= seq![name, version] + text::words(rest));
}

} // verus!
