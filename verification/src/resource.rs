//! What a scope declares, what is there, and what it takes to get from one to the
//! other.
use vstd::prelude::*;

verus! {

/// The identity of a declared thing.
#[derive(Debug)]
pub struct ResourceId {
    pub kind: String,
    pub name: String,
}

impl ResourceId {
    /// The identity of a thing of a kind.
    pub fn new(kind: &str, name: &str) -> (r: Self)
        ensures
            r.kind@ == kind@,
            r.name@ == name@,
    {
        ResourceId { kind: kind.to_owned(), name: name.to_owned() }
    }
}

/// What is there.
#[derive(Debug)]
pub enum ResourceState {
    Absent,
    Present { version: Option<String> },
    /// It could not be told, and why.
    Unknown(String),
}

impl ResourceState {
    /// There, in no particular version.
    pub fn present() -> (r: Self)
        ensures
            r == (ResourceState::Present { version: None }),
    {
        ResourceState::Present { version: None }
    }

    /// There, in a version.
    pub fn present_with_version(version: &str) -> (r: Self)
        ensures
            r matches ResourceState::Present { version: Some(v) } && v@ == version@,
    {
        ResourceState::Present { version: Some(version.to_owned()) }
    }

    /// Whether it is there.
    pub fn is_present(&self) -> (r: bool)
        ensures
            r == (self is Present),
    {
        match self {
            ResourceState::Present { .. } => true,
            _ => false,
        }
    }
}

/// What it takes.
#[derive(Debug)]
pub enum Change {
    NoOp,
    Create,
    Update(String),
    Remove,
}

impl Change {
    /// Whether nothing is to be done.
    pub fn is_noop(&self) -> (r: bool)
        ensures
            r == (self is NoOp),
    {
        match self {
            Change::NoOp => true,
            _ => false,
        }
    }
}

/// Creation where the thing is not there, nothing otherwise: what cannot be told is
/// left alone.
pub fn create_if_absent(current: &ResourceState) -> (r: Change)
    ensures
        current is Absent ==> r is Create,
        !(current is Absent) ==> r is NoOp,
{
    match current {
        ResourceState::Absent => Change::Create,
        _ => Change::NoOp,
    }
}

/// What starting a program came to.
#[derive(Debug)]
pub enum Launch {
    /// There is no such program.
    NotInstalled,
    /// It could not be started, and why.
    Failed(String),
    /// It ran.
    Ran(CommandOutput),
}

/// What a command printed and how it ended.
#[derive(Debug)]
pub struct CommandOutput {
    pub stdout: String,
    pub stderr: String,
    pub success: bool,
}

/// Why something could not be done.
#[derive(Debug)]
pub enum Failure {
    /// A command ran and failed.
    CommandFailed { command: String, stderr: String },
    /// Anything else.
    Other(String),
}

/// An error in words.
pub open spec fn error_text(e: Failure) -> Seq<char> {
    match e {
        Failure::CommandFailed { command, stderr } => "`"@ + command@ + "` failed: "@ + stderr@,
        Failure::Other(why) => why@,
    }
}

impl Failure {
    /// The error in words.
    pub fn message(&self) -> (r: String)
        ensures
            r@ == error_text(*self),
    {
        match self {
            Failure::CommandFailed { command, stderr } => {
                let mut out: String = "`".to_owned();
                out.append(command.as_str());
                out.append("` failed: ");
                out.append(stderr.as_str());
                out
            },
            Failure::Other(why) => why.clone(),
        }
    }
}

/// A command that failed, with what it complained of.
pub open spec fn is_failure(e: Failure, command: Seq<char>, stderr: Seq<char>) -> bool {
    e matches Failure::CommandFailed { command: c, stderr: s } && c@ == command && s@ == stderr
}

/// A command that ran, or the failure it came to.
pub fn checked(command: &str, out: &CommandOutput) -> (r: Result<(), Failure>)
    ensures
        match r {
            Ok(_) => out.success,
            Err(e) => !out.success && is_failure(e, command@, out.stderr@),
        },
{
    if out.success {
        Ok(())
    } else {
        Err(Failure::CommandFailed { command: command.to_owned(), stderr: out.stderr.clone() })
    }
}

} // verus!
