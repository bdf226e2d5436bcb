//! The commands of the command line.

use crate::text::same_text;
use vstd::prelude::*;

verus! {

/// A command of the command line.
#[derive(Debug, Clone, Copy, PartialEq, Eq, Structural)]
pub enum CliCommand {
    Init,
    CatFile,
    HashObject,
    ListTree,
    WriteTree,
    CommitTree,
}

impl CliCommand {
    /// The command that a word names, if it names one.
    pub open spec fn of_text(word: Seq<char>) -> Option<CliCommand> {
        if word == "init"@ {
            Some(CliCommand::Init)
        } else if word == "cat-file"@ {
            Some(CliCommand::CatFile)
        } else if word == "hash-object"@ {
            Some(CliCommand::HashObject)
        } else if word == "ls-tree"@ {
            Some(CliCommand::ListTree)
        } else if word == "write-tree"@ {
            Some(CliCommand::WriteTree)
        } else if word == "commit-tree"@ {
            Some(CliCommand::CommitTree)
        } else {
            None
        }
    }

    /// The command that a word names; `None` for any other word.
    pub fn parse(string: &str) -> (command: Option<Self>)
        ensures
            command == CliCommand::of_text(string@),
    {
        if same_text(string, "init") {
            Some(CliCommand::Init)
        } else if same_text(string, "cat-file") {
            Some(CliCommand::CatFile)
        } else if same_text(string, "hash-object") {
            Some(CliCommand::HashObject)
        } else if same_text(string, "ls-tree") {
            Some(CliCommand::ListTree)
        } else if same_text(string, "write-tree") {
            Some(CliCommand::WriteTree)
        } else if same_text(string, "commit-tree") {
            Some(CliCommand::CommitTree)
        } else {
            None
        }
    }

    /// The command that a word names. The word must name one.
    pub fn from_string(string: &str) -> (command: Self)
        requires
            CliCommand::of_text(string@).is_some(),
        ensures
            CliCommand::of_text(string@) == Some(command),
    {
        match Self::parse(string) {
            Some(command) => command,
            None => CliCommand::Init,
        }
    }
}

} // verus!
