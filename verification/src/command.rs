//! The commands of the interactive shell.
//!
//! Six line-based commands; the parser in `command_parser` turns one input
//! line into one of these.

use vstd::prelude::*;

verus! {

/// One shell command.
#[derive(Debug)]
pub enum Command {
    Quit,
    Help,
    Insert(String, String),
    Delete(String),
    Lookup(String),
    ListKeys,
}

/// What a command says, over plain character sequences.
pub enum CommandView {
    Quit,
    Help,
    Insert(Seq<char>, Seq<char>),
    Delete(Seq<char>),
    Lookup(Seq<char>),
    ListKeys,
}

impl View for Command {
    type V = CommandView;

    open spec fn view(&self) -> CommandView {
        match self {
            Command::Quit => CommandView::Quit,
            Command::Help => CommandView::Help,
            Command::Insert(k, v) => CommandView::Insert(k@, v@),
            Command::Delete(k) => CommandView::Delete(k@),
            Command::Lookup(k) => CommandView::Lookup(k@),
            Command::ListKeys => CommandView::ListKeys,
        }
    }
}

impl PartialEq for Command {
    /// Two commands are equal when they say the same thing.
    fn eq(&self, other: &Self) -> (r: bool) {
        match (self, other) {
            (Command::Quit, Command::Quit) => true,
            (Command::Help, Command::Help) => true,
            (Command::Insert(a, b), Command::Insert(c, d)) => *a == *c && *b == *d,
            (Command::Delete(a), Command::Delete(b)) => *a == *b,
            (Command::Lookup(a), Command::Lookup(b)) => *a == *b,
            (Command::ListKeys, Command::ListKeys) => true,
            _ => false,
        }
    }
}

impl vstd::std_specs::cmp::PartialEqSpecImpl for Command {
    open spec fn obeys_eq_spec() -> bool {
        true
    }

    open spec fn eq_spec(&self, other: &Command) -> bool {
        self@ == other@
    }
}

} // verus!
