//! The commands and the grammar of a command line.

use vstd::prelude::*;
use crate::text::same_text;
use crate::text::slice_views;
use crate::text::split_words;
use crate::text::words;

verus! {

/// One command, as read from a line.
#[derive(Debug, PartialEq, Eq)]
pub enum Command {
    /// `add <person> to <department>`
    Add { person: String, department: String },
    /// `remove <person> from <department>`
    Remove { person: String, department: String },
    /// `list department <department>`
    ListDepartment { department: String },
    /// `list company`
    ListCompany,
    /// `help`
    Help,
    /// `exit`
    Exit,
    /// Any other line, the empty one too.
    Invalid,
}

/// A command as the contracts see it: the same cases, over plain text.
pub enum CommandView {
    Add { person: Seq<char>, department: Seq<char> },
    Remove { person: Seq<char>, department: Seq<char> },
    ListDepartment { department: Seq<char> },
    ListCompany,
    Help,
    Exit,
    Invalid,
}

impl View for Command {
    type V = CommandView;

    open spec fn view(&self) -> CommandView {
        match self {
            Command::Add { person, department } => CommandView::Add {
                person: person@,
                department: department@,
            },
            Command::Remove { person, department } => CommandView::Remove {
                person: person@,
                department: department@,
            },
            Command::ListDepartment { department } => CommandView::ListDepartment {
                department: department@,
            },
            Command::ListCompany => CommandView::ListCompany,
            Command::Help => CommandView::Help,
            Command::Exit => CommandView::Exit,
            Command::Invalid => CommandView::Invalid,
        }
    }
}

/// The command that a list of words spells. A shape is matched by the number
/// of words and by its keywords, which are written in lower case; names are
/// taken as they are written.
pub open spec fn command_of(w: Seq<Seq<char>>) -> CommandView {
    if w.len() == 4 && w[0] == "add"@ && w[2] == "to"@ {
        CommandView::Add { person: w[1], department: w[3] }
    } else if w.len() == 4 && w[0] == "remove"@ && w[2] == "from"@ {
        CommandView::Remove { person: w[1], department: w[3] }
    } else if w.len() == 3 && w[0] == "list"@ && w[1] == "department"@ {
        CommandView::ListDepartment { department: w[2] }
    } else if w.len() == 2 && w[0] == "list"@ && w[1] == "company"@ {
        CommandView::ListCompany
    } else if w.len() == 1 && w[0] == "help"@ {
        CommandView::Help
    } else if w.len() == 1 && w[0] == "exit"@ {
        CommandView::Exit
    } else {
        CommandView::Invalid
    }
}

/// The command that a line spells: that of its words.
pub open spec fn parse_line(line: Seq<char>) -> CommandView {
    command_of(words(line))
}

/// Reads the command that `w` spells.
pub fn read_command(w: &Vec<&str>) -> (c: Command)
    ensures
        c@ == command_of(slice_views(w@)),
{
    let n: usize = w.len();
    if n == 4 && same_text(w[0], "add") && same_text(w[2], "to") {
        Command::Add { person: w[1].to_owned(), department: w[3].to_owned() }
    } else if n == 4 && same_text(w[0], "remove") && same_text(w[2], "from") {
        Command::Remove { person: w[1].to_owned(), department: w[3].to_owned() }
    } else if n == 3 && same_text(w[0], "list") && same_text(w[1], "department") {
        Command::ListDepartment { department: w[2].to_owned() }
    } else if n == 2 && same_text(w[0], "list") && same_text(w[1], "company") {
        Command::ListCompany
    } else if n == 1 && same_text(w[0], "help") {
        Command::Help
    } else if n == 1 && same_text(w[0], "exit") {
        Command::Exit
    } else {
        Command::Invalid
    }
}

/// Reads the command that `line` spells: the line is split at white space,
/// and its words are matched against the shapes of the commands.
pub fn parse(line: &str) -> (c: Command)
    ensures
        c@ == parse_line(line@),
{
    let w = split_words(line);
    read_command(&w)
}

} // verus!
