//! The dialogue: what each command does to the company, what it prints, and
//! when the session ends.

use vstd::prelude::*;
use vstd::string::StringExecFns;
use crate::command::parse;
use crate::command::parse_line;
use crate::command::Command;
use crate::command::CommandView;
use crate::company::entry_views;
use crate::company::removal_of;
use crate::company::roster_add;
use crate::company::roster_remove;
use crate::company::Company;
use crate::company::Department;
use crate::company::Entry;
use crate::company::Removal;
use crate::text::lower;
use crate::text::lowercase;
use crate::text::string_views;

verus! {

/// The help page.
pub const HELP_PAGE: &'static str =
    "Available commands:\n- 'add x to y' - adds person x to department y\n- 'remove x from y' - removes person x from department y\n- 'list department x' - lists people from department x\n- 'list company' - lists everyone by department\n- 'help' - displays help page\n- 'exit' - exits the program\n";

/// What is shown before each line is read.
pub const PROMPT: &'static str = "> ";

/// What `help` prints: the help page and an empty line.
pub open spec fn help_text() -> Seq<char> {
    HELP_PAGE@ + "\n"@
}

/// What the session prints when it starts: what `help` prints, and one more
/// empty line.
pub open spec fn greeting_text() -> Seq<char> {
    help_text() + "\n"@
}

/// What a line that is no command prints.
pub open spec fn invalid_text() -> Seq<char> {
    "Invalid command!\n"@
}

/// What `add` prints: the person and the department as they were typed.
pub open spec fn added_text(person: Seq<char>, department: Seq<char>) -> Seq<char> {
    "Added "@ + person + " to "@ + department + "!\n"@
}

/// What `remove` prints where the department, named by its key, has nobody
/// of that name.
pub open spec fn no_person_text(person: Seq<char>, key: Seq<char>) -> Seq<char> {
    "Person "@ + person + " is not in "@ + key + "!\n"@
}

/// What `remove` prints where the company has no department of that key.
pub open spec fn no_department_text(key: Seq<char>) -> Seq<char> {
    "Company doesn't have department with name "@ + key + "!\n"@
}

/// What `list department` prints where the company has no department of
/// that name.
pub open spec fn unknown_department_text(name: Seq<char>) -> Seq<char> {
    "Department "@ + name + " doesn't exist!\n"@
}

/// The lines of a list of people: a marker and the name, one line each.
pub open spec fn people_text(people: Seq<Seq<char>>) -> Seq<char>
    decreases people.len(),
{
    if people.len() == 0 {
        Seq::empty()
    } else {
        people_text(people.drop_last()) + "- "@ + people.last() + "\n"@
    }
}

/// What `list department` prints for a department that the company has: a
/// heading with the name as typed, then the people.
pub open spec fn department_text(name: Seq<char>, people: Seq<Seq<char>>) -> Seq<char> {
    "List of people in "@ + name + "\n"@ + people_text(people)
}

/// What `list company` prints: for each department in turn a heading with
/// its name and a colon, then its people.
pub open spec fn company_text(e: Seq<Entry>) -> Seq<char>
    decreases e.len(),
{
    if e.len() == 0 {
        Seq::empty()
    } else {
        company_text(e.drop_last()) + "List of people in "@ + e.last().name + ":\n"@ + people_text(
            e.last().people,
        )
    }
}

/// The roster after `command` has run on the roster `m`.
pub open spec fn roster_after(
    m: Map<Seq<char>, Seq<Seq<char>>>,
    command: CommandView,
) -> Map<Seq<char>, Seq<Seq<char>>> {
    match command {
        CommandView::Add { person, department } => roster_add(m, person, department),
        CommandView::Remove { person, department } => roster_remove(m, person, department),
        _ => m,
    }
}

/// Whether the company is to be stored after `command` has run on the roster
/// `m`: after every `add`, and after a `remove` that removed someone.
pub open spec fn persists(m: Map<Seq<char>, Seq<Seq<char>>>, command: CommandView) -> bool {
    match command {
        CommandView::Add { .. } => true,
        CommandView::Remove { person, department } => removal_of(m, person, department)
            == Removal::Removed,
        _ => false,
    }
}

/// What `command` prints when it runs on the company `c`.
pub open spec fn reply_text(c: Company, command: CommandView) -> Seq<char> {
    match command {
        CommandView::Add { person, department } => added_text(person, department),
        CommandView::Remove { person, department } => match removal_of(c@, person, department) {
            Removal::Removed => Seq::empty(),
            Removal::NoSuchPerson => no_person_text(person, lower(department)),
            Removal::NoSuchDepartment => no_department_text(lower(department)),
        },
        CommandView::ListDepartment { department } => if c@.contains_key(department) {
            department_text(department, c@[department])
        } else {
            unknown_department_text(department)
        },
        CommandView::ListCompany => company_text(c.entries()),
        CommandView::Help => help_text(),
        CommandView::Exit => Seq::empty(),
        CommandView::Invalid => invalid_text(),
    }
}

/// What a command asks of the program that runs the session.
#[derive(Debug)]
pub struct Reply {
    /// The text to print, with its line ends.
    pub output: String,
    /// Whether the company is to be stored now.
    pub persist: bool,
}

/// Where a session stands.
#[derive(Clone, Copy, Debug, PartialEq, Eq, Structural)]
pub enum Phase {
    /// Commands are read and run.
    Running,
    /// The session is over.
    Terminated,
}

/// What reaches a session: a line of input, or the end of the input.
pub enum Event<'a> {
    Line(&'a str),
    End,
}

/// A session: the company and where the dialogue stands.
#[derive(Debug)]
pub struct Session {
    pub company: Company,
    pub phase: Phase,
}

/// The text that a session prints when it starts.
pub fn greeting() -> (s: String)
    ensures
        s@ == greeting_text(),
{
    String::from_str(HELP_PAGE).concat("\n").concat("\n")
}

fn write_people(out: &mut String, people: &Vec<String>)
    ensures
        final(out)@ == old(out)@ + people_text(string_views(people@)),
{
    let ghost all = string_views(people@);
    let mut i: usize = 0;
    assert(old(out)@ + people_text(all.take(0)) =~= old(out)@);
    while i < people.len()
        invariant
            i <= people.len(),
            all == string_views(people@),
            out@ == old(out)@ + people_text(all.take(i as int)),
        decreases people.len() - i,
    {
        proof {
            assert(all.take(i + 1).drop_last() =~= all.take(i as int));
            assert(all.take(i + 1).last() == people[i as int]@);
            assert(old(out)@ + people_text(all.take(i as int)) + "- "@ + people[i as int]@ + "\n"@
                =~= old(out)@ + people_text(all.take(i + 1)));
        }
        out.append("- ");
        out.append(people[i].as_str());
        out.append("\n");
        i = i + 1;
    }
    assert(all.take(i as int) =~= all);
}

fn write_company(out: &mut String, departments: &Vec<Department>)
    ensures
        final(out)@ == old(out)@ + company_text(entry_views(departments@)),
{
    let ghost all = entry_views(departments@);
    let mut i: usize = 0;
    assert(old(out)@ + company_text(all.take(0)) =~= old(out)@);
    while i < departments.len()
        invariant
            i <= departments.len(),
            all == entry_views(departments@),
            out@ == old(out)@ + company_text(all.take(i as int)),
        decreases departments.len() - i,
    {
        proof {
            assert(all.take(i + 1).drop_last() =~= all.take(i as int));
            assert(all.take(i + 1).last() == departments[i as int]@);
            assert(old(out)@ + company_text(all.take(i as int)) + "List of people in "@
                + departments[i as int]@.name + ":\n"@ + people_text(departments[i as int]@.people)
                =~= old(out)@ + company_text(all.take(i + 1)));
        }
        out.append("List of people in ");
        out.append(departments[i].name.as_str());
        out.append(":\n");
        write_people(out, &departments[i].people);
        i = i + 1;
    }
    assert(all.take(i as int) =~= all);
}

/// Runs `command` on `company`: changes the company as the command asks, and
/// returns what to print and whether the company is to be stored.
pub fn run(company: &mut Company, command: &Command) -> (r: Reply)
    requires
        old(company).wf(),
    ensures
        final(company).wf(),
        final(company)@ == roster_after(old(company)@, command@),
        !persists(old(company)@, command@) ==> *final(company) == *old(company),
        r.output@ == reply_text(*old(company), command@),
        r.persist == persists(old(company)@, command@),
{
    let mut output = String::new();
    let mut persist: bool = false;
    match command {
        Command::Add { person, department } => {
            company.add(person.as_str(), department.as_str());
            output.append("Added ");
            output.append(person.as_str());
            output.append(" to ");
            output.append(department.as_str());
            output.append("!\n");
            persist = true;
        },
        Command::Remove { person, department } => {
            match company.remove(person.as_str(), department.as_str()) {
                Removal::Removed => {
                    persist = true;
                },
                Removal::NoSuchPerson => {
                    let key = lowercase(department.as_str());
                    output.append("Person ");
                    output.append(person.as_str());
                    output.append(" is not in ");
                    output.append(key.as_str());
                    output.append("!\n");
                },
                Removal::NoSuchDepartment => {
                    let key = lowercase(department.as_str());
                    output.append("Company doesn't have department with name ");
                    output.append(key.as_str());
                    output.append("!\n");
                },
            }
        },
        Command::ListDepartment { department } => {
            match company.department(department.as_str()) {
                Some(people) => {
                    output.append("List of people in ");
                    output.append(department.as_str());
                    output.append("\n");
                    write_people(&mut output, people);
                },
                None => {
                    output.append("Department ");
                    output.append(department.as_str());
                    output.append(" doesn't exist!\n");
                },
            }
        },
        Command::ListCompany => {
            write_company(&mut output, company.departments());
        },
        Command::Help => {
            output.append(HELP_PAGE);
            output.append("\n");
        },
        Command::Exit => {},
        Command::Invalid => {
            output.append("Invalid command!\n");
        },
    }
    assert(output@ =~= reply_text(*old(company), command@));
    Reply { output, persist }
}

impl Session {
    /// The company is well formed.
    pub open spec fn wf(&self) -> bool {
        self.company.wf()
    }

    /// A session on `company` that is ready for its first line.
    pub fn new(company: Company) -> (s: Session)
        requires
            company.wf(),
        ensures
            s.wf(),
            s.company == company,
            s.phase == Phase::Running,
    {
        Session { company, phase: Phase::Running }
    }

    /// Whether the session still reads commands.
    pub fn is_running(&self) -> (r: bool)
        ensures
            r == (self.phase == Phase::Running),
    {
        self.phase == Phase::Running
    }

    /// Takes the next event. A line is read as a command and run on the
    /// company. The session ends with `exit` and with the end of the input,
    /// and with nothing else; once it has ended, an event changes nothing
    /// and prints nothing.
    pub fn step(&mut self, event: Event) -> (r: Reply)
        requires
            old(self).wf(),
        ensures
            final(self).wf(),
            old(self).phase == Phase::Terminated ==> *final(self) == *old(self) && r.output@
                == Seq::<char>::empty() && !r.persist,
            old(self).phase == Phase::Running ==> match event {
                Event::Line(line) => {
                    &&& final(self).company@ == roster_after(old(self).company@, parse_line(line@))
                    &&& !persists(old(self).company@, parse_line(line@)) ==> final(self).company
                        == old(self).company
                    &&& r.output@ == reply_text(old(self).company, parse_line(line@))
                    &&& r.persist == persists(old(self).company@, parse_line(line@))
                    &&& final(self).phase == if parse_line(line@) is Exit {
                        Phase::Terminated
                    } else {
                        Phase::Running
                    }
                },
                Event::End => {
                    &&& final(self).company == old(self).company
                    &&& final(self).phase == Phase::Terminated
                    &&& r.output@ == Seq::<char>::empty()
                    &&& !r.persist
                },
            },
    {
        if !self.is_running() {
            return Reply { output: String::new(), persist: false };
        }
        match event {
            Event::Line(line) => {
                let command = parse(line);
                let reply = run(&mut self.company, &command);
                if let Command::Exit = command {
                    self.phase = Phase::Terminated;
                }
                reply
            },
            Event::End => {
                self.phase = Phase::Terminated;
                Reply { output: String::new(), persist: false }
            },
        }
    }
}

} // verus!
