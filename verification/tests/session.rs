use roster::command::Command;
use roster::company::Company;
use roster::company::Department;
use roster::session::greeting;
use roster::session::run;
use roster::session::Event;
use roster::session::Phase;
use roster::session::Session;
use roster::session::HELP_PAGE;
use roster::session::PROMPT;

fn names(list: &[&str]) -> Vec<String> {
    list.iter().map(|s| s.to_string()).collect()
}

fn sample() -> Session {
    let mut s = Session::new(Company::new());
    s.step(Event::Line("add Bob to Engineering\n"));
    s.step(Event::Line("add alice to engineering\n"));
    s.step(Event::Line("add carol to Sales\n"));
    s
}

#[test]
fn help_page_wording() {
    let expected = "Available commands:\n\
- 'add x to y' - adds person x to department y\n\
- 'remove x from y' - removes person x from department y\n\
- 'list department x' - lists people from department x\n\
- 'list company' - lists everyone by department\n\
- 'help' - displays help page\n\
- 'exit' - exits the program\n";
    assert_eq!(HELP_PAGE, expected);
    assert_eq!(HELP_PAGE.lines().count(), 7);
}

#[test]
fn prompt_wording() {
    assert_eq!(PROMPT, "> ");
}

#[test]
fn greeting_is_the_help_page_and_empty_lines() {
    assert_eq!(greeting(), format!("{}\n\n", HELP_PAGE));
}

#[test]
fn a_session_starts_running() {
    let s = Session::new(Company::new());
    assert!(s.is_running());
    assert_eq!(s.phase, Phase::Running);
}

#[test]
fn add_confirms_with_the_names_as_typed() {
    let mut s = Session::new(Company::new());
    let r = s.step(Event::Line("add Bob to Engineering\n"));
    assert_eq!(r.output, "Added Bob to Engineering!\n");
    assert!(r.persist);
    assert!(s.is_running());
    assert_eq!(s.company.department("engineering"), Some(&names(&["Bob"])));
}

#[test]
fn remove_prints_nothing_when_it_removes() {
    let mut s = sample();
    let r = s.step(Event::Line("remove Bob from ENGINEERING\n"));
    assert_eq!(r.output, "");
    assert!(r.persist);
    assert_eq!(s.company.department("engineering"), Some(&names(&["alice"])));
}

#[test]
fn remove_reports_a_person_who_is_not_there() {
    let mut s = sample();
    let before = s.company.departments().clone();
    let r = s.step(Event::Line("remove bob from Engineering\n"));
    assert_eq!(r.output, "Person bob is not in engineering!\n");
    assert!(!r.persist);
    assert_eq!(s.company.departments(), &before);
}

#[test]
fn remove_reports_a_department_that_is_not_there() {
    let mut s = sample();
    let before = s.company.departments().clone();
    let r = s.step(Event::Line("remove Bob from Ops\n"));
    assert_eq!(r.output, "Company doesn't have department with name ops!\n");
    assert!(!r.persist);
    assert_eq!(s.company.departments(), &before);
}

#[test]
fn list_department_prints_heading_and_people() {
    let mut s = sample();
    let r = s.step(Event::Line("list department engineering\n"));
    assert_eq!(r.output, "List of people in engineering\n- alice\n- Bob\n");
    assert!(!r.persist);
}

#[test]
fn list_department_takes_the_name_as_typed() {
    let mut s = sample();
    let r = s.step(Event::Line("list department Engineering\n"));
    assert_eq!(r.output, "Department Engineering doesn't exist!\n");
    assert!(!r.persist);
}

#[test]
fn list_department_after_the_last_person_left() {
    let mut s = sample();
    s.step(Event::Line("remove carol from sales\n"));
    let r = s.step(Event::Line("list department sales\n"));
    assert_eq!(r.output, "Department sales doesn't exist!\n");
}

#[test]
fn list_company_prints_every_department() {
    let mut s = sample();
    let r = s.step(Event::Line("list company\n"));
    assert_eq!(
        r.output,
        "List of people in engineering:\n- alice\n- Bob\nList of people in sales:\n- carol\n"
    );
    assert!(!r.persist);
}

#[test]
fn list_company_of_an_empty_company_prints_nothing() {
    let mut s = Session::new(Company::new());
    let r = s.step(Event::Line("list company\n"));
    assert_eq!(r.output, "");
    assert!(!r.persist);
}

#[test]
fn help_prints_the_help_page() {
    let mut s = sample();
    let r = s.step(Event::Line("help\n"));
    assert_eq!(r.output, format!("{}\n", HELP_PAGE));
    assert!(!r.persist);
    assert!(s.is_running());
}

#[test]
fn unknown_command_changes_nothing() {
    let mut s = sample();
    let before = s.company.departments().clone();
    let r = s.step(Event::Line("foobar baz\n"));
    assert_eq!(r.output, "Invalid command!\n");
    assert!(!r.persist);
    assert!(s.is_running());
    assert_eq!(s.company.departments(), &before);
}

#[test]
fn empty_line_is_an_invalid_command() {
    let mut s = Session::new(Company::new());
    let r = s.step(Event::Line("\n"));
    assert_eq!(r.output, "Invalid command!\n");
    assert!(!r.persist);
    assert!(s.is_running());
}

#[test]
fn exit_ends_the_session() {
    let mut s = sample();
    let r = s.step(Event::Line("exit\n"));
    assert_eq!(r.output, "");
    assert!(!r.persist);
    assert!(!s.is_running());
    assert_eq!(s.phase, Phase::Terminated);
}

#[test]
fn end_of_input_ends_the_session() {
    let mut s = sample();
    let r = s.step(Event::End);
    assert_eq!(r.output, "");
    assert!(!r.persist);
    assert_eq!(s.phase, Phase::Terminated);
}

#[test]
fn nothing_happens_after_the_end() {
    let mut s = sample();
    s.step(Event::Line("exit\n"));
    let before = s.company.departments().clone();
    let r = s.step(Event::Line("add x to y\n"));
    assert_eq!(r.output, "");
    assert!(!r.persist);
    assert_eq!(s.phase, Phase::Terminated);
    assert_eq!(s.company.departments(), &before);
    let r = s.step(Event::End);
    assert_eq!(r.output, "");
    assert_eq!(s.phase, Phase::Terminated);
}

#[test]
fn only_exit_ends_the_session() {
    let mut s = Session::new(Company::new());
    for line in ["add a to b", "remove a from b", "remove a from b", "list department b", "list company", "help", "quit", "", "exit now"] {
        s.step(Event::Line(line));
        assert!(s.is_running(), "{:?}", line);
    }
}

#[test]
fn run_takes_a_command() {
    let mut c = Company::from_departments(vec![Department {
        name: "eng".to_string(),
        people: names(&["zed", "Amy"]),
    }]);
    let r = run(&mut c, &Command::ListDepartment { department: "eng".to_string() });
    assert_eq!(r.output, "List of people in eng\n- zed\n- Amy\n");
    let r = run(
        &mut c,
        &Command::Add { person: "bob".to_string(), department: "ENG".to_string() },
    );
    assert_eq!(r.output, "Added bob to ENG!\n");
    assert!(r.persist);
    assert_eq!(c.department("eng"), Some(&names(&["Amy", "bob", "zed"])));
}
