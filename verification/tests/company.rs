use roster::company::Company;
use roster::company::Department;
use roster::company::Removal;

fn names(list: &[&str]) -> Vec<String> {
    list.iter().map(|s| s.to_string()).collect()
}

fn department(name: &str, people: &[&str]) -> Department {
    Department { name: name.to_string(), people: names(people) }
}

#[test]
fn a_new_company_has_no_departments() {
    let c = Company::new();
    assert!(c.departments().is_empty());
    assert_eq!(c.department("eng"), None);
}

#[test]
fn adding_twice_gives_two_entries() {
    let mut c = Company::new();
    c.add("x", "y");
    c.add("x", "y");
    assert_eq!(c.department("y"), Some(&names(&["x", "x"])));
    assert_eq!(c.departments().len(), 1);
}

#[test]
fn add_keeps_the_list_in_order() {
    let mut c = Company::new();
    c.add("Bob", "eng");
    c.add("alice", "eng");
    assert_eq!(c.department("eng"), Some(&names(&["alice", "Bob"])));
    c.add("Carol", "eng");
    c.add("bob", "eng");
    assert_eq!(c.department("eng"), Some(&names(&["alice", "Bob", "bob", "Carol"])));
}

#[test]
fn add_keeps_the_person_as_written() {
    let mut c = Company::new();
    c.add("McAdam", "eng");
    assert_eq!(c.department("eng"), Some(&names(&["McAdam"])));
}

#[test]
fn add_stores_the_department_in_lower_case() {
    let mut c = Company::new();
    c.add("x", "SALES");
    assert_eq!(c.department("sales"), Some(&names(&["x"])));
    assert_eq!(c.department("SALES"), None);
    assert_eq!(c.departments()[0].name, "sales");
    c.add("y", "Sales");
    assert_eq!(c.department("sales"), Some(&names(&["x", "y"])));
    assert_eq!(c.departments().len(), 1);
}

#[test]
fn add_folds_case_beyond_ascii() {
    let mut c = Company::new();
    c.add("x", "ÉCOLE");
    assert_eq!(c.department("école"), Some(&names(&["x"])));
}

#[test]
fn add_sorts_a_list_that_was_out_of_order() {
    let mut c = Company::from_departments(vec![department("eng", &["zed", "Yves", "xavier"])]);
    c.add("bob", "eng");
    assert_eq!(c.department("eng"), Some(&names(&["bob", "xavier", "Yves", "zed"])));
}

#[test]
fn removing_the_last_person_deletes_the_department() {
    let mut c = Company::new();
    c.add("x", "Eng");
    assert_eq!(c.remove("x", "Eng"), Removal::Removed);
    assert_eq!(c.department("eng"), None);
    assert!(c.departments().is_empty());
}

#[test]
fn remove_folds_the_case_of_the_department() {
    let mut c = Company::new();
    c.add("x", "Sales");
    assert_eq!(c.remove("x", "SALES"), Removal::Removed);
    assert_eq!(c.department("sales"), None);
    assert!(c.departments().is_empty());
}

#[test]
fn remove_matches_the_person_exactly() {
    let mut c = Company::new();
    c.add("Bob", "eng");
    assert_eq!(c.remove("bob", "eng"), Removal::NoSuchPerson);
    assert_eq!(c.department("eng"), Some(&names(&["Bob"])));
    assert_eq!(c.remove("Bob", "eng"), Removal::Removed);
}

#[test]
fn remove_from_a_department_that_is_not_there() {
    let mut c = Company::new();
    c.add("Bob", "eng");
    assert_eq!(c.remove("Bob", "ops"), Removal::NoSuchDepartment);
    assert_eq!(c.department("eng"), Some(&names(&["Bob"])));
}

#[test]
fn remove_takes_one_entry_of_several() {
    let mut c = Company::new();
    c.add("x", "y");
    c.add("x", "y");
    c.add("a", "y");
    assert_eq!(c.remove("x", "y"), Removal::Removed);
    assert_eq!(c.department("y"), Some(&names(&["a", "x"])));
}

#[test]
fn remove_takes_the_first_exact_match() {
    let mut c = Company::from_departments(vec![department("d", &["b", "a", "b", "c"])]);
    assert_eq!(c.remove("b", "d"), Removal::Removed);
    assert_eq!(c.department("d"), Some(&names(&["a", "b", "c"])));
}

#[test]
fn remove_leaves_an_empty_stored_department_alone() {
    let mut c = Company::from_departments(vec![department("x", &[])]);
    assert_eq!(c.remove("a", "x"), Removal::NoSuchPerson);
    assert_eq!(c.department("x"), Some(&names(&[])));
}

#[test]
fn lookup_takes_the_name_as_written() {
    let mut c = Company::new();
    c.add("x", "Sales");
    assert_eq!(c.department("Sales"), None);
    assert_eq!(c.department("sales"), Some(&names(&["x"])));
}

#[test]
fn departments_are_stored_by_name() {
    let mut c = Company::new();
    c.add("c", "sales");
    c.add("a", "eng");
    c.add("b", "ops");
    c.add("d", "admin");
    let stored: Vec<&str> = c.departments().iter().map(|d| d.name.as_str()).collect();
    assert_eq!(stored, vec!["admin", "eng", "ops", "sales"]);
}

#[test]
fn from_departments_takes_the_last_list_of_a_name() {
    let c = Company::from_departments(vec![
        department("b", &["x"]),
        department("a", &["y"]),
        department("b", &["z", "w"]),
    ]);
    assert_eq!(c.departments(), &vec![department("a", &["y"]), department("b", &["z", "w"])]);
}

#[test]
fn a_company_rebuilt_from_its_departments_is_the_same() {
    let mut c = Company::new();
    c.add("Bob", "Eng");
    c.add("alice", "eng");
    c.add("carol", "Sales");
    let again = Company::from_departments(c.departments().clone());
    assert_eq!(again.departments(), c.departments());
}

#[test]
fn the_default_company_has_no_departments() {
    let c = Company::default();
    assert!(c.departments().is_empty());
}
