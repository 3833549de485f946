use roster::people::find_name;
use roster::people::sort_names;

fn names(list: &[&str]) -> Vec<String> {
    list.iter().map(|s| s.to_string()).collect()
}

#[test]
fn sort_ignores_case() {
    assert_eq!(sort_names(&names(&["Bob", "alice"])), names(&["alice", "Bob"]));
    assert_eq!(sort_names(&names(&["alice", "Bob"])), names(&["alice", "Bob"]));
    assert_eq!(sort_names(&names(&["b", "C", "a", "D"])), names(&["a", "b", "C", "D"]));
}

#[test]
fn sort_of_nothing_and_of_one() {
    assert_eq!(sort_names(&names(&[])), names(&[]));
    assert_eq!(sort_names(&names(&["x"])), names(&["x"]));
}

#[test]
fn sort_keeps_equal_names_in_their_order() {
    assert_eq!(
        sort_names(&names(&["bob", "Bob", "BOB", "alice", "bOb"])),
        names(&["alice", "bob", "Bob", "BOB", "bOb"])
    );
    assert_eq!(sort_names(&names(&["BOB", "bob"])), names(&["BOB", "bob"]));
}

#[test]
fn sort_keeps_duplicates() {
    assert_eq!(sort_names(&names(&["x", "a", "x"])), names(&["a", "x", "x"]));
}

#[test]
fn sort_orders_a_list_that_was_out_of_order() {
    assert_eq!(
        sort_names(&names(&["delta", "Charlie", "bravo", "Alpha"])),
        names(&["Alpha", "bravo", "Charlie", "delta"])
    );
}

#[test]
fn sort_agrees_with_a_stable_sort_by_lowercase() {
    let lists: [&[&str]; 5] = [
        &["Zoë", "zoe", "ZOË", "adam", "Ädam", "Bob", "bob", "ADAM"],
        &["b", "a", "B", "A", "b", "a"],
        &["İstanbul", "istanbul", "ISTANBUL", "ıstanbul"],
        &["ΣΑΣ", "σας", "Σας"],
        &["10", "9", "a1", "A0", ""],
    ];
    for list in lists {
        let mut expected = names(list);
        expected.sort_by(|a, b| a.to_lowercase().cmp(&b.to_lowercase()));
        assert_eq!(sort_names(&names(list)), expected);
    }
}

#[test]
fn find_name_gives_the_first_exact_match() {
    let list = names(&["alice", "Bob", "bob", "Bob"]);
    assert_eq!(find_name(&list, "alice"), Some(0));
    assert_eq!(find_name(&list, "Bob"), Some(1));
    assert_eq!(find_name(&list, "bob"), Some(2));
    assert_eq!(find_name(&list, "BOB"), None);
    assert_eq!(find_name(&list, ""), None);
    assert_eq!(find_name(&names(&[]), "x"), None);
}
