//! What holds of the roster whatever its state and whatever the command.

use vstd::prelude::*;
use crate::command::CommandView;
use crate::company::ascending;
use crate::company::lemma_roster_of;
use crate::company::lemma_roster_remove;
use crate::company::has_name;
use crate::company::people_of;
use crate::company::removal_of;
use crate::company::roster_add;
use crate::company::roster_of;
use crate::company::roster_remove;
use crate::company::Company;
use crate::company::Entry;
use crate::company::Removal;
use crate::people::first_index;
use crate::people::is_sorted;
use crate::people::lemma_first_index;
use crate::people::lemma_sorted_is_sorted;
use crate::people::lemma_sorted_keeps_entries;
use crate::people::sorted;
use crate::session::reply_text;
use crate::session::unknown_department_text;
use crate::text::lemma_text_le_total_order;
use crate::text::lemma_text_lt;
use crate::text::lower;
use crate::text::name_le;
use crate::text::text_lt;

verus! {

/// Whether every department of `m` has somebody, and has its people in
/// order.
pub open spec fn tidy(m: Map<Seq<char>, Seq<Seq<char>>>) -> bool {
    forall|k: Seq<char>| #[trigger] m.contains_key(k) ==> m[k].len() > 0 && is_sorted(m[k])
}

/// A list of one name is in order as it is.
pub proof fn lemma_sorted_single(x: Seq<char>)
    ensures
        sorted(seq![x]) == seq![x],
{
    let s = seq![x];
    assert(s.drop_last() =~= Seq::<Seq<char>>::empty());
    assert(sorted(s.drop_last()) =~= Seq::<Seq<char>>::empty());
    assert(sorted(s) =~= s);
}

/// `add` adds exactly one entry to the department's list: every name occurs
/// in it as often as before, and the person once more, whether or not the
/// list held that name already. No other department changes.
pub proof fn lemma_add_adds_one(
    m: Map<Seq<char>, Seq<Seq<char>>>,
    person: Seq<char>,
    department: Seq<char>,
)
    ensures
        roster_add(m, person, department).contains_key(lower(department)),
        roster_add(m, person, department)[lower(department)].to_multiset() == people_of(
            m,
            lower(department),
        ).to_multiset().insert(person),
        roster_add(m, person, department)[lower(department)].len() == people_of(
            m,
            lower(department),
        ).len() + 1,
        forall|k: Seq<char>|
            k != lower(department) ==> (#[trigger] roster_add(m, person, department).contains_key(k)
                <==> m.contains_key(k)) && roster_add(m, person, department)[k] == m[k],
{
    broadcast use vstd::seq_lib::group_to_multiset_ensures;

    let held = people_of(m, lower(department));
    lemma_sorted_keeps_entries(held.push(person));
}

/// Adding the same person twice gives two entries, not one: the name then
/// occurs twice more than before, and a department that was not there holds
/// just the two.
pub proof fn lemma_add_twice(
    m: Map<Seq<char>, Seq<Seq<char>>>,
    person: Seq<char>,
    department: Seq<char>,
)
    ensures
        roster_add(roster_add(m, person, department), person, department)[lower(
            department,
        )].to_multiset().count(person) == people_of(m, lower(department)).to_multiset().count(
            person,
        ) + 2,
        !m.contains_key(lower(department)) ==> roster_add(
            roster_add(m, person, department),
            person,
            department,
        )[lower(department)] == seq![person, person],
{
    let key = lower(department);
    let once = roster_add(m, person, department);
    lemma_add_adds_one(m, person, department);
    lemma_add_adds_one(once, person, department);
    if !m.contains_key(key) {
        assert(people_of(m, key).push(person) =~= seq![person]);
        lemma_sorted_single(person);
        let two = seq![person, person];
        assert(two.drop_last() =~= seq![person]);
        lemma_text_le_total_order(lower(person), lower(person), lower(person));
        assert(sorted(two) =~= two);
        assert(once[key].push(person) =~= two);
    }
}

/// After any `add`, whatever the list held before, the department's list is
/// in order.
pub proof fn lemma_add_sorts(
    m: Map<Seq<char>, Seq<Seq<char>>>,
    person: Seq<char>,
    department: Seq<char>,
)
    ensures
        is_sorted(roster_add(m, person, department)[lower(department)]),
{
    lemma_sorted_is_sorted(people_of(m, lower(department)).push(person));
}

/// Taking an entry out of a list in order leaves a list in order.
pub proof fn lemma_remove_keeps_order(s: Seq<Seq<char>>, i: int)
    requires
        is_sorted(s),
        0 <= i < s.len(),
    ensures
        is_sorted(s.remove(i)),
{
    let r = s.remove(i);
    assert forall|a: int, b: int| 0 <= a < b < r.len() implies name_le(
        #[trigger] r[a],
        #[trigger] r[b],
    ) by {
        let a0 = if a < i { a } else { a + 1 };
        let b0 = if b < i { b } else { b + 1 };
        assert(r[a] == s[a0] && r[b] == s[b0]);
    }
}

/// The roster without departments is tidy, and `add` and `remove` keep a
/// tidy roster tidy: no department is left without people, and every list
/// stays in order.
pub proof fn lemma_commands_keep_tidy(
    m: Map<Seq<char>, Seq<Seq<char>>>,
    person: Seq<char>,
    department: Seq<char>,
)
    ensures
        tidy(Map::<Seq<char>, Seq<Seq<char>>>::empty()),
        tidy(m) ==> tidy(roster_add(m, person, department)),
        tidy(m) ==> tidy(roster_remove(m, person, department)),
{
    let key = lower(department);
    if tidy(m) {
        lemma_add_adds_one(m, person, department);
        lemma_add_sorts(m, person, department);
        let added = roster_add(m, person, department);
        assert forall|k: Seq<char>| #[trigger] added.contains_key(k) implies added[k].len() > 0
            && is_sorted(added[k]) by {
            if k != key {
                assert(m.contains_key(k));
            }
        }
        let removed = roster_remove(m, person, department);
        if removal_of(m, person, department) == Removal::Removed {
            lemma_first_index(m[key], person);
            let at = first_index(m[key], person).unwrap();
            lemma_remove_keeps_order(m[key], at);
            assert forall|k: Seq<char>| #[trigger] removed.contains_key(k) implies removed[k].len()
                > 0 && is_sorted(removed[k]) by {
                if k != key {
                    assert(m.contains_key(k));
                }
            }
        }
    }
}

/// Removing the only person of a department removes the department: the
/// roster has no such key afterwards, and is otherwise as it was.
pub proof fn lemma_remove_last_person(
    m: Map<Seq<char>, Seq<Seq<char>>>,
    person: Seq<char>,
    department: Seq<char>,
)
    requires
        m.contains_key(lower(department)),
        m[lower(department)] == seq![person],
    ensures
        removal_of(m, person, department) == Removal::Removed,
        roster_remove(m, person, department) == m.remove(lower(department)),
        !roster_remove(m, person, department).contains_key(lower(department)),
{
    let list = m[lower(department)];
    assert(list[0] == person);
    assert(list.remove(0) =~= Seq::<Seq<char>>::empty());
}

/// Once its last person has been removed, a department is not listed any
/// more: `list department` with its key says that it does not exist.
pub proof fn lemma_listing_after_last_removal(
    before: Company,
    after: Company,
    person: Seq<char>,
    department: Seq<char>,
)
    requires
        before@.contains_key(lower(department)),
        before@[lower(department)] == seq![person],
        after@ == roster_remove(before@, person, department),
    ensures
        reply_text(after, CommandView::ListDepartment { department: lower(department) })
            == unknown_department_text(lower(department)),
{
    lemma_remove_last_person(before@, person, department);
}

/// `add` and `remove` find a department under the same key: whoever was
/// added under one spelling of a department's name is found and removed
/// under any spelling with the same lowercase form.
pub proof fn lemma_remove_finds_added(
    m: Map<Seq<char>, Seq<Seq<char>>>,
    person: Seq<char>,
    added_to: Seq<char>,
    removed_from: Seq<char>,
)
    requires
        lower(added_to) == lower(removed_from),
    ensures
        removal_of(roster_add(m, person, added_to), person, removed_from) == Removal::Removed,
{
    broadcast use vstd::seq_lib::group_to_multiset_ensures;

    let list = roster_add(m, person, added_to)[lower(added_to)];
    lemma_add_adds_one(m, person, added_to);
    assert(list.to_multiset().count(person) > 0);
    assert(list.contains(person));
    lemma_first_index(list, person);
}

/// Adding a person to a department that was not there, and removing the
/// person again under any spelling with the same lowercase form, gives back
/// the roster as it was, without the department.
pub proof fn lemma_remove_undoes_add(
    m: Map<Seq<char>, Seq<Seq<char>>>,
    person: Seq<char>,
    added_to: Seq<char>,
    removed_from: Seq<char>,
)
    requires
        lower(added_to) == lower(removed_from),
        !m.contains_key(lower(added_to)),
    ensures
        roster_remove(roster_add(m, person, added_to), person, removed_from) == m,
        !roster_remove(roster_add(m, person, added_to), person, removed_from).contains_key(
            lower(removed_from),
        ),
{
    let key = lower(added_to);
    let added = roster_add(m, person, added_to);
    assert(people_of(m, key).push(person) =~= seq![person]);
    lemma_sorted_single(person);
    lemma_remove_last_person(added, person, removed_from);
    assert(added.remove(key) =~= m);
}

/// A roster has one stored form: lists of departments with strictly
/// ascending names that stand for the same roster are the same list.
pub proof fn lemma_roster_determines_entries(a: Seq<Entry>, b: Seq<Entry>)
    requires
        ascending(a),
        ascending(b),
        roster_of(a) == roster_of(b),
    ensures
        a == b,
    decreases a.len(),
{
    lemma_roster_of(a);
    lemma_roster_of(b);
    if a.len() == 0 || b.len() == 0 {
        if a.len() > 0 {
            assert(has_name(a, a[0].name));
            assert(roster_of(b).contains_key(a[0].name));
        }
        if b.len() > 0 {
            assert(has_name(b, b[0].name));
            assert(roster_of(a).contains_key(b[0].name));
        }
        assert(a =~= b);
    } else {
        let x = a.last();
        let y = b.last();
        assert(has_name(a, x.name)) by {
            assert(a[a.len() - 1].name == x.name);
        }
        assert(has_name(b, y.name)) by {
            assert(b[b.len() - 1].name == y.name);
        }
        assert(roster_of(b).contains_key(x.name));
        assert(roster_of(a).contains_key(y.name));
        let j = choose|j: int| 0 <= j < b.len() && (#[trigger] b[j]).name == x.name;
        let i = choose|i: int| 0 <= i < a.len() && (#[trigger] a[i]).name == y.name;
        if j < b.len() - 1 {
            assert(text_lt(b[j].name, b[b.len() - 1].name));
        }
        if i < a.len() - 1 {
            assert(text_lt(a[i].name, a[a.len() - 1].name));
        }
        lemma_text_lt(x.name, y.name, x.name);
        lemma_text_lt(y.name, x.name, y.name);
        lemma_text_le_total_order(x.name, y.name, x.name);
        assert(x.name == y.name);
        assert(roster_of(a)[a[a.len() - 1].name] == x.people);
        assert(roster_of(b)[b[b.len() - 1].name] == y.people);
        assert(x == y);
        lemma_roster_remove(a, a.len() - 1);
        lemma_roster_remove(b, b.len() - 1);
        assert(a.remove(a.len() - 1) =~= a.drop_last());
        assert(b.remove(b.len() - 1) =~= b.drop_last());
        lemma_roster_determines_entries(a.drop_last(), b.drop_last());
        assert(a =~= a.drop_last().push(x));
        assert(b =~= b.drop_last().push(y));
    }
}

/// Two companies with the same roster store the same departments in the same
/// order: a company that is rebuilt from its departments is the company it
/// was.
pub proof fn lemma_same_roster_same_entries(a: Company, b: Company)
    requires
        a.wf(),
        b.wf(),
        a@ == b@,
    ensures
        a.entries() == b.entries(),
{
    lemma_roster_determines_entries(a.entries(), b.entries());
}

} // verus!
