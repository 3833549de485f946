//! The company: its departments by name, each with its people.

use vstd::prelude::*;
use crate::people::find_name;
use crate::people::first_index;
use crate::people::lemma_first_index;
use crate::people::sort_names;
use crate::people::sorted;
use crate::text::lemma_text_lt;
use crate::text::lower;
use crate::text::lowercase;
use crate::text::string_views;
use crate::text::text_at_most;
use crate::text::text_lt;

verus! {

/// What a department is to the contracts: its name and its people, in the
/// order of its list.
pub struct Entry {
    pub name: Seq<char>,
    pub people: Seq<Seq<char>>,
}

/// One department as it is stored.
#[derive(Clone, Debug, PartialEq, Eq)]
pub struct Department {
    pub name: String,
    pub people: Vec<String>,
}

impl View for Department {
    type V = Entry;

    open spec fn view(&self) -> Entry {
        Entry { name: self.name@, people: string_views(self.people@) }
    }
}

/// The entries of a list of departments.
pub open spec fn entry_views(v: Seq<Department>) -> Seq<Entry> {
    Seq::new(v.len(), |i: int| v[i]@)
}

/// Whether the names of `e` strictly ascend, in the order of their bytes.
pub open spec fn ascending(e: Seq<Entry>) -> bool {
    forall|i: int, j: int| 0 <= i < j < e.len() ==> text_lt((#[trigger] e[i]).name, (#[trigger] e[j]).name)
}

/// Whether an entry of `e` has the name `k`.
pub open spec fn has_name(e: Seq<Entry>, k: Seq<char>) -> bool {
    exists|i: int| 0 <= i < e.len() && (#[trigger] e[i]).name == k
}

/// The mapping that a list of entries stands for: from each name to the
/// people of the last entry with that name.
pub open spec fn roster_of(e: Seq<Entry>) -> Map<Seq<char>, Seq<Seq<char>>>
    decreases e.len(),
{
    if e.len() == 0 {
        Map::empty()
    } else {
        roster_of(e.drop_last()).insert(e.last().name, e.last().people)
    }
}

/// The people of department `key` in `m`, and none where `m` has no such
/// department.
pub open spec fn people_of(m: Map<Seq<char>, Seq<Seq<char>>>, key: Seq<char>) -> Seq<Seq<char>> {
    if m.contains_key(key) {
        m[key]
    } else {
        Seq::empty()
    }
}

/// The roster after `person` has joined `department`: the department's key
/// is the lowercase form of its name, the person goes to the end of its
/// list, and the list is put in order.
pub open spec fn roster_add(
    m: Map<Seq<char>, Seq<Seq<char>>>,
    person: Seq<char>,
    department: Seq<char>,
) -> Map<Seq<char>, Seq<Seq<char>>> {
    let key = lower(department);
    m.insert(key, sorted(people_of(m, key).push(person)))
}

/// How an attempt to remove a person ended.
#[derive(Clone, Copy, Debug, PartialEq, Eq, Structural)]
pub enum Removal {
    /// The first entry with the person's exact name has left the list.
    Removed,
    /// The department has nobody of exactly that name.
    NoSuchPerson,
    /// The company has no such department.
    NoSuchDepartment,
}

/// How removing `person` from `department` ends on the roster `m`.
pub open spec fn removal_of(
    m: Map<Seq<char>, Seq<Seq<char>>>,
    person: Seq<char>,
    department: Seq<char>,
) -> Removal {
    let key = lower(department);
    if !m.contains_key(key) {
        Removal::NoSuchDepartment
    } else if first_index(m[key], person) is None {
        Removal::NoSuchPerson
    } else {
        Removal::Removed
    }
}

/// The roster after an attempt to remove `person` from `department`: the
/// first entry that is exactly `person` leaves the list of the department
/// whose key is the lowercase form of `department`, and a department left
/// without people leaves the roster. Where there is no such department or no
/// such person, the roster stays as it is.
pub open spec fn roster_remove(
    m: Map<Seq<char>, Seq<Seq<char>>>,
    person: Seq<char>,
    department: Seq<char>,
) -> Map<Seq<char>, Seq<Seq<char>>> {
    let key = lower(department);
    if removal_of(m, person, department) == Removal::Removed {
        let rest = m[key].remove(first_index(m[key], person).unwrap());
        if rest.len() == 0 {
            m.remove(key)
        } else {
            m.insert(key, rest)
        }
    } else {
        m
    }
}

/// With distinct names, a roster has exactly the names of its entries, and
/// gives each name the people of its entry.
pub proof fn lemma_roster_of(e: Seq<Entry>)
    requires
        ascending(e),
    ensures
        forall|k: Seq<char>| #[trigger] roster_of(e).contains_key(k) <==> has_name(e, k),
        forall|i: int| 0 <= i < e.len() ==> roster_of(e)[(#[trigger] e[i]).name] == e[i].people,
    decreases e.len(),
{
    if e.len() > 0 {
        let t = e.drop_last();
        assert forall|i: int, j: int| 0 <= i < j < t.len() implies text_lt(
            (#[trigger] t[i]).name,
            (#[trigger] t[j]).name,
        ) by {
            assert(t[i] == e[i] && t[j] == e[j]);
        }
        lemma_roster_of(t);
        assert forall|k: Seq<char>| #[trigger] roster_of(e).contains_key(k) <==> has_name(e, k) by {
            if has_name(e, k) {
                let i = choose|i: int| 0 <= i < e.len() && (#[trigger] e[i]).name == k;
                if i < t.len() {
                    assert(t[i].name == k);
                    assert(has_name(t, k));
                }
            }
            if roster_of(e).contains_key(k) && k != e.last().name {
                assert(roster_of(t).contains_key(k));
                assert(has_name(t, k));
                let i = choose|i: int| 0 <= i < t.len() && (#[trigger] t[i]).name == k;
                assert(e[i].name == k);
            }
            if k == e.last().name {
                assert(e[e.len() - 1].name == k);
            }
        }
        assert forall|i: int| 0 <= i < e.len() implies roster_of(e)[(#[trigger] e[i]).name]
            == e[i].people by {
            if i < t.len() {
                assert(t[i] == e[i]);
                assert(text_lt(e[i].name, e[e.len() - 1].name));
                lemma_text_lt(e[i].name, e.last().name, e.last().name);
            }
        }
    }
}

/// A roster is known by its names and their people: with distinct names in
/// `e`, a mapping that has exactly the names of `e`, each with the people of
/// its entry, is the roster of `e`.
pub proof fn lemma_roster_is(e: Seq<Entry>, m: Map<Seq<char>, Seq<Seq<char>>>)
    requires
        ascending(e),
        forall|k: Seq<char>| #[trigger] m.contains_key(k) <==> has_name(e, k),
        forall|i: int| 0 <= i < e.len() ==> m[(#[trigger] e[i]).name] == e[i].people,
    ensures
        roster_of(e) == m,
{
    lemma_roster_of(e);
    assert forall|k: Seq<char>| roster_of(e).contains_key(k) implies #[trigger] roster_of(e)[k]
        == m[k] by {
        assert(has_name(e, k));
        let i = choose|i: int| 0 <= i < e.len() && (#[trigger] e[i]).name == k;
        assert(roster_of(e)[e[i].name] == e[i].people);
    }
    assert(roster_of(e) =~= m);
}

/// Giving the department at `i` another list changes the roster at its name
/// and nowhere else.
pub proof fn lemma_roster_update(e: Seq<Entry>, i: int, people: Seq<Seq<char>>)
    requires
        ascending(e),
        0 <= i < e.len(),
    ensures
        ascending(e.update(i, Entry { name: e[i].name, people })),
        roster_of(e.update(i, Entry { name: e[i].name, people })) == roster_of(e).insert(
            e[i].name,
            people,
        ),
{
    let r = e.update(i, Entry { name: e[i].name, people });
    let m = roster_of(e).insert(e[i].name, people);
    assert(ascending(r)) by {
        assert forall|a: int, b: int| 0 <= a < b < r.len() implies text_lt(
            (#[trigger] r[a]).name,
            (#[trigger] r[b]).name,
        ) by {
            assert(r[a].name == e[a].name && r[b].name == e[b].name);
        }
    }
    lemma_roster_of(e);
    assert forall|k: Seq<char>| #[trigger] m.contains_key(k) <==> has_name(r, k) by {
        if has_name(r, k) {
            let j = choose|j: int| 0 <= j < r.len() && (#[trigger] r[j]).name == k;
            assert(e[j].name == k);
        }
        if m.contains_key(k) {
            if k == e[i].name {
                assert(r[i].name == k);
            } else {
                assert(roster_of(e).contains_key(k));
                let j = choose|j: int| 0 <= j < e.len() && (#[trigger] e[j]).name == k;
                assert(r[j].name == k);
            }
        }
    }
    assert forall|j: int| 0 <= j < r.len() implies m[(#[trigger] r[j]).name] == r[j].people by {
        if j != i {
            assert(r[j] == e[j]);
            if j < i {
                lemma_text_lt(e[j].name, e[i].name, e[i].name);
            } else {
                lemma_text_lt(e[i].name, e[j].name, e[j].name);
            }
        }
    }
    lemma_roster_is(r, m);
}

/// A new department that goes in at its place in the order of names joins
/// the roster under its name, and the rest of the roster stays.
pub proof fn lemma_roster_insert(e: Seq<Entry>, i: int, x: Entry)
    requires
        ascending(e),
        0 <= i <= e.len(),
        forall|j: int| 0 <= j < i ==> text_lt((#[trigger] e[j]).name, x.name),
        i < e.len() ==> text_lt(x.name, e[i].name),
    ensures
        ascending(e.insert(i, x)),
        roster_of(e.insert(i, x)) == roster_of(e).insert(x.name, x.people),
{
    let r = e.insert(i, x);
    let m = roster_of(e).insert(x.name, x.people);
    assert forall|j: int| i <= j < e.len() implies text_lt(x.name, (#[trigger] e[j]).name) by {
        if j > i {
            assert(text_lt(e[i].name, e[j].name));
        }
        lemma_text_lt(x.name, e[i].name, e[j].name);
        lemma_text_lt(e[i].name, e[j].name, e[j].name);
    }
    assert(ascending(r)) by {
        assert forall|a: int, b: int| 0 <= a < b < r.len() implies text_lt(
            (#[trigger] r[a]).name,
            (#[trigger] r[b]).name,
        ) by {
            if b < i {
                assert(r[a] == e[a] && r[b] == e[b]);
            } else if b == i {
                assert(r[a] == e[a] && r[b] == x);
            } else if a < i {
                assert(r[a] == e[a] && r[b] == e[b - 1]);
            } else if a == i {
                assert(r[a] == x && r[b] == e[b - 1]);
            } else {
                assert(r[a] == e[a - 1] && r[b] == e[b - 1]);
            }
        }
    }
    lemma_roster_of(e);
    assert forall|k: Seq<char>| #[trigger] m.contains_key(k) <==> has_name(r, k) by {
        if has_name(r, k) {
            let j = choose|j: int| 0 <= j < r.len() && (#[trigger] r[j]).name == k;
            if j < i {
                assert(e[j].name == k);
            } else if j > i {
                assert(e[j - 1].name == k);
            }
        }
        if m.contains_key(k) {
            if k == x.name {
                assert(r[i].name == k);
            } else {
                assert(roster_of(e).contains_key(k));
                let j = choose|j: int| 0 <= j < e.len() && (#[trigger] e[j]).name == k;
                if j < i {
                    assert(r[j].name == k);
                } else {
                    assert(r[j + 1].name == k);
                }
            }
        }
    }
    assert forall|j: int| 0 <= j < r.len() implies m[(#[trigger] r[j]).name] == r[j].people by {
        if j < i {
            assert(r[j] == e[j]);
            lemma_text_lt(e[j].name, x.name, x.name);
        } else if j > i {
            assert(r[j] == e[j - 1]);
            lemma_text_lt(x.name, e[j - 1].name, x.name);
        }
    }
    lemma_roster_is(r, m);
}

/// A department that leaves the list leaves the roster, and the rest of the
/// roster stays.
pub proof fn lemma_roster_remove(e: Seq<Entry>, i: int)
    requires
        ascending(e),
        0 <= i < e.len(),
    ensures
        ascending(e.remove(i)),
        roster_of(e.remove(i)) == roster_of(e).remove(e[i].name),
{
    let r = e.remove(i);
    let m = roster_of(e).remove(e[i].name);
    assert(ascending(r)) by {
        assert forall|a: int, b: int| 0 <= a < b < r.len() implies text_lt(
            (#[trigger] r[a]).name,
            (#[trigger] r[b]).name,
        ) by {
            let a0 = if a < i { a } else { a + 1 };
            let b0 = if b < i { b } else { b + 1 };
            assert(r[a] == e[a0] && r[b] == e[b0]);
        }
    }
    lemma_roster_of(e);
    assert forall|j: int| 0 <= j < e.len() && j != i implies (#[trigger] e[j]).name
        != e[i].name by {
        if j < i {
            lemma_text_lt(e[j].name, e[i].name, e[i].name);
        } else {
            lemma_text_lt(e[i].name, e[j].name, e[j].name);
        }
    }
    assert forall|k: Seq<char>| #[trigger] m.contains_key(k) <==> has_name(r, k) by {
        if has_name(r, k) {
            let j = choose|j: int| 0 <= j < r.len() && (#[trigger] r[j]).name == k;
            let j0 = if j < i { j } else { j + 1 };
            assert(e[j0].name == k);
        }
        if m.contains_key(k) {
            assert(roster_of(e).contains_key(k));
            let j = choose|j: int| 0 <= j < e.len() && (#[trigger] e[j]).name == k;
            if j < i {
                assert(r[j].name == k);
            } else {
                assert(r[j - 1].name == k);
            }
        }
    }
    assert forall|j: int| 0 <= j < r.len() implies m[(#[trigger] r[j]).name] == r[j].people by {
        let j0 = if j < i { j } else { j + 1 };
        assert(r[j] == e[j0]);
    }
    lemma_roster_is(r, m);
}

/// The departments of a company.
#[derive(Debug)]
pub struct Company {
    departments: Vec<Department>,
}

impl View for Company {
    type V = Map<Seq<char>, Seq<Seq<char>>>;

    /// The roster: from each department's name to its people.
    open spec fn view(&self) -> Map<Seq<char>, Seq<Seq<char>>> {
        roster_of(self.entries())
    }
}

impl Default for Company {
    /// A company without departments.
    fn default() -> (c: Company)
        ensures
            c.wf(),
            c@ == Map::<Seq<char>, Seq<Seq<char>>>::empty(),
    {
        Company::new()
    }
}

impl Company {
    /// The departments as they are stored, one entry each.
    pub closed spec fn entries(&self) -> Seq<Entry> {
        entry_views(self.departments@)
    }

    /// The departments are stored in the strictly ascending order of their
    /// names, so none is stored twice.
    pub open spec fn wf(&self) -> bool {
        ascending(self.entries())
    }

    /// A company without departments.
    pub fn new() -> (c: Company)
        ensures
            c.wf(),
            c@ == Map::<Seq<char>, Seq<Seq<char>>>::empty(),
            c.entries() == Seq::<Entry>::empty(),
    {
        let c = Company { departments: Vec::new() };
        assert(c.entries() =~= Seq::<Entry>::empty());
        c
    }

    /// The departments in the order in which they are stored.
    pub fn departments(&self) -> (r: &Vec<Department>)
        ensures
            entry_views(r@) == self.entries(),
    {
        &self.departments
    }

    /// Finds where the department `key` is stored, or where it would go.
    fn locate(&self, key: &str) -> (r: (usize, bool))
        requires
            self.wf(),
        ensures
            r.0 <= self.entries().len(),
            r.1 ==> r.0 < self.entries().len() && self.entries()[r.0 as int].name == key@,
            r.1 == self@.contains_key(key@),
            forall|j: int| 0 <= j < r.0 ==> text_lt((#[trigger] self.entries()[j]).name, key@),
            !r.1 && r.0 < self.entries().len() ==> text_lt(key@, self.entries()[r.0 as int].name),
    {
        let ghost e = self.entries();
        let mut i: usize = 0;
        let mut found: bool = false;
        while i < self.departments.len()
            invariant_except_break
                !found,
            invariant
                i <= self.departments.len(),
                e == self.entries(),
                e == entry_views(self.departments@),
                forall|j: int| 0 <= j < i ==> text_lt((#[trigger] e[j]).name, key@),
            ensures
                found ==> i < e.len() && e[i as int].name == key@,
                !found ==> i == e.len() || text_lt(key@, e[i as int].name),
            decreases self.departments.len() - i,
        {
            let name = self.departments[i].name.as_str();
            assert(name@ == e[i as int].name);
            if text_at_most(key, name) {
                found = text_at_most(name, key);
                proof {
                    lemma_text_lt(key@, name@, key@);
                    lemma_text_lt(name@, key@, name@);
                }
                break ;
            }
            i = i + 1;
        }
        proof {
            lemma_roster_of(e);
            if !found {
                assert forall|j: int| 0 <= j < e.len() implies (#[trigger] e[j]).name != key@ by {
                    if j < i {
                        lemma_text_lt(e[j].name, key@, key@);
                    } else {
                        if j > i {
                            assert(text_lt(e[i as int].name, e[j].name));
                        }
                        lemma_text_lt(key@, e[i as int].name, e[j].name);
                        lemma_text_lt(key@, e[j].name, key@);
                    }
                }
            }
        }
        (i, found)
    }

    /// The people of the department of exactly this name, if the company has
    /// it. The name is taken as it is written: no case is folded.
    pub fn department(&self, name: &str) -> (r: Option<&Vec<String>>)
        requires
            self.wf(),
        ensures
            match r {
                Some(people) => self@.contains_key(name@) && string_views(people@) == self@[name@],
                None => !self@.contains_key(name@),
            },
    {
        let (i, found) = self.locate(name);
        if found {
            proof {
                lemma_roster_of(self.entries());
            }
            Some(&self.departments[i].people)
        } else {
            None
        }
    }

    /// Stores `people` as the list of the department `name`, in place of the
    /// list it had, if any.
    fn put(&mut self, name: String, people: Vec<String>)
        requires
            old(self).wf(),
        ensures
            final(self).wf(),
            final(self)@ == old(self)@.insert(name@, string_views(people@)),
    {
        let ghost e = self.entries();
        let ghost x = Entry { name: name@, people: string_views(people@) };
        let (i, found) = self.locate(name.as_str());
        if found {
            self.departments.remove(i);
            proof {
                lemma_roster_update(e, i as int, x.people);
                assert(e.remove(i as int).insert(i as int, x) =~= e.update(i as int, x));
                assert(entry_views(self.departments@.insert(i as int, Department { name, people }))
                    =~= e.remove(i as int).insert(i as int, x));
            }
        } else {
            proof {
                lemma_roster_insert(e, i as int, x);
                assert(entry_views(self.departments@.insert(i as int, Department { name, people }))
                    =~= e.insert(i as int, x));
            }
        }
        self.departments.insert(i, Department { name, people });
    }

    /// The company that a list of departments stands for. Where a name
    /// occurs more than once, its last list counts.
    pub fn from_departments(list: Vec<Department>) -> (c: Company)
        ensures
            c.wf(),
            c@ == roster_of(entry_views(list@)),
    {
        let ghost all = entry_views(list@);
        let mut c = Company::new();
        assert(all.take(0) =~= Seq::<Entry>::empty());
        for d in it: list
            invariant
                entry_views(it.seq()) == all,
                c.wf(),
                c@ == roster_of(all.take(it.index() as int)),
        {
            proof {
                let n = it.index() as int;
                assert(all.take(n + 1).drop_last() =~= all.take(n));
                assert(all.take(n + 1).last() == d@);
            }
            c.put(d.name, d.people);
        }
        assert(all.take(all.len() as int) =~= all);
        c
    }

    /// Adds `person` to `department`. The department is found, or made, under
    /// the lowercase form of its name; the person joins its list as written,
    /// also where the list has the same name already; and the list is put in
    /// order.
    pub fn add(&mut self, person: &str, department: &str)
        requires
            old(self).wf(),
        ensures
            final(self).wf(),
            final(self)@ == roster_add(old(self)@, person@, department@),
    {
        let ghost e = self.entries();
        let key = lowercase(department);
        let (i, found) = self.locate(key.as_str());
        let mut people: Vec<String> = Vec::new();
        if found {
            let dept = self.departments.remove(i);
            proof {
                lemma_roster_of(e);
                lemma_roster_remove(e, i as int);
                assert(entry_views(self.departments@) =~= e.remove(i as int));
            }
            people = dept.people;
        }
        let ghost before = string_views(people@);
        assert(before =~= people_of(old(self)@, key@));
        let name = person.to_owned();
        assert(string_views(people@.push(name)) =~= before.push(person@));
        people.push(name);
        let people = sort_names(&people);
        assert(self@.insert(key@, string_views(people@)) =~= old(self)@.insert(
            key@,
            string_views(people@),
        ));
        self.put(key, people);
    }

    /// Removes `person` from `department`. The department is looked up under
    /// the lowercase form of its name, the person by the exact name. The
    /// first such entry leaves the list, and a department left without
    /// people leaves the company. Where the department or the person is not
    /// found, nothing changes.
    pub fn remove(&mut self, person: &str, department: &str) -> (r: Removal)
        requires
            old(self).wf(),
        ensures
            final(self).wf(),
            r == removal_of(old(self)@, person@, department@),
            final(self)@ == roster_remove(old(self)@, person@, department@),
            r != Removal::Removed ==> *final(self) == *old(self),
    {
        let ghost e = self.entries();
        let key = lowercase(department);
        let (i, found) = self.locate(key.as_str());
        if !found {
            return Removal::NoSuchDepartment;
        }
        proof {
            lemma_roster_of(e);
        }
        match find_name(&self.departments[i].people, person) {
            None => Removal::NoSuchPerson,
            Some(at) => {
                let mut dept = self.departments.remove(i);
                proof {
                    lemma_first_index(dept@.people, person@);
                    assert(entry_views(self.departments@) =~= e.remove(i as int));
                    lemma_roster_remove(e, i as int);
                }
                let ghost held = dept@.people;
                dept.people.remove(at);
                assert(dept@.people =~= held.remove(at as int));
                if dept.people.len() > 0 {
                    proof {
                        lemma_roster_update(e, i as int, dept@.people);
                        assert(entry_views(self.departments@.insert(i as int, dept)) =~= e.update(
                            i as int,
                            dept@,
                        ));
                    }
                    self.departments.insert(i, dept);
                }
                Removal::Removed
            },
        }
    }
}

} // verus!
