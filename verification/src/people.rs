//! The list of people of one department, and the order it is kept in: by
//! name, ignoring case, with equal names in the order in which they came.

use vstd::prelude::*;
use vstd::seq_lib::to_multiset_insert;
use crate::text::lemma_name_le_total_preorder;
use crate::text::lemma_text_le_total_order;
use crate::text::lower;
use crate::text::lowercase;
use crate::text::name_le;
use crate::text::same_text;
use crate::text::string_views;
use crate::text::text_at_most;

verus! {

/// Whether every entry of `s` is at or before each entry that follows it.
pub open spec fn is_sorted(s: Seq<Seq<char>>) -> bool {
    forall|i: int, j: int| 0 <= i < j < s.len() ==> name_le(#[trigger] s[i], #[trigger] s[j])
}

/// Where `x` goes in `s`: right behind the last entry that is at or before
/// it, and at the front if there is none.
pub open spec fn slot(s: Seq<Seq<char>>, x: Seq<char>) -> int
    decreases s.len(),
{
    if s.len() == 0 || name_le(s.last(), x) {
        s.len() as int
    } else {
        slot(s.drop_last(), x)
    }
}

/// `s` with `x` put into its slot.
pub open spec fn place(s: Seq<Seq<char>>, x: Seq<char>) -> Seq<Seq<char>> {
    s.insert(slot(s, x), x)
}

/// `s` in order: its entries placed one after the other, first to last, so
/// that entries with equal lowercase forms keep their order.
pub open spec fn sorted(s: Seq<Seq<char>>) -> Seq<Seq<char>>
    decreases s.len(),
{
    if s.len() == 0 {
        s
    } else {
        place(sorted(s.drop_last()), s.last())
    }
}

/// The index of the first entry of `s` that is exactly `x`, if there is one.
pub open spec fn first_index(s: Seq<Seq<char>>, x: Seq<char>) -> Option<int>
    decreases s.len(),
{
    if s.len() == 0 {
        None
    } else if s[0] == x {
        Some(0)
    } else {
        match first_index(s.drop_first(), x) {
            Some(i) => Some(i + 1),
            None => None,
        }
    }
}

/// What `first_index` finds: the entry at the index is `x`, none before it
/// is, and where it finds nothing `x` is no entry.
pub proof fn lemma_first_index(s: Seq<Seq<char>>, x: Seq<char>)
    ensures
        match first_index(s, x) {
            Some(i) => 0 <= i < s.len() && s[i] == x && forall|j: int|
                0 <= j < i ==> #[trigger] s[j] != x,
            None => !s.contains(x),
        },
    decreases s.len(),
{
    if s.len() > 0 && s[0] != x {
        let t = s.drop_first();
        lemma_first_index(t, x);
        match first_index(t, x) {
            Some(i) => {
                assert forall|j: int| 0 <= j < i + 1 implies #[trigger] s[j] != x by {
                    if j > 0 {
                        assert(t[j - 1] == s[j]);
                    }
                }
            },
            None => {
                assert forall|j: int| 0 <= j < s.len() implies s[j] != x by {
                    if j > 0 {
                        assert(t[j - 1] == s[j]);
                        assert(t.contains(t[j - 1]));
                    }
                }
            },
        }
    }
}

/// The slot of `x` lies within `s`, follows an entry at or before `x`, and
/// every entry from the slot on is strictly behind `x`.
pub proof fn lemma_slot(s: Seq<Seq<char>>, x: Seq<char>)
    ensures
        0 <= slot(s, x) <= s.len(),
        slot(s, x) > 0 ==> name_le(s[slot(s, x) - 1], x),
        forall|j: int| slot(s, x) <= j < s.len() ==> !name_le(#[trigger] s[j], x),
    decreases s.len(),
{
    if !(s.len() == 0 || name_le(s.last(), x)) {
        let t = s.drop_last();
        lemma_slot(t, x);
        assert forall|j: int| slot(s, x) <= j < s.len() implies !name_le(#[trigger] s[j], x) by {
            if j < t.len() {
                assert(t[j] == s[j]);
            }
        }
    }
}

/// An index that follows an entry at or before `x`, with only entries
/// strictly behind `x` from it on, is the slot of `x`.
pub proof fn lemma_slot_is(s: Seq<Seq<char>>, x: Seq<char>, p: int)
    requires
        0 <= p <= s.len(),
        p > 0 ==> name_le(s[p - 1], x),
        forall|j: int| p <= j < s.len() ==> !name_le(#[trigger] s[j], x),
    ensures
        slot(s, x) == p,
    decreases s.len() - p,
{
    if p < s.len() {
        lemma_slot_is(s.drop_last(), x, p);
    }
}

/// Placing an entry into a list in order gives a list in order.
pub proof fn lemma_place_sorted(s: Seq<Seq<char>>, x: Seq<char>)
    requires
        is_sorted(s),
    ensures
        is_sorted(place(s, x)),
{
    let p = slot(s, x);
    let r = place(s, x);
    lemma_slot(s, x);
    assert forall|i: int, j: int| 0 <= i < j < r.len() implies name_le(
        #[trigger] r[i],
        #[trigger] r[j],
    ) by {
        if j < p {
            assert(r[i] == s[i] && r[j] == s[j]);
        } else if j == p {
            assert(r[i] == s[i] && r[j] == x);
            lemma_name_le_total_preorder(s[i], s[p - 1], x);
        } else if i < p {
            assert(r[i] == s[i] && r[j] == s[j - 1]);
        } else if i == p {
            assert(r[i] == x && r[j] == s[j - 1]);
            lemma_name_le_total_preorder(x, s[j - 1], x);
        } else {
            assert(r[i] == s[i - 1] && r[j] == s[j - 1]);
        }
    }
}

/// Whatever the order of `s`, `sorted(s)` is in order.
pub proof fn lemma_sorted_is_sorted(s: Seq<Seq<char>>)
    ensures
        is_sorted(sorted(s)),
    decreases s.len(),
{
    if s.len() > 0 {
        lemma_sorted_is_sorted(s.drop_last());
        lemma_place_sorted(sorted(s.drop_last()), s.last());
    }
}

/// Sorting neither drops nor adds an entry: each name occurs in `sorted(s)`
/// as often as in `s`.
pub proof fn lemma_sorted_keeps_entries(s: Seq<Seq<char>>)
    ensures
        sorted(s).to_multiset() == s.to_multiset(),
        sorted(s).len() == s.len(),
    decreases s.len(),
{
    broadcast use vstd::seq_lib::group_to_multiset_ensures;

    if s.len() > 0 {
        let t = s.drop_last();
        lemma_sorted_keeps_entries(t);
        lemma_slot(sorted(t), s.last());
        to_multiset_insert(sorted(t), slot(sorted(t), s.last()), s.last());
        assert(s =~= t.push(s.last()));
        assert(s.to_multiset() =~= t.to_multiset().insert(s.last()));
    } else {
        assert(sorted(s) =~= s);
    }
}

/// A list that is in order already is left as it is.
pub proof fn lemma_sorted_fixes_sorted(s: Seq<Seq<char>>)
    requires
        is_sorted(s),
    ensures
        sorted(s) == s,
    decreases s.len(),
{
    if s.len() > 0 {
        let t = s.drop_last();
        lemma_sorted_fixes_sorted(t);
        lemma_slot_is(t, s.last(), t.len() as int);
        assert(t.insert(t.len() as int, s.last()) =~= s);
    }
}

/// Sorting is stable: the entries that share a lowercase form `key` come out
/// in the order in which they went in.
pub proof fn lemma_sorted_is_stable(s: Seq<Seq<char>>, key: Seq<char>)
    ensures
        sorted(s).filter(|n: Seq<char>| lower(n) == key) == s.filter(
            |n: Seq<char>| lower(n) == key,
        ),
    decreases s.len(),
{
    let pred = |n: Seq<char>| lower(n) == key;
    if s.len() > 0 {
        let t = s.drop_last();
        let x = s.last();
        lemma_sorted_is_stable(t, key);
        lemma_place_filter(sorted(t), x, key);
        assert(s =~= t.push(x));
        Seq::lemma_filter_push(sorted(t), x, pred);
        Seq::lemma_filter_push(t, x, pred);
    } else {
        assert(sorted(s) =~= s);
    }
}

proof fn lemma_place_filter(s: Seq<Seq<char>>, x: Seq<char>, key: Seq<char>)
    ensures
        place(s, x).filter(|n: Seq<char>| lower(n) == key) == s.push(x).filter(
            |n: Seq<char>| lower(n) == key,
        ),
{
    let pred = |n: Seq<char>| lower(n) == key;
    let p = slot(s, x);
    lemma_slot(s, x);
    let head = s.subrange(0, p);
    let tail = s.subrange(p, s.len() as int);
    assert(s =~= head + tail);
    assert(place(s, x) =~= head.push(x) + tail);
    Seq::filter_distributes_over_add(head, tail, pred);
    Seq::filter_distributes_over_add(head.push(x), tail, pred);
    Seq::lemma_filter_push(head, x, pred);
    Seq::lemma_filter_push(s, x, pred);
    if pred(x) {
        assert forall|j: int| 0 <= j < tail.len() implies !pred(#[trigger] tail[j]) by {
            assert(tail[j] == s[p + j]);
            lemma_text_le_total_order(lower(x), lower(x), lower(x));
        }
        tail.lemma_all_neg_filter_empty(pred);
        assert(tail.filter(pred) =~= Seq::empty());
        assert(head.filter(pred).push(x) + tail.filter(pred) =~= (head.filter(pred) + tail.filter(
            pred,
        )).push(x));
    }
}

/// Returns the names of `list` in order, ignoring case; names with equal
/// lowercase forms stay in the order they have in `list`.
pub fn sort_names(list: &Vec<String>) -> (out: Vec<String>)
    ensures
        string_views(out@) == sorted(string_views(list@)),
{
    let ghost names = string_views(list@);
    let mut out: Vec<String> = Vec::new();
    let mut keys: Vec<String> = Vec::new();
    let mut i: usize = 0;
    assert(string_views(out@) =~= sorted(names.take(0)));
    while i < list.len()
        invariant
            i <= list.len(),
            names == string_views(list@),
            string_views(out@) == sorted(names.take(i as int)),
            keys.len() == out.len(),
            forall|j: int| 0 <= j < out.len() ==> (#[trigger] keys[j])@ == lower(out[j]@),
        decreases list.len() - i,
    {
        let name = list[i].clone();
        let key = lowercase(name.as_str());
        let mut p: usize = out.len();
        while p > 0 && !text_at_most(keys[p - 1].as_str(), key.as_str())
            invariant
                p <= out.len(),
                keys.len() == out.len(),
                key@ == lower(name@),
                forall|j: int| 0 <= j < out.len() ==> (#[trigger] keys[j])@ == lower(out[j]@),
                forall|j: int|
                    p <= j < out.len() ==> !name_le(#[trigger] string_views(out@)[j], name@),
            decreases p,
        {
            p = p - 1;
        }
        proof {
            let s = string_views(out@);
            lemma_slot_is(s, name@, p as int);
            assert(names.take(i + 1).drop_last() =~= names.take(i as int));
            assert(names.take(i + 1).last() == name@);
            assert(string_views(out@.insert(p as int, name)) =~= s.insert(p as int, name@));
        }
        out.insert(p, name);
        keys.insert(p, key);
        i = i + 1;
    }
    assert(names.take(i as int) =~= names);
    out
}

/// Returns the index of the first entry of `list` that is exactly `name`.
pub fn find_name(list: &Vec<String>, name: &str) -> (r: Option<usize>)
    ensures
        match r {
            Some(i) => first_index(string_views(list@), name@) == Some(i as int),
            None => first_index(string_views(list@), name@) is None,
        },
{
    let ghost names = string_views(list@);
    let mut i: usize = 0;
    while i < list.len()
        invariant
            i <= list.len(),
            names == string_views(list@),
            forall|j: int| 0 <= j < i ==> #[trigger] names[j] != name@,
        decreases list.len() - i,
    {
        if same_text(list[i].as_str(), name) {
            proof {
                lemma_first_index_is(names, name@, i as int);
            }
            return Some(i);
        }
        i = i + 1;
    }
    proof {
        lemma_first_index(names, name@);
    }
    None
}

/// An index that holds `x`, with no `x` before it, is the first index of `x`.
pub proof fn lemma_first_index_is(s: Seq<Seq<char>>, x: Seq<char>, i: int)
    requires
        0 <= i < s.len(),
        s[i] == x,
        forall|j: int| 0 <= j < i ==> #[trigger] s[j] != x,
    ensures
        first_index(s, x) == Some(i),
{
    lemma_first_index(s, x);
    if first_index(s, x) is None {
        assert(s.contains(s[i]));
    }
}

} // verus!
