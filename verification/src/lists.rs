//! Helpers on lists.

use vstd::prelude::*;

use crate::rows;
use crate::text;

verus! {

/// Puts a list in reverse order.
pub fn reverse<T>(list: &mut Vec<T>)
    ensures
        final(list)@.len() == old(list)@.len(),
        forall|k: int|
            0 <= k < final(list)@.len() ==> #[trigger] final(list)@[k] == old(list)@[old(
                list,
            )@.len() - 1 - k],
{
    let mut reversed: Vec<T> = Vec::new();
    let n: usize = list.len();
    let mut i: usize = 0;
    let ghost start = list@;
    while i < n
        invariant
            i <= n,
            n == start.len(),
            start == old(list)@,
            list@ == start.take(n - i),
            reversed@.len() == i,
            forall|k: int| 0 <= k < i ==> #[trigger] reversed@[k] == start[n - 1 - k],
        decreases n - i,
    {
        if let Some(item) = list.pop() {
            reversed.push(item);
        }
        i = i + 1;
    }
    std::mem::swap(list, &mut reversed);
}

/// What a list of strings holds.
pub open spec fn texts(list: Seq<String>) -> Seq<Seq<char>> {
    list.map_values(|s: String| s@)
}

/// Each name once, in the order in which they first occur.
pub open spec fn distinct(names: Seq<Seq<char>>) -> Seq<Seq<char>>
    decreases names.len(),
{
    if names.len() == 0 {
        Seq::empty()
    } else {
        let before = distinct(names.drop_last());
        if before.contains(names.last()) {
            before
        } else {
            before.push(names.last())
        }
    }
}

/// [`distinct`] keeps every name, adds none and has none twice.
pub proof fn lemma_distinct(names: Seq<Seq<char>>)
    ensures
        distinct(names).no_duplicates(),
        forall|name: Seq<char>| #[trigger]
            distinct(names).contains(name) <==> names.contains(name),
    decreases names.len(),
{
    if names.len() > 0 {
        lemma_distinct(names.drop_last());
        let before = distinct(names.drop_last());
        assert forall|name: Seq<char>| #[trigger] distinct(names).contains(name)
            <==> names.contains(name) by {
            if names.contains(name) {
                let i = choose|i: int| 0 <= i < names.len() && names[i] == name;
                if i < names.len() - 1 {
                    assert(names.drop_last()[i] == name);
                    assert(before.contains(name));
                    let k = choose|k: int| 0 <= k < before.len() && before[k] == name;
                    assert(distinct(names)[k] == name);
                } else if !before.contains(name) {
                    assert(distinct(names)[before.len() as int] == name);
                }
            }
            if distinct(names).contains(name) {
                let k = choose|k: int|
                    0 <= k < distinct(names).len() && distinct(names)[k] == name;
                if k < before.len() {
                    assert(before[k] == name);
                    assert(distinct(names.drop_last()).contains(name));
                    let i = choose|i: int| 0 <= i < names.len() - 1 && names.drop_last()[i] == name;
                    assert(names[i] == name);
                } else {
                    assert(names[names.len() - 1] == name);
                }
            }
        }
    }
}

/// The last place at which a name stands in a list.
pub fn find_text(list: &Vec<String>, name: &str) -> (r: Option<usize>)
    ensures
        match r {
            Some(i) => i < list@.len() && rows::last_index(texts(list@), name@) == Some(i as int),
            None => rows::last_index(texts(list@), name@) is None,
        },
{
    let ghost names = texts(list@);
    let mut end: usize = list.len();
    assert(names.take(end as int) =~= names);
    while end > 0
        invariant
            end <= list@.len(),
            names == texts(list@),
            rows::last_index(names, name@) == rows::last_index(names.take(end as int), name@),
        decreases end,
    {
        let i: usize = end - 1;
        let ghost prefix = names.take(end as int);
        assert(prefix.last() == list@[i as int]@);
        assert(prefix.drop_last() =~= names.take(i as int));
        if text::text_equal(list[i].as_str(), name) {
            return Some(i);
        }
        end = i;
    }
    assert(names.take(0) =~= Seq::<Seq<char>>::empty());
    None
}

/// Each name is kept once, where it first occurs. Gives the places at which the names that are
/// kept first occur.
pub proof fn law_distinct_keeps_first(names: Seq<Seq<char>>) -> (at: Seq<int>)
    ensures
        at.len() == distinct(names).len(),
        forall|k: int|
            0 <= k < at.len() ==> 0 <= #[trigger] at[k] < names.len() && names[at[k]] == distinct(
                names,
            )[k] && forall|i: int| 0 <= i < at[k] ==> #[trigger] names[i] != names[at[k]],
        forall|j: int, k: int| 0 <= j < k < at.len() ==> #[trigger] at[j] < #[trigger] at[k],
        forall|i: int| 0 <= i < names.len() ==> distinct(names).contains(#[trigger] names[i]),
    decreases names.len(),
{
    lemma_distinct(names);
    assert forall|i: int| 0 <= i < names.len() implies distinct(names).contains(
        #[trigger] names[i],
    ) by {
        assert(names.contains(names[i]));
    }
    if names.len() == 0 {
        Seq::empty()
    } else {
        let rest = names.drop_last();
        let n = names.len() - 1;
        let before = law_distinct_keeps_first(rest);
        lemma_distinct(rest);
        assert forall|k: int| 0 <= k < before.len() implies 0 <= #[trigger] before[k] < rest.len()
            && names[before[k]] == distinct(rest)[k] && forall|i: int|
            0 <= i < before[k] ==> #[trigger] names[i] != names[before[k]] by {
            assert(names[before[k]] == rest[before[k]]);
            assert forall|i: int| 0 <= i < before[k] implies #[trigger] names[i]
                != names[before[k]] by {
                assert(rest[i] == names[i]);
            }
        }
        if distinct(rest).contains(names.last()) {
            before
        } else {
            assert forall|i: int| 0 <= i < n implies #[trigger] names[i] != names[n] by {
                if names[i] == names[n] {
                    assert(rest[i] == names[i]);
                    assert(rest.contains(names.last()));
                }
            }
            before.push(n)
        }
    }
}

} // verus!
