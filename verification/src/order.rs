use crate::text::{
    chars_of, compare_chars, lemma_lex_irreflexive, lemma_lex_transitive, lex_lt, views, Order,
};
use vstd::prelude::*;

verus! {

/// Each name comes before all that follow it, so no name stands twice.
pub open spec fn ascending(names: Seq<Seq<char>>) -> bool {
    forall|i: int, j: int| 0 <= i < j < names.len() ==> lex_lt(#[trigger] names[i], #[trigger] names[j])
}

/// In an ascending list a name has one place only.
pub proof fn lemma_ascending_unique(names: Seq<Seq<char>>, i: int, j: int)
    requires
        ascending(names),
        0 <= i < names.len(),
        0 <= j < names.len(),
        names[i] == names[j],
    ensures
        i == j,
{
    lemma_lex_irreflexive(names[i]);
}

/// Putting `key` between the names before it and the names after it keeps the
/// list ascending and adds `key` to it, nothing else.
pub proof fn lemma_insert_ascending(names: Seq<Seq<char>>, p: int, key: Seq<char>)
    requires
        ascending(names),
        0 <= p <= names.len(),
        forall|k: int| 0 <= k < p ==> lex_lt(#[trigger] names[k], key),
        forall|k: int| p <= k < names.len() ==> lex_lt(key, #[trigger] names[k]),
    ensures
        ascending(names.insert(p, key)),
        forall|t: Seq<char>| names.insert(p, key).contains(t) <==> names.contains(t) || t == key,
{
    let after = names.insert(p, key);
    assert forall|t: Seq<char>| after.contains(t) <==> names.contains(t) || t == key by {
        if after.contains(t) {
            let k = choose|k: int| 0 <= k < after.len() && after[k] == t;
            if k < p {
                assert(names[k] == t);
            } else if k > p {
                assert(names[k - 1] == t);
            }
        }
        if names.contains(t) {
            let k = choose|k: int| 0 <= k < names.len() && names[k] == t;
            if k < p {
                assert(after[k] == t);
            } else {
                assert(after[k + 1] == t);
            }
        }
        if t == key {
            assert(after[p] == t);
        }
    }
    assert forall|i: int, j: int| 0 <= i < j < after.len() implies lex_lt(
        #[trigger] after[i],
        #[trigger] after[j],
    ) by {
        let a = if i < p { i } else { i - 1 };
        let b = if j < p { j } else { j - 1 };
        if i != p && j != p {
            assert(lex_lt(names[a], names[b]));
        } else if i == p {
            assert(lex_lt(key, names[b]));
        } else {
            assert(lex_lt(names[a], key));
        }
    }
}

/// Finds `key` in an ascending list: the place of the first name that does not
/// come before `key`, and whether that name is `key`.
pub fn find_slot(names: &Vec<String>, key: &str) -> (r: (usize, bool))
    requires
        ascending(views(names@)),
    ensures
        r.0 <= names.len(),
        forall|k: int| 0 <= k < r.0 ==> lex_lt(#[trigger] views(names@)[k], key@),
        r.1 ==> r.0 < names.len() && views(names@)[r.0 as int] == key@,
        !r.1 ==> forall|k: int| r.0 <= k < names.len() ==> lex_lt(key@, #[trigger] views(names@)[k]),
        r.1 == views(names@).contains(key@),
{
    let wanted = chars_of(key);
    let ghost list = views(names@);
    let mut p: usize = 0;
    let mut found = false;
    while p < names.len()
        invariant_except_break
            !found,
        invariant
            p <= names.len(),
            list == views(names@),
            wanted@ == key@,
            forall|k: int| 0 <= k < p ==> lex_lt(#[trigger] list[k], key@),
        ensures
            p <= names.len(),
            forall|k: int| 0 <= k < p ==> lex_lt(#[trigger] list[k], key@),
            found ==> p < names.len() && list[p as int] == key@,
            !found ==> p == names.len() || lex_lt(key@, list[p as int]),
        decreases names.len() - p,
    {
        let here = chars_of(names[p].as_str());
        assert(here@ == list[p as int]);
        match compare_chars(&here, &wanted) {
            Order::Before => {
                p += 1;
            },
            Order::Same => {
                found = true;
                break ;
            },
            Order::After => {
                break ;
            },
        }
    }
    proof {
        if !found {
            assert forall|k: int| p <= k < names.len() implies lex_lt(key@, #[trigger] list[k]) by {
                if k > p {
                    lemma_lex_transitive(key@, list[p as int], list[k]);
                }
            }
        }
        if list.contains(key@) {
            let k = choose|k: int| 0 <= k < list.len() && list[k] == key@;
            lemma_lex_irreflexive(key@);
        }
    }
    (p, found)
}

/// `names` lists the members of `set` in ascending order.
pub open spec fn lists(names: Seq<Seq<char>>, set: Set<Seq<char>>) -> bool {
    ascending(names) && forall|t: Seq<char>| names.contains(t) <==> set.contains(t)
}

/// The members of `set` in ascending order, where `set` is finite.
pub open spec fn in_order(set: Set<Seq<char>>) -> Seq<Seq<char>> {
    choose|names: Seq<Seq<char>>| lists(names, set)
}

/// A set has one ascending list only.
pub proof fn lemma_lists_unique(a: Seq<Seq<char>>, b: Seq<Seq<char>>, set: Set<Seq<char>>)
    requires
        lists(a, set),
        lists(b, set),
    ensures
        a == b,
    decreases a.len(),
{
    if a.len() == 0 {
        if b.len() > 0 {
            assert(b.contains(b[0]));
            assert(a.contains(b[0]));
        }
        assert(a =~= b);
    } else {
        assert(a.contains(a[0]));
        assert(b.contains(a[0]));
        let k = choose|k: int| 0 <= k < b.len() && b[k] == a[0];
        assert(b.contains(b[0]));
        assert(a.contains(b[0]));
        let m = choose|m: int| 0 <= m < a.len() && a[m] == b[0];
        if m > 0 && k > 0 {
            lemma_lex_transitive(a[0], a[m], b[k]);
            lemma_lex_irreflexive(a[0]);
        }
        assert(a[0] == b[0]);
        let rest = set.remove(a[0]);
        lemma_tail_lists(a, set);
        lemma_tail_lists(b, set);
        lemma_lists_unique(a.skip(1), b.skip(1), rest);
        assert(a =~= seq![a[0]] + a.skip(1));
        assert(b =~= seq![b[0]] + b.skip(1));
    }
}

/// Without its first name, an ascending list lists the set without that name.
proof fn lemma_tail_lists(a: Seq<Seq<char>>, set: Set<Seq<char>>)
    requires
        lists(a, set),
        a.len() > 0,
    ensures
        lists(a.skip(1), set.remove(a[0])),
{
    let tail = a.skip(1);
    let rest = set.remove(a[0]);
    assert forall|i: int, j: int| 0 <= i < j < tail.len() implies lex_lt(
        #[trigger] tail[i],
        #[trigger] tail[j],
    ) by {
        assert(lex_lt(a[i + 1], a[j + 1]));
    }
    assert forall|t: Seq<char>| tail.contains(t) <==> rest.contains(t) by {
        if tail.contains(t) {
            let i = choose|i: int| 0 <= i < tail.len() && tail[i] == t;
            assert(a[i + 1] == t);
            assert(a.contains(t));
            assert(lex_lt(a[0], a[i + 1]));
            lemma_lex_irreflexive(t);
        }
        if rest.contains(t) {
            assert(a.contains(t));
            let i = choose|i: int| 0 <= i < a.len() && a[i] == t;
            assert(tail[i - 1] == t);
        }
    }
}

} // verus!
