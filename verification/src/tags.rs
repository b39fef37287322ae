use crate::text::{chars_of, is_space, is_space_char, string_of, views};
use vstd::prelude::*;

verus! {

/// The length of the longest prefix of `s` that holds no white space.
pub open spec fn word_len(s: Seq<char>) -> nat
    decreases s.len(),
{
    if s.len() == 0 || is_space(s[0]) {
        0
    } else {
        1 + word_len(s.skip(1))
    }
}

/// A word is no longer than the text it begins.
pub proof fn lemma_word_len_bound(s: Seq<char>)
    ensures
        word_len(s) <= s.len(),
    decreases s.len(),
{
    if s.len() > 0 && !is_space(s[0]) {
        lemma_word_len_bound(s.skip(1));
    }
}

/// The words of `s`: its maximal runs of characters that are not white space,
/// from left to right.
pub open spec fn words(s: Seq<char>) -> Seq<Seq<char>>
    decreases s.len(),
    via words_decreases
{
    if s.len() == 0 {
        Seq::empty()
    } else if is_space(s[0]) {
        words(s.skip(1))
    } else {
        seq![s.take(word_len(s) as int)] + words(s.skip(word_len(s) as int))
    }
}

/// After its first word, less of the text is left.
#[via_fn]
proof fn words_decreases(s: Seq<char>) {
    lemma_word_len_bound(s);
}

/// `s` without repetitions: of equal items only the first stays.
pub open spec fn distinct(s: Seq<Seq<char>>) -> Seq<Seq<char>>
    decreases s.len(),
{
    if s.len() == 0 {
        Seq::empty()
    } else {
        let d = distinct(s.drop_last());
        if d.contains(s.last()) {
            d
        } else {
            d.push(s.last())
        }
    }
}

/// `distinct(s)` holds the items of `s`, each of them once.
pub proof fn lemma_distinct(s: Seq<Seq<char>>)
    ensures
        distinct(s).no_duplicates(),
        forall|t: Seq<char>| distinct(s).contains(t) <==> s.contains(t),
    decreases s.len(),
{
    if s.len() > 0 {
        let init = s.drop_last();
        let d = distinct(init);
        lemma_distinct(init);
        assert forall|t: Seq<char>| distinct(s).contains(t) <==> s.contains(t) by {
            if s.contains(t) {
                let i = choose|i: int| 0 <= i < s.len() && s[i] == t;
                if i < s.len() - 1 {
                    assert(init[i] == t);
                    assert(init.contains(t));
                    assert(d.contains(t));
                    let k = choose|k: int| 0 <= k < d.len() && d[k] == t;
                    assert(distinct(s)[k] == t);
                } else if !d.contains(t) {
                    assert(distinct(s)[d.len() as int] == t);
                } else {
                    let k = choose|k: int| 0 <= k < d.len() && d[k] == t;
                    assert(distinct(s)[k] == t);
                }
            }
            if distinct(s).contains(t) {
                let k = choose|k: int| 0 <= k < distinct(s).len() && distinct(s)[k] == t;
                if k < d.len() {
                    assert(d[k] == t);
                    assert(d.contains(t));
                    assert(init.contains(t));
                    let i = choose|i: int| 0 <= i < init.len() && init[i] == t;
                    assert(s[i] == t);
                } else {
                    assert(s[s.len() - 1] == t);
                }
            }
        }
    }
}

/// The tags that a tag file names: its words, each once, in the order in which
/// they first stand in the file.
pub open spec fn tag_list(content: Seq<char>) -> Seq<Seq<char>> {
    distinct(words(content))
}

/// Whether one of `names` reads `word`.
pub fn holds_name(names: &Vec<String>, word: &String) -> (r: bool)
    ensures
        r == views(names@).contains(word@),
{
    let mut k: usize = 0;
    while k < names.len()
        invariant
            k <= names.len(),
            forall|j: int| 0 <= j < k ==> views(names@)[j] != word@,
        decreases names.len() - k,
    {
        if names[k] == *word {
            assert(views(names@)[k as int] == word@);
            return true;
        }
        k += 1;
    }
    false
}

/// Reads a tag file's text: splits it at white space and keeps each tag once.
pub fn get_tags(content: &str) -> (tags: Vec<String>)
    ensures
        views(tags@) == tag_list(content@),
        views(tags@).no_duplicates(),
        forall|t: Seq<char>| views(tags@).contains(t) <==> words(content@).contains(t),
{
    let s = chars_of(content);
    let mut tags: Vec<String> = Vec::new();
    let ghost mut seen: Seq<Seq<char>> = Seq::empty();
    let mut i: usize = 0;
    proof {
        assert(s@.skip(0) == s@);
        assert(views(tags@) == distinct(seen));
    }
    while i < s.len()
        invariant
            i <= s.len(),
            s@ == content@,
            words(s@) == seen + words(s@.skip(i as int)),
            views(tags@) == distinct(seen),
        decreases s.len() - i,
    {
        let ghost rest = s@.skip(i as int);
        proof {
            assert(rest.skip(1) == s@.skip(i + 1));
        }
        if is_space_char(s[i]) {
            i += 1;
        } else {
            let start = i;
            let mut word: Vec<char> = Vec::new();
            proof {
                assert(s@.subrange(start as int, i as int) == word@);
            }
            while i < s.len() && !is_space_char(s[i])
                invariant
                    start <= i <= s.len(),
                    word@ == s@.subrange(start as int, i as int),
                    word_len(s@.skip(start as int)) == (i - start) + word_len(s@.skip(i as int)),
                decreases s.len() - i,
            {
                word.push(s[i]);
                proof {
                    assert(s@.skip(i as int).skip(1) == s@.skip(i + 1));
                    assert(s@.subrange(start as int, i + 1) == s@.subrange(
                        start as int,
                        i as int,
                    ).push(s@[i as int]));
                }
                i += 1;
            }
            let text = string_of(&word);
            proof {
                assert(word_len(rest) == i - start);
                assert(rest.take(i - start) == word@);
                assert(rest.skip(i - start) == s@.skip(i as int));
                assert(seen + (seq![word@] + words(s@.skip(i as int))) == seen.push(word@) + words(
                    s@.skip(i as int),
                ));
                assert(seen.push(word@).drop_last() == seen);
            }
            if !holds_name(&tags, &text) {
                let ghost before = tags@;
                tags.push(text);
                proof {
                    assert(views(tags@) == views(before).push(word@));
                }
            }
            proof {
                seen = seen.push(word@);
            }
        }
    }
    proof {
        assert(s@.skip(s@.len() as int).len() == 0);
        assert(seen + Seq::<Seq<char>>::empty() == seen);
        lemma_distinct(words(content@));
    }
    tags
}

} // verus!
