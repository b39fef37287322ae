use crate::order::{
    ascending, find_slot, lemma_ascending_unique, lemma_insert_ascending, lists,
};
use crate::tags::{get_tags, lemma_distinct, tag_list, words};
use crate::text::views;
use vstd::prelude::*;

verus! {

/// One entry of the content source, as read: the name of its directory, the
/// text of its tag file and the bytes of its content file, where it has them.
pub struct Entry {
    pub title: String,
    pub tags: Option<String>,
    pub content: Option<Vec<u8>>,
}

/// For each tag the titles of the entries that carry it. The tags are kept in
/// ascending order, and a tag without an entry is not kept.
pub struct TagIndex {
    pub tags: Vec<String>,
    pub lists: Vec<Vec<String>>,
}

impl TagIndex {
    /// The tags in ascending order, each with at least one title.
    pub open spec fn wf(&self) -> bool {
        &&& self.tags@.len() == self.lists@.len()
        &&& ascending(views(self.tags@))
        &&& forall|i: int| 0 <= i < self.lists@.len() ==> (#[trigger] self.lists@[i])@.len() > 0
    }

    /// The titles filed under `tag`, in the order in which they were filed;
    /// none where the index does not hold the tag.
    pub open spec fn titles(&self, tag: Seq<char>) -> Seq<Seq<char>> {
        let names = views(self.tags@);
        if names.contains(tag) {
            views(self.lists@[names.index_of(tag)]@)
        } else {
            Seq::empty()
        }
    }

    /// The titles under the tag at place `i` are the list at place `i`.
    pub proof fn lemma_titles_at(&self, i: int)
        requires
            self.wf(),
            0 <= i < self.tags@.len(),
        ensures
            self.titles(self.tags@[i]@) == views(self.lists@[i]@),
            self.titles(self.tags@[i]@).len() > 0,
    {
        let names = views(self.tags@);
        assert(names[i] == self.tags@[i]@);
        assert(names.contains(self.tags@[i]@));
        lemma_ascending_unique(names, i, names.index_of(self.tags@[i]@));
    }

    /// An index without tags.
    pub fn new() -> (index: TagIndex)
        ensures
            index.wf(),
            forall|t: Seq<char>| index.titles(t) == Seq::<Seq<char>>::empty(),
    {
        TagIndex { tags: Vec::new(), lists: Vec::new() }
    }

    /// Files `title` under `tag`, after the titles that the tag has already.
    pub fn insert(&mut self, tag: &str, title: &str)
        requires
            old(self).wf(),
        ensures
            final(self).wf(),
            forall|t: Seq<char>|
                #[trigger] final(self).titles(t) == if t == tag@ {
                    old(self).titles(t).push(title@)
                } else {
                    old(self).titles(t)
                },
    {
        let ghost before = *self;
        let ghost names = views(self.tags@);
        let (p, found) = find_slot(&self.tags, tag);
        if found {
            let mut list = self.lists.remove(p);
            let ghost short = list@;
            list.push(title.to_owned());
            self.lists.insert(p, list);
            proof {
                assert(self.lists@ == before.lists@.update(p as int, list));
                assert(views(list@) == views(short).push(title@));
                assert forall|t: Seq<char>|
                    #[trigger] self.titles(t) == if t == tag@ {
                        before.titles(t).push(title@)
                    } else {
                        before.titles(t)
                    } by {
                    if t == tag@ {
                        lemma_ascending_unique(names, names.index_of(t), p as int);
                    }
                }
            }
        } else {
            let mut list: Vec<String> = Vec::new();
            list.push(title.to_owned());
            self.tags.insert(p, tag.to_owned());
            self.lists.insert(p, list);
            proof {
                let grown = views(self.tags@);
                assert(grown == names.insert(p as int, tag@));
                lemma_insert_ascending(names, p as int, tag@);
                assert(views(list@) == Seq::<Seq<char>>::empty().push(title@));
                assert forall|t: Seq<char>|
                    #[trigger] self.titles(t) == if t == tag@ {
                        before.titles(t).push(title@)
                    } else {
                        before.titles(t)
                    } by {
                    if t == tag@ {
                        assert(grown[p as int] == t);
                        lemma_ascending_unique(grown, grown.index_of(t), p as int);
                    } else if names.contains(t) {
                        let j = names.index_of(t);
                        let k = if j < p { j } else { j + 1 };
                        assert(grown[k] == t);
                        lemma_ascending_unique(grown, grown.index_of(t), k);
                    }
                }
            }
        }
    }
}

/// The tags of an entry: those of its tag file, none where it has no such file.
pub open spec fn entry_tags(entry: Entry) -> Seq<Seq<char>> {
    match entry.tags {
        Some(text) => tag_list(text@),
        None => Seq::empty(),
    }
}

/// The titles of the entries that carry `tag`, in the order of `entries`.
pub open spec fn titles_tagged(entries: Seq<Entry>, tag: Seq<char>) -> Seq<Seq<char>>
    decreases entries.len(),
{
    if entries.len() == 0 {
        Seq::empty()
    } else {
        let earlier = titles_tagged(entries.drop_last(), tag);
        if entry_tags(entries.last()).contains(tag) {
            earlier.push(entries.last().title@)
        } else {
            earlier
        }
    }
}

/// The tags that at least one of `entries` carries.
pub open spec fn tag_set(entries: Seq<Entry>) -> Set<Seq<char>> {
    Set::new(|t: Seq<char>| titles_tagged(entries, t).len() > 0)
}

/// Whether one of `entries` has the title `t`.
pub open spec fn has_title(entries: Seq<Entry>, t: Seq<char>) -> bool {
    exists|i: int| 0 <= i < entries.len() && (#[trigger] entries[i]).title@ == t
}

/// The titles of `entries`.
pub open spec fn title_set(entries: Seq<Entry>) -> Set<Seq<char>> {
    Set::new(|t: Seq<char>| has_title(entries, t))
}

/// Builds the tag index of `entries`: each entry is filed, in the order given,
/// under each of its tags once.
pub fn filter_entries_by_tag(entries: &Vec<Entry>) -> (index: TagIndex)
    ensures
        index.wf(),
        lists(views(index.tags@), tag_set(entries@)),
        forall|t: Seq<char>| #[trigger] index.titles(t) == titles_tagged(entries@, t),
        forall|i: int|
            0 <= i < index.tags@.len() ==> views(#[trigger] index.lists@[i]@) == titles_tagged(
                entries@,
                index.tags@[i]@,
            ),
{
    let mut index = TagIndex::new();
    let mut i: usize = 0;
    proof {
        assert(entries@.take(0) == Seq::<Entry>::empty());
    }
    while i < entries.len()
        invariant
            i <= entries.len(),
            index.wf(),
            forall|t: Seq<char>| #[trigger]
                index.titles(t) == titles_tagged(entries@.take(i as int), t),
        decreases entries.len() - i,
    {
        let entry = &entries[i];
        let ghost done = entries@.take(i as int);
        let tags = match &entry.tags {
            Some(text) => get_tags(text.as_str()),
            None => Vec::new(),
        };
        let ghost own = views(tags@);
        proof {
            assert(entries@.take(i + 1).drop_last() == done);
            assert(entries@.take(i + 1).last() == *entry);
            assert(own == entry_tags(*entry));
            assert(own.take(0) == Seq::<Seq<char>>::empty());
        }
        let mut j: usize = 0;
        while j < tags.len()
            invariant
                j <= tags.len(),
                index.wf(),
                own == views(tags@),
                own.no_duplicates(),
                forall|t: Seq<char>| #[trigger]
                    index.titles(t) == if own.take(j as int).contains(t) {
                        titles_tagged(done, t).push(entry.title@)
                    } else {
                        titles_tagged(done, t)
                    },
            decreases tags.len() - j,
        {
            let ghost before = index;
            index.insert(tags[j].as_str(), entry.title.as_str());
            proof {
                let tag = own[j as int];
                assert(tag == tags@[j as int]@);
                assert(own.take(j + 1) == own.take(j as int).push(tag));
                assert forall|t: Seq<char>| #[trigger]
                    index.titles(t) == if own.take(j + 1).contains(t) {
                        titles_tagged(done, t).push(entry.title@)
                    } else {
                        titles_tagged(done, t)
                    } by {
                    let filed = own.take(j as int);
                    let grown = own.take(j + 1);
                    if filed.contains(t) {
                        let k = choose|k: int| 0 <= k < filed.len() && filed[k] == t;
                        assert(own[k] == t);
                        assert(grown[k] == t);
                    }
                    if t == tag {
                        assert(grown[j as int] == t);
                    }
                    if grown.contains(t) && t != tag {
                        let k = choose|k: int| 0 <= k < grown.len() && grown[k] == t;
                        assert(filed[k] == t);
                    }
                }
            }
            j += 1;
        }
        proof {
            assert(own.take(own.len() as int) == own);
        }
        i += 1;
    }
    proof {
        assert(entries@.take(entries@.len() as int) == entries@);
        let names = views(index.tags@);
        assert forall|t: Seq<char>| names.contains(t) <==> tag_set(entries@).contains(t) by {
            let _ = index.titles(t);
            if names.contains(t) {
                let i = choose|i: int| 0 <= i < names.len() && names[i] == t;
                index.lemma_titles_at(i);
            }
        }
        assert forall|i: int| 0 <= i < index.tags@.len() implies views(
            #[trigger] index.lists@[i]@,
        ) == titles_tagged(entries@, index.tags@[i]@) by {
            index.lemma_titles_at(i);
        }
    }
    index
}

/// The words of an entry's tag file, none where it has no such file.
pub open spec fn entry_words(entry: Entry) -> Seq<Seq<char>> {
    match entry.tags {
        Some(text) => words(text@),
        None => Seq::empty(),
    }
}

/// A tag has titles in the index of `entries` exactly if the tag file of one
/// of the entries holds the tag as a word.
pub proof fn lemma_tag_has_source(entries: Seq<Entry>, tag: Seq<char>)
    ensures
        titles_tagged(entries, tag).len() > 0 <==> exists|i: int|
            0 <= i < entries.len() && #[trigger] entry_words(entries[i]).contains(tag),
    decreases entries.len(),
{
    if entries.len() > 0 {
        let init = entries.drop_last();
        let last = entries.last();
        lemma_tag_has_source(init, tag);
        match last.tags {
            Some(text) => {
                lemma_distinct(words(text@));
            },
            None => {},
        }
        if titles_tagged(entries, tag).len() > 0 {
            if entry_tags(last).contains(tag) {
                assert(entry_words(entries[entries.len() - 1]).contains(tag));
            } else {
                let i = choose|i: int|
                    0 <= i < init.len() && #[trigger] entry_words(init[i]).contains(tag);
                assert(entry_words(entries[i]).contains(tag));
            }
        }
        if exists|i: int| 0 <= i < entries.len() && #[trigger] entry_words(entries[i]).contains(tag) {
            let i = choose|i: int|
                0 <= i < entries.len() && #[trigger] entry_words(entries[i]).contains(tag);
            if i < init.len() {
                assert(entry_words(init[i]).contains(tag));
            }
        }
    }
}

/// Each title filed under a tag is the title of an entry whose tag file holds
/// the tag as a word.
pub proof fn lemma_listed_title_has_tag(entries: Seq<Entry>, tag: Seq<char>, k: int)
    requires
        0 <= k < titles_tagged(entries, tag).len(),
    ensures
        exists|i: int|
            0 <= i < entries.len() && (#[trigger] entries[i]).title@ == titles_tagged(entries, tag)[k]
                && entry_words(entries[i]).contains(tag),
    decreases entries.len(),
{
    let init = entries.drop_last();
    let last = entries.last();
    let earlier = titles_tagged(init, tag);
    if k < earlier.len() {
        lemma_listed_title_has_tag(init, tag, k);
        let i = choose|i: int|
            0 <= i < init.len() && (#[trigger] init[i]).title@ == earlier[k] && entry_words(
                init[i],
            ).contains(tag);
        assert(entries[i] == init[i]);
    } else {
        match last.tags {
            Some(text) => {
                lemma_distinct(words(text@));
            },
            None => {},
        }
        assert(entries[entries.len() - 1] == last);
    }
}

/// An entry without a tag file adds no title under any tag.
pub proof fn lemma_untagged_entry(entries: Seq<Entry>, entry: Entry, tag: Seq<char>)
    requires
        entry.tags is None,
    ensures
        titles_tagged(entries.push(entry), tag) == titles_tagged(entries, tag),
{
    assert(entries.push(entry).drop_last() == entries);
}

/// The titles of `entries` in ascending order, each once.
pub fn sorted_titles(entries: &Vec<Entry>) -> (titles: Vec<String>)
    ensures
        lists(views(titles@), title_set(entries@)),
{
    let mut titles: Vec<String> = Vec::new();
    let mut n: usize = 0;
    while n < entries.len()
        invariant
            n <= entries.len(),
            ascending(views(titles@)),
            forall|t: Seq<char>|
                views(titles@).contains(t) <==> exists|i: int|
                    0 <= i < n && (#[trigger] entries@[i]).title@ == t,
        decreases entries.len() - n,
    {
        let title = &entries[n].title;
        let ghost before = views(titles@);
        let (p, found) = find_slot(&titles, title.as_str());
        if !found {
            titles.insert(p, title.clone());
            proof {
                assert(views(titles@) == before.insert(p as int, title@));
                lemma_insert_ascending(before, p as int, title@);
            }
        }
        proof {
            let after = views(titles@);
            assert(after.contains(title@));
            assert forall|t: Seq<char>|
                after.contains(t) <==> exists|i: int|
                    0 <= i < n + 1 && (#[trigger] entries@[i]).title@ == t by {
                if after.contains(t) && t != title@ {
                    assert(before.contains(t));
                    let i = choose|i: int| 0 <= i < n && (#[trigger] entries@[i]).title@ == t;
                    assert(entries@[i].title@ == t);
                }
                if t == title@ {
                    assert(entries@[n as int].title@ == t);
                }
                if exists|i: int| 0 <= i < n + 1 && (#[trigger] entries@[i]).title@ == t {
                    let i = choose|i: int| 0 <= i < n + 1 && (#[trigger] entries@[i]).title@ == t;
                    if i < n {
                        assert(before.contains(t));
                    }
                }
            }
        }
        n += 1;
    }
    titles
}

} // verus!
