use crate::index::{
    filter_entries_by_tag, sorted_titles, tag_set, title_set, titles_tagged, Entry, TagIndex,
};
use crate::order::{ascending, in_order, lemma_lists_unique, lists};
use crate::template::{
    decode_lossy, free_of, keys_of, lemma_marked_keys_all_replaced, lossy_text, marked_pairs,
    markers_begin_keys, occurs_at, pair_views, rendered, replace_placeholders, Placeholder,
};
use crate::text::views;
use vstd::prelude::*;
use vstd::string::StringExecFns;
use vstd::utf8::{decode_utf8, valid_utf8};

verus! {

/// A page of the site: the directory it belongs in, below the root of its
/// family of pages, and its text. The file is `index.html` in that directory.
pub struct Page {
    pub dir: String,
    pub html: String,
}

/// What the generator reads: the page template, the body of the home page, the
/// project's name and the entries in the order in which they were found.
pub struct SiteSource {
    pub base_html: String,
    pub about: String,
    pub project_name: String,
    pub entries: Vec<Entry>,
}

/// What the generator writes: a page for each entry with content, a page for
/// each tag, the home page and the page that lists the entries. With them come
/// the titles of the entries that the build went on without a part of: those
/// that have no content, and so no page, and those that have no tag file.
pub struct Site {
    pub entry_pages: Vec<Page>,
    pub tag_pages: Vec<Page>,
    pub home: String,
    pub listing: String,
    pub no_content: Vec<String>,
    pub no_tags: Vec<String>,
}

/// The directories of a list of pages.
pub open spec fn dirs(pages: Seq<Page>) -> Seq<Seq<char>> {
    Seq::new(pages.len(), |i: int| pages[i].dir@)
}

/// The texts of a list of pages.
pub open spec fn texts(pages: Seq<Page>) -> Seq<Seq<char>> {
    Seq::new(pages.len(), |i: int| pages[i].html@)
}

/// The template with its three placeholders filled, in this order: content,
/// title, navigation cloud.
pub open spec fn page_text(
    base: Seq<char>,
    content: Seq<char>,
    title: Seq<char>,
    nav: Seq<char>,
) -> Seq<char> {
    rendered(
        base,
        seq![
            (Placeholder::Content.token(), content),
            (Placeholder::Title.token(), title),
            (Placeholder::NavCloud.token(), nav),
        ],
    )
}

/// Fills the page template with a content, a title and a navigation cloud.
pub fn render_page(base_html: &str, content: &str, title: &str, nav: &str) -> (html: String)
    ensures
        html@ == page_text(base_html@, content@, title@, nav@),
{
    let mut pairs: Vec<(String, String)> = Vec::new();
    pairs.push((Placeholder::Content.as_str().to_owned(), content.to_owned()));
    pairs.push((Placeholder::Title.as_str().to_owned(), title.to_owned()));
    pairs.push((Placeholder::NavCloud.as_str().to_owned(), nav.to_owned()));
    proof {
        assert(pair_views(pairs@) == seq![
            (Placeholder::Content.token(), content@),
            (Placeholder::Title.token(), title@),
            (Placeholder::NavCloud.token(), nav@),
        ]);
    }
    replace_placeholders(base_html, &pairs)
}

/// The three tokens that a page template may hold.
pub open spec fn tokens() -> Seq<Seq<char>> {
    seq![Placeholder::Content.token(), Placeholder::Title.token(), Placeholder::NavCloud.token()]
}

/// Where every dollar sign of the template begins one of the three tokens,
/// and content, title and navigation cloud hold no dollar sign, the page holds
/// no dollar sign, and so none of the tokens.
pub proof fn lemma_page_holds_no_token(
    base: Seq<char>,
    content: Seq<char>,
    title: Seq<char>,
    nav: Seq<char>,
)
    requires
        markers_begin_keys(base, tokens(), '$'),
        free_of(content, '$'),
        free_of(title, '$'),
        free_of(nav, '$'),
    ensures
        free_of(page_text(base, content, title, nav), '$'),
        forall|i: int, k: int|
            0 <= i < 3 ==> !#[trigger] occurs_at(page_text(base, content, title, nav), tokens()[i], k),
{
    reveal_strlit("$CONTENT");
    reveal_strlit("$TITLE");
    reveal_strlit("$NAVCLOUD");
    let pairs = seq![
        (Placeholder::Content.token(), content),
        (Placeholder::Title.token(), title),
        (Placeholder::NavCloud.token(), nav),
    ];
    assert(keys_of(pairs) == tokens());
    assert(marked_pairs(pairs, '$'));
    lemma_marked_keys_all_replaced(base, pairs, '$');
    assert forall|i: int, k: int| 0 <= i < 3 implies !#[trigger] occurs_at(
        page_text(base, content, title, nav),
        tokens()[i],
        k,
    ) by {
        assert(tokens()[i] == pairs[i].0);
    }
}

/// A link to the page of `name`, which lies under `prefix`, followed by `suffix`.
pub open spec fn anchor(name: Seq<char>, prefix: Seq<char>, suffix: Seq<char>) -> Seq<char> {
    "<a href=\""@ + prefix + name + "/index.html\">"@ + name + "</a>"@ + suffix
}

/// The links to the pages of `names`, one after the other.
pub open spec fn anchors(names: Seq<Seq<char>>, prefix: Seq<char>, suffix: Seq<char>) -> Seq<char>
    decreases names.len(),
{
    if names.len() == 0 {
        Seq::empty()
    } else {
        anchors(names.drop_last(), prefix, suffix) + anchor(names.last(), prefix, suffix)
    }
}

/// Writes the links to the pages of `names`, one after the other.
pub fn anchors_html(names: &Vec<String>, prefix: &str, suffix: &str) -> (html: String)
    ensures
        html@ == anchors(views(names@), prefix@, suffix@),
{
    let mut html = String::new();
    let ghost list = views(names@);
    let mut k: usize = 0;
    proof {
        assert(list.take(0) == Seq::<Seq<char>>::empty());
    }
    while k < names.len()
        invariant
            k <= names.len(),
            list == views(names@),
            html@ == anchors(list.take(k as int), prefix@, suffix@),
        decreases names.len() - k,
    {
        let ghost before = html@;
        let name = names[k].as_str();
        html.append("<a href=\"");
        html.append(prefix);
        html.append(name);
        html.append("/index.html\">");
        html.append(name);
        html.append("</a>");
        html.append(suffix);
        proof {
            assert(list.take(k + 1).drop_last() == list.take(k as int));
            assert(list.take(k + 1).last() == name@);
            assert(html@ == before + anchor(name@, prefix@, suffix@));
        }
        k += 1;
    }
    proof {
        assert(list.take(list.len() as int) == list);
    }
    html
}

/// The page of a tag: the links to its entries as content, the tag as title.
pub open spec fn tag_page_text(base: Seq<char>, tag: Seq<char>, titles: Seq<Seq<char>>) -> Seq<
    char,
> {
    page_text(base, anchors(titles, "../entries/"@, "<br>"@), tag, Seq::empty())
}

/// Renders one page for each tag of the index, in the order of the index, which
/// is ascending. A page links the entries of its tag in the order of the index.
pub fn generate_tag_pages(base_html: &str, index: &TagIndex) -> (pages: Vec<Page>)
    requires
        index.wf(),
    ensures
        pages@.len() == index.tags@.len(),
        dirs(pages@) == views(index.tags@),
        ascending(dirs(pages@)),
        forall|k: int|
            0 <= k < pages@.len() ==> (#[trigger] pages@[k]).html@ == tag_page_text(
                base_html@,
                pages@[k].dir@,
                index.titles(pages@[k].dir@),
            ),
{
    let mut pages: Vec<Page> = Vec::new();
    let mut i: usize = 0;
    while i < index.tags.len()
        invariant
            i <= index.tags.len(),
            index.wf(),
            dirs(pages@) == views(index.tags@).take(i as int),
            forall|k: int|
                0 <= k < pages@.len() ==> (#[trigger] pages@[k]).html@ == tag_page_text(
                    base_html@,
                    pages@[k].dir@,
                    index.titles(pages@[k].dir@),
                ),
        decreases index.tags.len() - i,
    {
        let tag = &index.tags[i];
        let ghost before = pages@;
        proof {
            index.lemma_titles_at(i as int);
        }
        let content = anchors_html(&index.lists[i], "../entries/", "<br>");
        let html = render_page(base_html, content.as_str(), tag.as_str(), "");
        pages.push(Page { dir: tag.clone(), html });
        proof {
            assert(""@ == Seq::<char>::empty()) by {
                reveal_strlit("");
            }
            assert(dirs(before).len() == i);
            assert(dirs(pages@) == dirs(before).push(tag@));
            assert(views(index.tags@).take(i + 1) == views(index.tags@).take(i as int).push(tag@));
            assert forall|k: int| 0 <= k < pages@.len() implies (#[trigger] pages@[k]).html@
                == tag_page_text(base_html@, pages@[k].dir@, index.titles(pages@[k].dir@)) by {
                if k < i {
                    assert(pages@[k] == before[k]);
                }
            }
        }
        i += 1;
    }
    proof {
        assert(views(index.tags@).take(index.tags@.len() as int) == views(index.tags@));
    }
    pages
}

/// The page of an entry: its content, decoded leniently, and its title.
pub open spec fn entry_page_text(base: Seq<char>, title: Seq<char>, content: Seq<u8>) -> Seq<char> {
    page_text(base, lossy_text(content), title, Seq::empty())
}

/// The entries that have content, in the order of `entries`.
pub open spec fn with_content(entries: Seq<Entry>) -> Seq<Entry> {
    entries.filter(|e: Entry| e.content is Some)
}

/// Content that is valid UTF-8 is decoded as it stands.
pub open spec fn decoded_plainly(content: Seq<u8>) -> bool {
    valid_utf8(content) ==> lossy_text(content) == decode_utf8(content)
}

/// `pages` are the pages of the entries of `entries` that have content.
pub open spec fn are_entry_pages(base: Seq<char>, entries: Seq<Entry>, pages: Seq<Page>) -> bool {
    &&& pages.len() == with_content(entries).len()
    &&& forall|k: int|
        0 <= k < pages.len() ==> {
            let entry = with_content(entries)[k];
            &&& (#[trigger] pages[k]).dir@ == entry.title@
            &&& pages[k].html@ == entry_page_text(base, entry.title@, entry.content->0@)
            &&& decoded_plainly(entry.content->0@)
        }
}

/// Renders a page for each entry that has content, in the order of `entries`.
/// An entry without content gets no page.
pub fn generate_entry_pages(base_html: &str, entries: &Vec<Entry>) -> (pages: Vec<Page>)
    ensures
        are_entry_pages(base_html@, entries@, pages@),
{
    let mut pages: Vec<Page> = Vec::new();
    let mut i: usize = 0;
    proof {
        assert(entries@.take(0) == Seq::<Entry>::empty());
    }
    while i < entries.len()
        invariant
            i <= entries.len(),
            are_entry_pages(base_html@, entries@.take(i as int), pages@),
        decreases entries.len() - i,
    {
        let entry = &entries[i];
        let ghost before = pages@;
        let ghost kept = with_content(entries@.take(i as int));
        proof {
            reveal(Seq::filter);
            assert(entries@.take(i + 1).drop_last() == entries@.take(i as int));
            assert(entries@.take(i + 1).last() == *entry);
            assert(""@ == Seq::<char>::empty()) by {
                reveal_strlit("");
            }
        }
        match &entry.content {
            Some(bytes) => {
                let content = decode_lossy(bytes);
                let html = render_page(base_html, content.as_str(), entry.title.as_str(), "");
                pages.push(Page { dir: entry.title.clone(), html });
                proof {
                    assert(with_content(entries@.take(i + 1)) == kept.push(*entry));
                    assert forall|k: int| 0 <= k < pages@.len() implies (#[trigger] pages@[k]).dir@
                        == kept.push(*entry)[k].title@ && pages@[k].html@ == entry_page_text(
                        base_html@,
                        kept.push(*entry)[k].title@,
                        kept.push(*entry)[k].content->0@,
                    ) && decoded_plainly(kept.push(*entry)[k].content->0@) by {
                        if k < before.len() {
                            assert(pages@[k] == before[k]);
                        }
                    }
                }
            },
            None => {
                proof {
                    assert(with_content(entries@.take(i + 1)) == kept);
                }
            },
        }
        i += 1;
    }
    proof {
        assert(entries@.take(entries@.len() as int) == entries@);
    }
    pages
}

/// The titles of a list of entries.
pub open spec fn titles_of(entries: Seq<Entry>) -> Seq<Seq<char>> {
    Seq::new(entries.len(), |i: int| entries[i].title@)
}

/// The entries that have no content, in the order of `entries`.
pub open spec fn without_content(entries: Seq<Entry>) -> Seq<Entry> {
    entries.filter(|e: Entry| e.content is None)
}

/// The entries that have no tag file, in the order of `entries`.
pub open spec fn without_tags(entries: Seq<Entry>) -> Seq<Entry> {
    entries.filter(|e: Entry| e.tags is None)
}

/// The titles of the entries that have no content and get no page.
pub fn entries_without_content(entries: &Vec<Entry>) -> (titles: Vec<String>)
    ensures
        views(titles@) == titles_of(without_content(entries@)),
{
    let mut titles: Vec<String> = Vec::new();
    let mut i: usize = 0;
    proof {
        assert(entries@.take(0) == Seq::<Entry>::empty());
        assert(views(titles@) == titles_of(without_content(entries@.take(0))));
    }
    while i < entries.len()
        invariant
            i <= entries.len(),
            views(titles@) == titles_of(without_content(entries@.take(i as int))),
        decreases entries.len() - i,
    {
        let entry = &entries[i];
        let ghost found = without_content(entries@.take(i as int));
        proof {
            reveal(Seq::filter);
            assert(entries@.take(i + 1).drop_last() == entries@.take(i as int));
            assert(entries@.take(i + 1).last() == *entry);
        }
        if entry.content.is_none() {
            let ghost before = views(titles@);
            titles.push(entry.title.clone());
            proof {
                assert(without_content(entries@.take(i + 1)) == found.push(*entry));
                assert(views(titles@) == before.push(entry.title@));
                assert(titles_of(found.push(*entry)) == titles_of(found).push(entry.title@));
            }
        }
        i += 1;
    }
    proof {
        assert(entries@.take(entries@.len() as int) == entries@);
    }
    titles
}

/// The titles of the entries that have no tag file and are filed under no tag.
pub fn entries_without_tags(entries: &Vec<Entry>) -> (titles: Vec<String>)
    ensures
        views(titles@) == titles_of(without_tags(entries@)),
{
    let mut titles: Vec<String> = Vec::new();
    let mut i: usize = 0;
    proof {
        assert(entries@.take(0) == Seq::<Entry>::empty());
        assert(views(titles@) == titles_of(without_tags(entries@.take(0))));
    }
    while i < entries.len()
        invariant
            i <= entries.len(),
            views(titles@) == titles_of(without_tags(entries@.take(i as int))),
        decreases entries.len() - i,
    {
        let entry = &entries[i];
        let ghost found = without_tags(entries@.take(i as int));
        proof {
            reveal(Seq::filter);
            assert(entries@.take(i + 1).drop_last() == entries@.take(i as int));
            assert(entries@.take(i + 1).last() == *entry);
        }
        if entry.tags.is_none() {
            let ghost before = views(titles@);
            titles.push(entry.title.clone());
            proof {
                assert(without_tags(entries@.take(i + 1)) == found.push(*entry));
                assert(views(titles@) == before.push(entry.title@));
                assert(titles_of(found.push(*entry)) == titles_of(found).push(entry.title@));
            }
        }
        i += 1;
    }
    proof {
        assert(entries@.take(entries@.len() as int) == entries@);
    }
    titles
}

/// The navigation cloud: a link to the page of each tag, in the order given.
pub open spec fn nav_cloud(tags: Seq<Seq<char>>) -> Seq<char> {
    anchors(tags, Seq::empty(), Seq::empty())
}

/// The home page: the about text with the navigation cloud put in as content,
/// the project's name as title, and the navigation cloud where the template
/// asks for it. It is the one page that carries the cloud.
pub open spec fn home_text(
    base: Seq<char>,
    about: Seq<char>,
    project_name: Seq<char>,
    tags: Seq<Seq<char>>,
) -> Seq<char> {
    page_text(
        base,
        rendered(about, seq![(Placeholder::NavCloud.token(), nav_cloud(tags))]),
        project_name,
        nav_cloud(tags),
    )
}

/// The page that lists the entries: a link line for each title.
pub open spec fn listing_text(base: Seq<char>, titles: Seq<Seq<char>>) -> Seq<char> {
    page_text(base, anchors(titles, Seq::empty(), "<br>"@), "Entries"@, Seq::empty())
}

/// Renders the home page, with a navigation cloud of `tags` in the order given.
pub fn home_page(base_html: &str, about: &str, project_name: &str, tags: &Vec<String>) -> (html:
    String)
    ensures
        html@ == home_text(base_html@, about@, project_name@, views(tags@)),
{
    proof {
        reveal_strlit("");
        assert(""@ == Seq::<char>::empty());
    }
    let cloud = anchors_html(tags, "", "");
    let mut pairs: Vec<(String, String)> = Vec::new();
    pairs.push((Placeholder::NavCloud.as_str().to_owned(), cloud.clone()));
    proof {
        assert(pair_views(pairs@) == seq![(Placeholder::NavCloud.token(), nav_cloud(views(tags@)))]);
    }
    let content = replace_placeholders(about, &pairs);
    render_page(base_html, content.as_str(), project_name, cloud.as_str())
}

/// Renders the page that lists the entries, with `titles` in the order given.
pub fn entries_listing(base_html: &str, titles: &Vec<String>) -> (html: String)
    ensures
        html@ == listing_text(base_html@, views(titles@)),
{
    proof {
        reveal_strlit("");
        assert(""@ == Seq::<char>::empty());
    }
    let content = anchors_html(titles, "", "<br>");
    render_page(base_html, content.as_str(), "Entries", "")
}

/// `site` is the site of `source`: the entry pages in the order of the entries,
/// the tag pages in ascending order of the tags, the home page with the cloud
/// of the tags in that same order, the listing of the titles in ascending
/// order, and the titles of the entries without content and without tag file.
pub open spec fn is_site(source: SiteSource, site: Site) -> bool {
    let base = source.base_html@;
    let entries = source.entries@;
    let tags = in_order(tag_set(entries));
    &&& are_entry_pages(base, entries, site.entry_pages@)
    &&& lists(tags, tag_set(entries))
    &&& dirs(site.tag_pages@) == tags
    &&& forall|k: int|
        0 <= k < tags.len() ==> (#[trigger] site.tag_pages@[k]).html@ == tag_page_text(
            base,
            tags[k],
            titles_tagged(entries, tags[k]),
        )
    &&& site.home@ == home_text(base, source.about@, source.project_name@, tags)
    &&& lists(in_order(title_set(entries)), title_set(entries))
    &&& site.listing@ == listing_text(base, in_order(title_set(entries)))
    &&& views(site.no_content@) == titles_of(without_content(entries))
    &&& views(site.no_tags@) == titles_of(without_tags(entries))
}

/// Builds the whole site from what was read.
pub fn generate_site(source: &SiteSource) -> (site: Site)
    ensures
        is_site(*source, site),
{
    let base = source.base_html.as_str();
    let entry_pages = generate_entry_pages(base, &source.entries);
    let index = filter_entries_by_tag(&source.entries);
    let tag_pages = generate_tag_pages(base, &index);
    let home = home_page(base, source.about.as_str(), source.project_name.as_str(), &index.tags);
    let titles = sorted_titles(&source.entries);
    let listing = entries_listing(base, &titles);
    let no_content = entries_without_content(&source.entries);
    let no_tags = entries_without_tags(&source.entries);
    proof {
        let entries = source.entries@;
        let names = views(index.tags@);
        lemma_lists_unique(names, in_order(tag_set(entries)), tag_set(entries));
        lemma_lists_unique(views(titles@), in_order(title_set(entries)), title_set(entries));
        assert forall|k: int| 0 <= k < names.len() implies (#[trigger] tag_pages@[k]).html@
            == tag_page_text(base@, names[k], titles_tagged(entries, names[k])) by {
            assert(dirs(tag_pages@)[k] == names[k]);
            let _ = index.titles(names[k]);
        }
    }
    Site { entry_pages, tag_pages, home, listing, no_content, no_tags }
}

/// The site of a source is determined by the source: two sites of one source
/// have the same pages, in the same order, with the same texts.
pub proof fn lemma_site_determined(source: SiteSource, first: Site, second: Site)
    requires
        is_site(source, first),
        is_site(source, second),
    ensures
        dirs(first.entry_pages@) == dirs(second.entry_pages@),
        texts(first.entry_pages@) == texts(second.entry_pages@),
        dirs(first.tag_pages@) == dirs(second.tag_pages@),
        texts(first.tag_pages@) == texts(second.tag_pages@),
        first.home@ == second.home@,
        first.listing@ == second.listing@,
        views(first.no_content@) == views(second.no_content@),
        views(first.no_tags@) == views(second.no_tags@),
{
    assert(dirs(first.entry_pages@) =~= dirs(second.entry_pages@));
    assert(texts(first.entry_pages@) =~= texts(second.entry_pages@));
    let tags = in_order(tag_set(source.entries@));
    assert(first.tag_pages@.len() == dirs(first.tag_pages@).len());
    assert(second.tag_pages@.len() == dirs(second.tag_pages@).len());
    assert(texts(first.tag_pages@) =~= texts(second.tag_pages@));
}

/// The tag pages of a site stand in ascending order of their tags, and the
/// navigation cloud of its home page links the same tags in the same order.
pub proof fn lemma_tag_pages_in_cloud_order(source: SiteSource, site: Site)
    requires
        is_site(source, site),
    ensures
        ascending(dirs(site.tag_pages@)),
        site.home@ == home_text(
            source.base_html@,
            source.about@,
            source.project_name@,
            dirs(site.tag_pages@),
        ),
{
}

} // verus!
