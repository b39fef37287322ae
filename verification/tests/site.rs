use sitegen::index::{filter_entries_by_tag, Entry};
use sitegen::pages::{
    anchors_html, entries_listing, entries_without_content, entries_without_tags,
    generate_entry_pages, generate_site, generate_tag_pages, home_page, render_page, Site,
    SiteSource,
};
use sitegen::template::Placeholder;

const BASE: &str = "<title>$TITLE</title><nav>$NAVCLOUD</nav><main>$CONTENT</main>";

fn entry(title: &str, tags: Option<&str>, content: Option<&str>) -> Entry {
    Entry {
        title: title.to_string(),
        tags: tags.map(|t| t.to_string()),
        content: content.map(|c| c.as_bytes().to_vec()),
    }
}

fn source(entries: Vec<Entry>) -> SiteSource {
    SiteSource {
        base_html: BASE.to_string(),
        about: "<p>About</p><div>$NAVCLOUD</div>".to_string(),
        project_name: "Demo\n".to_string(),
        entries,
    }
}

fn alpha_beta() -> Vec<Entry> {
    vec![
        entry("alpha", Some("x y"), Some("<p>A</p>")),
        entry("beta", Some("y"), Some("<p>B</p>")),
    ]
}

fn flat(site: &Site) -> Vec<(String, String)> {
    let mut out = Vec::new();
    for p in &site.entry_pages {
        out.push((format!("entries/{}/index.html", p.dir), p.html.clone()));
    }
    for p in &site.tag_pages {
        out.push((format!("{}/index.html", p.dir), p.html.clone()));
    }
    for title in &site.no_content {
        out.push(("no content".to_string(), title.clone()));
    }
    for title in &site.no_tags {
        out.push(("no tags".to_string(), title.clone()));
    }
    out.push(("index.html".to_string(), site.home.clone()));
    out.push(("entries/index.html".to_string(), site.listing.clone()));
    out
}

#[test]
fn render_page_fills_the_three_placeholders() {
    assert_eq!(
        render_page(BASE, "c", "t", "n"),
        "<title>t</title><nav>n</nav><main>c</main>"
    );
}

#[test]
fn anchors_are_written_one_after_the_other() {
    let names = vec!["a".to_string(), "b".to_string()];
    assert_eq!(
        anchors_html(&names, "../entries/", "<br>"),
        "<a href=\"../entries/a/index.html\">a</a><br><a href=\"../entries/b/index.html\">b</a><br>"
    );
    assert_eq!(
        anchors_html(&names, "", ""),
        "<a href=\"a/index.html\">a</a><a href=\"b/index.html\">b</a>"
    );
    assert_eq!(anchors_html(&Vec::new(), "", "<br>"), "");
}

#[test]
fn two_entries_with_shared_tag() {
    let site = generate_site(&source(alpha_beta()));
    assert_eq!(site.tag_pages.len(), 2);
    assert_eq!(site.tag_pages[0].dir, "x");
    assert_eq!(
        site.tag_pages[0].html,
        "<title>x</title><nav></nav><main><a href=\"../entries/alpha/index.html\">alpha</a><br></main>"
    );
    assert!(!site.tag_pages[0].html.contains("beta"));
    assert_eq!(site.tag_pages[1].dir, "y");
    assert_eq!(
        site.tag_pages[1].html,
        "<title>y</title><nav></nav><main><a href=\"../entries/alpha/index.html\">alpha</a><br><a href=\"../entries/beta/index.html\">beta</a><br></main>"
    );
    assert_eq!(site.entry_pages.len(), 2);
    assert_eq!(site.entry_pages[0].dir, "alpha");
    assert_eq!(
        site.entry_pages[0].html,
        "<title>alpha</title><nav></nav><main><p>A</p></main>"
    );
    assert_eq!(site.entry_pages[1].dir, "beta");
    assert_eq!(
        site.entry_pages[1].html,
        "<title>beta</title><nav></nav><main><p>B</p></main>"
    );
}

#[test]
fn home_page_carries_the_cloud_and_the_project_name() {
    let site = generate_site(&source(alpha_beta()));
    assert_eq!(
        site.home,
        "<title>Demo\n</title><nav><a href=\"x/index.html\">x</a><a href=\"y/index.html\">y</a></nav><main><p>About</p><div><a href=\"x/index.html\">x</a><a href=\"y/index.html\">y</a></div></main>"
    );
}

#[test]
fn listing_links_the_entries_by_title() {
    let entries = vec![
        entry("beta", None, Some("b")),
        entry("alpha", None, None),
        entry("Gamma", Some("t"), Some("g")),
    ];
    let site = generate_site(&source(entries));
    assert_eq!(
        site.listing,
        "<title>Entries</title><nav></nav><main><a href=\"Gamma/index.html\">Gamma</a><br><a href=\"alpha/index.html\">alpha</a><br><a href=\"beta/index.html\">beta</a><br></main>"
    );
}

#[test]
fn entry_without_tag_file_has_a_page_and_no_tag_page() {
    let site = generate_site(&source(vec![entry("solo", None, Some("<p>S</p>"))]));
    assert_eq!(site.entry_pages.len(), 1);
    assert_eq!(site.entry_pages[0].dir, "solo");
    assert_eq!(
        site.entry_pages[0].html,
        "<title>solo</title><nav></nav><main><p>S</p></main>"
    );
    assert!(site.tag_pages.is_empty());
    assert_eq!(site.no_tags, vec!["solo"]);
    assert!(site.no_content.is_empty());
}

#[test]
fn entry_without_content_has_no_page_and_the_rest_is_built() {
    let entries = vec![
        entry("bare", Some("t"), None),
        entry("full", Some("t"), Some("<p>F</p>")),
    ];
    let site = generate_site(&source(entries));
    assert_eq!(site.entry_pages.len(), 1);
    assert_eq!(site.entry_pages[0].dir, "full");
    assert_eq!(site.no_content, vec!["bare"]);
    assert!(site.no_tags.is_empty());
    assert_eq!(
        site.listing,
        "<title>Entries</title><nav></nav><main><a href=\"bare/index.html\">bare</a><br><a href=\"full/index.html\">full</a><br></main>"
    );
    assert_eq!(site.tag_pages.len(), 1);
    assert_eq!(
        site.tag_pages[0].html,
        "<title>t</title><nav></nav><main><a href=\"../entries/bare/index.html\">bare</a><br><a href=\"../entries/full/index.html\">full</a><br></main>"
    );
}

#[test]
fn no_entries_give_an_empty_listing_and_an_empty_cloud() {
    let site = generate_site(&source(Vec::new()));
    assert!(site.entry_pages.is_empty());
    assert!(site.tag_pages.is_empty());
    assert_eq!(site.listing, "<title>Entries</title><nav></nav><main></main>");
    assert_eq!(
        site.home,
        "<title>Demo\n</title><nav></nav><main><p>About</p><div></div></main>"
    );
}

#[test]
fn tag_pages_come_in_ascending_order_like_the_cloud() {
    let entries = vec![
        entry("one", Some("web rust zebra"), Some("1")),
        entry("two", Some("art Web rust"), Some("2")),
    ];
    let site = generate_site(&source(entries));
    let dirs: Vec<String> = site.tag_pages.iter().map(|p| p.dir.clone()).collect();
    let mut sorted = dirs.clone();
    sorted.sort();
    assert_eq!(dirs, sorted);
    assert_eq!(dirs, vec!["Web", "art", "rust", "web", "zebra"]);
    let mut last = 0;
    for dir in &dirs {
        let link = format!("<a href=\"{}/index.html\">{}</a>", dir, dir);
        let at = site.home.find(&link).unwrap();
        assert!(at >= last);
        last = at + link.len();
    }
}

#[test]
fn building_twice_gives_the_same_site() {
    let first = generate_site(&source(alpha_beta()));
    let second = generate_site(&source(alpha_beta()));
    assert_eq!(flat(&first), flat(&second));
}

#[test]
fn entry_content_is_decoded_leniently() {
    let entries = vec![Entry {
        title: "raw".to_string(),
        tags: None,
        content: Some(vec![b'o', b'k', 0xc3, 0x28]),
    }];
    let pages = generate_entry_pages(BASE, &entries);
    assert_eq!(pages.len(), 1);
    assert_eq!(
        pages[0].html,
        "<title>raw</title><nav></nav><main>ok\u{fffd}(</main>"
    );
}

#[test]
fn tag_pages_follow_the_index() {
    let index = filter_entries_by_tag(&alpha_beta());
    let pages = generate_tag_pages("$TITLE:$CONTENT", &index);
    assert_eq!(pages.len(), 2);
    assert_eq!(pages[0].dir, "x");
    assert_eq!(
        pages[0].html,
        "x:<a href=\"../entries/alpha/index.html\">alpha</a><br>"
    );
    assert_eq!(pages[1].dir, "y");
}

#[test]
fn template_without_cloud_placeholder_still_renders() {
    let names = vec!["t".to_string()];
    assert_eq!(
        home_page("$TITLE|$CONTENT", "about", "P", &names),
        "P|about"
    );
    assert_eq!(
        home_page("$NAVCLOUD", "about", "P", &names),
        "<a href=\"t/index.html\">t</a>"
    );
    assert_eq!(home_page("$NAVCLOUD", "about", "P", &Vec::new()), "");
    assert_eq!(
        entries_listing("$CONTENT", &names),
        "<a href=\"t/index.html\">t</a><br>"
    );
}

#[test]
fn entries_lacking_a_part_are_named_in_the_order_given() {
    let entries = vec![
        entry("c", None, None),
        entry("a", Some("t"), None),
        entry("b", None, Some("x")),
        entry("d", Some(""), Some("")),
    ];
    assert_eq!(entries_without_content(&entries), vec!["c", "a"]);
    assert_eq!(entries_without_tags(&entries), vec!["c", "b"]);
    assert!(entries_without_content(&Vec::new()).is_empty());
}

#[test]
fn placeholder_tokens() {
    assert_eq!(Placeholder::Content.as_str(), "$CONTENT");
    assert_eq!(Placeholder::Title.as_str(), "$TITLE");
    assert_eq!(Placeholder::NavCloud.as_str(), "$NAVCLOUD");
}

#[test]
fn only_the_home_page_carries_the_cloud() {
    let site = generate_site(&source(alpha_beta()));
    let cloud = "<nav><a href=\"x/index.html\">x</a><a href=\"y/index.html\">y</a></nav>";
    assert!(site.home.contains(cloud));
    assert!(site.listing.contains("<nav></nav>"));
    for page in site.entry_pages.iter().chain(site.tag_pages.iter()) {
        assert!(page.html.contains("<nav></nav>"));
    }
}

#[test]
fn pages_hold_no_token_where_the_values_hold_no_dollar_sign() {
    let site = generate_site(&source(alpha_beta()));
    let mut texts = vec![site.home.clone(), site.listing.clone()];
    for page in site.entry_pages.iter().chain(site.tag_pages.iter()) {
        texts.push(page.html.clone());
    }
    for text in texts {
        assert!(!text.contains('$'));
    }
    assert_eq!(
        render_page(BASE, "<p>CONTENT</p>", "TITLE", ""),
        "<title>TITLE</title><nav></nav><main><p>CONTENT</p></main>"
    );
}
