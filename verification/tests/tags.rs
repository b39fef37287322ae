use sitegen::index::{filter_entries_by_tag, sorted_titles, Entry, TagIndex};
use sitegen::order::find_slot;
use sitegen::tags::{get_tags, holds_name};

fn entry(title: &str, tags: Option<&str>, content: Option<&str>) -> Entry {
    Entry {
        title: title.to_string(),
        tags: tags.map(|t| t.to_string()),
        content: content.map(|c| c.as_bytes().to_vec()),
    }
}

fn strings(items: &[&str]) -> Vec<String> {
    items.iter().map(|s| s.to_string()).collect()
}

#[test]
fn tags_are_split_at_white_space() {
    assert_eq!(get_tags("x y"), strings(&["x", "y"]));
    assert_eq!(get_tags("  rust\n\tweb  \r\n notes "), strings(&["rust", "web", "notes"]));
    assert_eq!(get_tags("one\u{a0}two\u{3000}three"), strings(&["one", "two", "three"]));
}

#[test]
fn tags_of_empty_or_blank_text_are_none() {
    assert!(get_tags("").is_empty());
    assert!(get_tags(" \n\t ").is_empty());
}

#[test]
fn a_tag_named_twice_is_kept_once() {
    assert_eq!(get_tags("b a b c a"), strings(&["b", "a", "c"]));
}

#[test]
fn tags_agree_with_split_whitespace() {
    for text in ["", "a", " a", "a ", "a  b", "é ✓\n𝄞", "x\u{2003}y\u{85}z", "\u{feff}q"] {
        let mut want: Vec<String> = Vec::new();
        for word in text.split_whitespace() {
            if !want.contains(&word.to_string()) {
                want.push(word.to_string());
            }
        }
        assert_eq!(get_tags(text), want);
    }
}

#[test]
fn holds_name_finds_equal_strings_only() {
    let names = strings(&["a", "bc"]);
    assert!(holds_name(&names, &"bc".to_string()));
    assert!(!holds_name(&names, &"b".to_string()));
    assert!(!holds_name(&Vec::new(), &"a".to_string()));
}

#[test]
fn index_files_each_entry_under_each_of_its_tags() {
    let entries = vec![
        entry("alpha", Some("x y"), Some("<p>A</p>")),
        entry("beta", Some("y"), Some("<p>B</p>")),
    ];
    let index = filter_entries_by_tag(&entries);
    assert_eq!(index.tags, strings(&["x", "y"]));
    assert_eq!(index.lists, vec![strings(&["alpha"]), strings(&["alpha", "beta"])]);
}

#[test]
fn index_keeps_tags_ascending_and_entries_in_scan_order() {
    let entries = vec![
        entry("zeta", Some("web rust"), None),
        entry("alpha", Some("rust art"), None),
        entry("mid", Some("Web"), None),
    ];
    let index = filter_entries_by_tag(&entries);
    assert_eq!(index.tags, strings(&["Web", "art", "rust", "web"]));
    assert_eq!(
        index.lists,
        vec![
            strings(&["mid"]),
            strings(&["alpha"]),
            strings(&["zeta", "alpha"]),
            strings(&["zeta"]),
        ]
    );
}

#[test]
fn entry_listed_once_under_a_tag_named_twice() {
    let entries = vec![entry("alpha", Some("x x\nx"), None)];
    let index = filter_entries_by_tag(&entries);
    assert_eq!(index.tags, strings(&["x"]));
    assert_eq!(index.lists, vec![strings(&["alpha"])]);
}

#[test]
fn entry_without_tag_file_is_under_no_tag() {
    let entries = vec![entry("alpha", None, Some("a")), entry("beta", Some("t"), None)];
    let index = filter_entries_by_tag(&entries);
    assert_eq!(index.tags, strings(&["t"]));
    assert_eq!(index.lists, vec![strings(&["beta"])]);
}

#[test]
fn every_tag_of_the_index_has_an_entry_that_names_it() {
    let entries = vec![
        entry("a", Some("p q"), None),
        entry("b", None, None),
        entry("c", Some(""), None),
        entry("d", Some("q r"), None),
    ];
    let index = filter_entries_by_tag(&entries);
    assert_eq!(index.tags.len(), index.lists.len());
    for (tag, titles) in index.tags.iter().zip(index.lists.iter()) {
        assert!(!titles.is_empty());
        for title in titles {
            let source = entries.iter().find(|e| &e.title == title).unwrap();
            let text = source.tags.clone().unwrap();
            assert!(text.split_whitespace().any(|w| w == tag));
        }
    }
}

#[test]
fn no_entries_give_an_empty_index() {
    let index = filter_entries_by_tag(&Vec::new());
    assert!(index.tags.is_empty());
    assert!(index.lists.is_empty());
}

#[test]
fn insert_files_titles_in_the_order_given() {
    let mut index = TagIndex::new();
    index.insert("m", "one");
    index.insert("a", "two");
    index.insert("z", "three");
    index.insert("m", "four");
    assert_eq!(index.tags, strings(&["a", "m", "z"]));
    assert_eq!(
        index.lists,
        vec![strings(&["two"]), strings(&["one", "four"]), strings(&["three"])]
    );
}

#[test]
fn find_slot_gives_the_place_and_whether_the_name_is_there() {
    let names = strings(&["b", "d", "f"]);
    assert_eq!(find_slot(&names, "a"), (0, false));
    assert_eq!(find_slot(&names, "b"), (0, true));
    assert_eq!(find_slot(&names, "c"), (1, false));
    assert_eq!(find_slot(&names, "f"), (2, true));
    assert_eq!(find_slot(&names, "g"), (3, false));
    assert_eq!(find_slot(&Vec::new(), "a"), (0, false));
}

#[test]
fn sorted_titles_agree_with_sort_and_dedup() {
    let entries = vec![
        entry("pear", None, None),
        entry("Apple", None, None),
        entry("fig", None, None),
        entry("apple", None, None),
        entry("fig", None, None),
        entry("élan", None, None),
    ];
    let mut want: Vec<String> = entries.iter().map(|e| e.title.clone()).collect();
    want.sort();
    want.dedup();
    assert_eq!(sorted_titles(&entries), want);
}
