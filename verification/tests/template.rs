use sitegen::template::{paragraphs, replace_chars, replace_placeholders, txt_to_html};
use sitegen::text::{chars_of, compare_chars, is_space_char, string_of, Order};

fn pair(key: &str, value: &str) -> (String, String) {
    (key.to_string(), value.to_string())
}

fn replace_str(text: &str, pat: &str, rep: &str) -> String {
    let out = replace_chars(
        &text.chars().collect(),
        &pat.chars().collect(),
        &rep.chars().collect(),
    );
    out.into_iter().collect()
}

#[test]
fn empty_map_returns_template_unchanged() {
    let template = "<html>$TITLE $CONTENT $NAVCLOUD</html>";
    assert_eq!(replace_placeholders(template, &vec![]), template);
    assert_eq!(replace_placeholders("", &vec![]), "");
}

#[test]
fn every_occurrence_of_each_key_is_replaced() {
    let out = replace_placeholders(
        "<h1>$TITLE</h1>$CONTENT<p>$TITLE</p>",
        &vec![pair("$CONTENT", "<p>body</p>"), pair("$TITLE", "Hello")],
    );
    assert_eq!(out, "<h1>Hello</h1><p>body</p><p>Hello</p>");
    assert!(!out.contains("$TITLE"));
    assert!(!out.contains("$CONTENT"));
}

#[test]
fn unmatched_placeholder_is_left_verbatim() {
    let out = replace_placeholders("a $OTHER b", &vec![pair("$TITLE", "t")]);
    assert_eq!(out, "a $OTHER b");
    let out = replace_placeholders("a $TITLE b", &vec![pair("$NAVCLOUD", "n")]);
    assert_eq!(out, "a $TITLE b");
}

#[test]
fn pairs_are_applied_in_order_on_the_text_so_far() {
    let out = replace_placeholders("$A", &vec![pair("$A", "$B"), pair("$B", "x")]);
    assert_eq!(out, "x");
    let out = replace_placeholders("$A", &vec![pair("$B", "x"), pair("$A", "$B")]);
    assert_eq!(out, "$B");
}

#[test]
fn inserted_value_is_not_searched_again_for_its_own_key() {
    let out = replace_placeholders("ab", &vec![pair("a", "aa")]);
    assert_eq!(out, "aab");
}

#[test]
fn a_value_can_join_its_surroundings_into_the_key() {
    let out = replace_placeholders("$TI$TITLELE", &vec![pair("$TITLE", "T")]);
    assert_eq!(out, "$TITLE");
    let out = replace_placeholders("$$TITLETITLE", &vec![pair("$TITLE", "")]);
    assert_eq!(out, "$TITLE");
    let out = replace_placeholders("$TIT$TITLE", &vec![pair("$TITLE", "LE")]);
    assert_eq!(out, "$TITLE");
}

#[test]
fn marked_keys_are_all_replaced_whatever_the_values_hold() {
    let template = "<title>$TITLE</title><nav>$NAVCLOUD</nav>$CONTENT$TITLE$CONTENT";
    let out = replace_placeholders(
        template,
        &vec![
            pair("$CONTENT", "<p>A TITLE, CONTENT and NAVCLOUD</p>"),
            pair("$TITLE", "T"),
            pair("$NAVCLOUD", ""),
        ],
    );
    assert_eq!(
        out,
        "<title>T</title><nav></nav><p>A TITLE, CONTENT and NAVCLOUD</p>T<p>A TITLE, CONTENT and NAVCLOUD</p>"
    );
    assert!(!out.contains('$'));
    for key in ["$CONTENT", "$TITLE", "$NAVCLOUD"] {
        assert!(!out.contains(key));
    }
    let out = replace_placeholders("$AB$A$AB", &vec![pair("$A", "x"), pair("$AB", "y")]);
    assert_eq!(out, "xBxxB");
    assert!(!out.contains('$'));
}

#[test]
fn replacement_agrees_with_the_standard_library() {
    let texts = ["", "a", "aaa", "aaaa", "abcabc", "xabababy", "héllo wörld héllo", "$$TT$T"];
    let pats = ["", "a", "aa", "ab", "aba", "abc", "é", "héllo", "$T", "zzz"];
    let reps = ["", "-", "a", "ab", "ü!"];
    for text in texts {
        for pat in pats {
            for rep in reps {
                assert_eq!(replace_str(text, pat, rep), text.replace(pat, rep));
            }
        }
    }
}

#[test]
fn empty_key_puts_the_value_around_every_character() {
    assert_eq!(replace_placeholders("abc", &vec![pair("", "-")]), "-a-b-c-");
    assert_eq!(replace_placeholders("", &vec![pair("", "-")]), "-");
}

#[test]
fn matches_do_not_overlap() {
    assert_eq!(replace_str("aaa", "aa", "b"), "ba");
    assert_eq!(replace_str("ababa", "aba", "x"), "xba");
}

#[test]
fn characters_round_trip() {
    for text in ["", "plain", "héllo ✓ 𝄞", "\n\t "] {
        let chars = chars_of(text);
        assert_eq!(chars, text.chars().collect::<Vec<char>>());
        assert_eq!(string_of(&chars), text);
    }
}

#[test]
fn paragraphs_splits_at_line_feeds() {
    assert_eq!(paragraphs("a\nb"), "<p>a</p><p>b</p>");
    assert_eq!(paragraphs(""), "<p></p>");
    assert_eq!(paragraphs("one\n"), "<p>one</p><p></p>");
}

#[test]
fn txt_to_html_wraps_lines_in_paragraphs() {
    assert_eq!(txt_to_html(b"a\nb".to_vec()), b"<p>a</p><p>b</p>".to_vec());
    assert_eq!(txt_to_html(Vec::new()), b"<p></p>".to_vec());
    assert_eq!(
        txt_to_html("é\n✓".as_bytes().to_vec()),
        "<p>é</p><p>✓</p>".as_bytes().to_vec()
    );
}

#[test]
fn txt_to_html_replaces_malformed_bytes() {
    let out = txt_to_html(vec![b'a', 0xff, b'b']);
    assert_eq!(out, "<p>a\u{fffd}b</p>".as_bytes().to_vec());
}

#[test]
fn comparison_agrees_with_the_order_of_strings() {
    let samples = ["", "a", "ab", "b", "B", "abc", "é", "z", "zz", "✓", "𝄞", "a b"];
    for a in samples {
        for b in samples {
            let got = compare_chars(&chars_of(a), &chars_of(b));
            let want = if a < b {
                Order::Before
            } else if a == b {
                Order::Same
            } else {
                Order::After
            };
            assert_eq!(got, want);
        }
    }
}

#[test]
fn white_space_is_what_the_standard_library_calls_white_space() {
    let mut code: u32 = 0;
    while code <= 0x10ffff {
        if let Some(c) = char::from_u32(code) {
            assert_eq!(is_space_char(c), c.is_whitespace());
        }
        code += 1;
    }
}
