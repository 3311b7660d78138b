use template_fragments::error::{Error, ErrorWithLine};
use template_fragments::{filter_template, join_path, split_path, split_templates};

/// Joins lines into a document where every line ends with `'\n'`.
fn doc(lines: &[&str]) -> String {
    let mut s = String::new();
    for l in lines {
        s.push_str(l);
        s.push('\n');
    }
    s
}

#[test]
fn empty_input_yields_empty_root_and_no_entries() {
    assert_eq!(filter_template("", "").unwrap(), "");
    assert_eq!(filter_template("", "missing").unwrap(), "");
    let split = split_templates("").unwrap();
    assert_eq!(split.len(), 0);
    assert!(split.get("").is_none());
}

#[test]
fn split_agrees_with_filter_on_every_name() {
    let template = doc(&[
        "top",
        "{% fragment a b %}",
        "shared",
        "{% endfragment %}",
        "{% fragment a %}",
        "only-a",
        "{% endfragment %}",
        "bottom",
    ]);
    let split = split_templates(&template).unwrap();
    for name in ["", "a", "b"] {
        assert_eq!(
            split.get(name).map(|s| s.as_str()),
            Some(filter_template(&template, name).unwrap().as_str())
        );
    }
    // a name that never receives a line has no entry and filters to nothing
    assert!(split.get("missing").is_none());
    assert_eq!(filter_template(&template, "missing").unwrap(), "");
    // the entries are exactly the root and the declared fragments
    let mut names: Vec<&str> = split.names().iter().map(|s| s.as_str()).collect();
    names.sort();
    assert_eq!(names, vec!["", "a", "b"]);
}

#[test]
fn processing_is_pure_and_repeatable() {
    let template = doc(&["<p>", "{% fragment f %}", "x", "{% endfragment %}"]);
    let first = filter_template(&template, "f");
    let second = filter_template(&template, "f");
    assert_eq!(first, second);
    let split_first = split_templates(&template);
    let split_second = split_templates(&template);
    assert_eq!(split_first, split_second);
}

#[test]
fn reentrant_fragment_error_names_the_fragment() {
    let template = doc(&[
        "{% fragment x %}",
        "{% fragment x %}",
        "{% endfragment %}",
        "{% endfragment %}",
    ]);
    assert_eq!(
        filter_template(&template, ""),
        Err(ErrorWithLine(1, Error::ReentrantFragment(String::from("x"))))
    );
    assert!(matches!(
        split_templates(&template),
        Err(ErrorWithLine(1, Error::ReentrantFragment(_)))
    ));
}

#[test]
fn reentrant_fragment_error_sorts_all_collisions() {
    let template = doc(&[
        "{% fragment b a %}",
        "{% fragment a b %}",
        "{% endfragment %}",
        "{% endfragment %}",
    ]);
    assert_eq!(
        filter_template(&template, ""),
        Err(ErrorWithLine(1, Error::ReentrantFragment(String::from("a, b"))))
    );
}

#[test]
fn unclosed_tag_error_at_final_line_lists_the_names() {
    let template = doc(&["first", "{% fragment x %}", "inside"]);
    assert_eq!(
        filter_template(&template, ""),
        Err(ErrorWithLine(2, Error::UnclosedTag(String::from("x"))))
    );
    let template2 = doc(&["{% fragment b a %}", "{% fragment c %}"]);
    assert_eq!(
        split_templates(&template2),
        Err(ErrorWithLine(1, Error::UnclosedTag(String::from("a, b, c"))))
    );
}

#[test]
fn unbalanced_end_fails_on_the_second_end() {
    let template = doc(&["{% fragment x %}", "{% endfragment %}", "{% endfragment %}"]);
    assert_eq!(
        filter_template(&template, ""),
        Err(ErrorWithLine(2, Error::UnbalancedEndTag))
    );
    assert_eq!(
        split_templates(&template).unwrap_err(),
        ErrorWithLine(2, Error::UnbalancedEndTag)
    );
}

#[test]
fn invalid_name_errors_are_sorted_and_exact() {
    let reserved = doc(&["{% fragment block %}", "{% endfragment %}"]);
    assert_eq!(
        filter_template(&reserved, ""),
        Err(ErrorWithLine(0, Error::InvalidFragmentName(String::from("block"))))
    );
    let bad_char = doc(&["{% fragment @x %}", "{% endfragment %}"]);
    assert_eq!(
        filter_template(&bad_char, ""),
        Err(ErrorWithLine(0, Error::InvalidFragmentName(String::from("@x"))))
    );
    let several = doc(&["{% fragment z@ ok a@ %}", "{% endfragment %}"]);
    assert_eq!(
        filter_template(&several, ""),
        Err(ErrorWithLine(0, Error::InvalidFragmentName(String::from("a@, z@"))))
    );
}

#[test]
fn multiple_names_block_error_is_sorted() {
    let template = doc(&["{% fragment-block b a %}", "{% endfragment-block %}"]);
    assert_eq!(
        filter_template(&template, ""),
        Err(ErrorWithLine(0, Error::MultipleNamesBlock(String::from("a, b"))))
    );
}

#[test]
fn error_payloads_keep_the_offending_text_verbatim() {
    let leading = doc(&["bad {% fragment x %}", "{% endfragment %}"]);
    assert_eq!(
        filter_template(&leading, ""),
        Err(ErrorWithLine(0, Error::LeadingContent(String::from("bad "))))
    );
    let trailing = doc(&["{% fragment x %} bad", "{% endfragment %}"]);
    assert_eq!(
        filter_template(&trailing, ""),
        Err(ErrorWithLine(0, Error::TrailingContent(String::from(" bad\n"))))
    );
    let end_data = doc(&["{% fragment foo %}", "{% endfragment foo %}"]);
    assert_eq!(
        filter_template(&end_data, ""),
        Err(ErrorWithLine(1, Error::EndTagWithData(String::from("foo "))))
    );
}

#[test]
fn line_endings_are_preserved_exactly() {
    let template = "a\r\nb\n{% fragment f %}\r\nc\r\n{% endfragment %}\nd";
    assert_eq!(filter_template(template, "").unwrap(), "a\r\nb\nc\r\nd");
    assert_eq!(filter_template(template, "f").unwrap(), "c\r\n");
}

#[test]
fn block_rewrite_keeps_indentation_and_ending() {
    let template = "\t{% fragment-block f %}\r\nx\r\n\t{% endfragment-block %}\r\n";
    assert_eq!(
        filter_template(template, "").unwrap(),
        "\t{% block f %}\r\nx\r\n\t{% endblock %}\r\n"
    );
    assert_eq!(
        filter_template(template, "f").unwrap(),
        "\t{% block f %}\r\nx\r\n\t{% endblock %}\r\n"
    );
}

#[test]
fn duplicate_names_in_one_tag_count_once() {
    let template = doc(&["{% fragment a a %}", "x", "{% endfragment %}"]);
    assert_eq!(filter_template(&template, "a").unwrap(), "x\n");
    let split = split_templates(&template).unwrap();
    assert_eq!(split.len(), 2);
    assert_eq!(split.get("a").map(|s| s.as_str()), Some("x\n"));
}

#[test]
fn tags_recognize_any_unicode_whitespace() {
    let template = "{%\tfragment\u{2003}foo %}\ncontent\n{% endfragment %}\n";
    assert_eq!(filter_template(template, "foo").unwrap(), "content\n");
}

#[test]
fn unicode_names_are_alphanumeric() {
    let template = doc(&["{% fragment h\u{e9}llo %}", "x", "{% endfragment %}"]);
    assert_eq!(filter_template(&template, "h\u{e9}llo").unwrap(), "x\n");
}

#[test]
fn lines_without_a_complete_tag_are_content() {
    let template = doc(&[
        "{%raw%}",
        "{% fragmentation x %}",
        "{% fragment",
        "endfragment %}",
        "{% dummy %}",
    ]);
    assert_eq!(filter_template(&template, "").unwrap(), template);
}

#[test]
fn split_path_examples() {
    assert_eq!(split_path("index.html"), ("index.html", ""));
    assert_eq!(split_path("index.html#child"), ("index.html", "child"));
    assert_eq!(split_path("  index.html  "), ("index.html", ""));
    assert_eq!(split_path("  index.html  #  child  "), ("index.html", "child"));
    // the split is on the last hash
    assert_eq!(split_path("a#b#c"), ("a#b", "c"));
}

#[test]
fn join_path_examples() {
    assert_eq!(join_path("index.html", ""), "index.html");
    assert_eq!(join_path("index.html", "child"), "index.html#child");
    assert_eq!(join_path("  index.html  ", "  "), "index.html");
    assert_eq!(join_path("  index.html  ", "  child  "), "index.html#child");
}

#[test]
fn error_at_attaches_the_line() {
    let e = Error::UnbalancedEndTag.at(7);
    assert_eq!(e, ErrorWithLine(7, Error::UnbalancedEndTag));
}
