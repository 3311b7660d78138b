use template_fragments::tmap::TemplateMap;
use template_fragments::{filter_template, split_templates};

/// Joins lines into a document where every line ends with `'\n'`.
fn doc(lines: &[&str]) -> String {
    let mut s = String::new();
    for l in lines {
        s.push_str(l);
        s.push('\n');
    }
    s
}

fn assert_map_is(m: &TemplateMap, expected: &[(&str, &str)]) {
    assert_eq!(m.len(), expected.len());
    for (k, v) in expected {
        assert_eq!(m.get(k).map(|s| s.as_str()), Some(*v));
    }
}

#[test]
fn split_templates_example() {
    let template = doc(&[
        "<body>",
        "  {% for item in items %}",
        "  {% fragment item %}",
        "    <div>",
        "      {{ item }}",
        "    </div>",
        "  {% endfragment %}",
        "  {% endfor %}",
        "<body>",
    ]);
    let expected_root = doc(&[
        "<body>",
        "  {% for item in items %}",
        "    <div>",
        "      {{ item }}",
        "    </div>",
        "  {% endfor %}",
        "<body>",
    ]);
    let expected_item = doc(&["    <div>", "      {{ item }}", "    </div>"]);

    let split = split_templates(&template).unwrap();
    assert_map_is(&split, &[("", &expected_root), ("item", &expected_item)]);
    assert_eq!(filter_template(&template, "").unwrap(), expected_root);
    assert_eq!(filter_template(&template, "item").unwrap(), expected_item);
}
