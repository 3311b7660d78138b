use template_fragments::tmap::TemplateMap;
use template_fragments::{filter_template, split_templates};

/// Joins lines into a document where every line ends with `'\n'`.
fn doc(lines: &[&str]) -> String {
    let mut s = String::new();
    for l in lines {
        s.push_str(l);
        s.push('\n');
    }
    s
}

fn assert_map_is(m: &TemplateMap, expected: &[(&str, &str)]) {
    assert_eq!(m.len(), expected.len());
    for (k, v) in expected {
        assert_eq!(m.get(k).map(|s| s.as_str()), Some(*v));
    }
}

#[test]
fn reentrant_fragment() {
    let template = doc(&[
        "{% fragment dummy %}",
        "{% fragment dummy %}",
        "{% endfragment %}",
        "{% endfragment %}",
    ]);

    assert!(filter_template(&template, "").is_err());
    assert!(filter_template(&template, "dummy").is_err());
    assert!(split_templates(&template).is_err());
}

#[test]
fn missing_name() {
    let template = doc(&["{% fragment %}", "{% endfragment %}"]);

    assert!(filter_template(&template, "").is_err());
    assert!(filter_template(&template, "dummy").is_err());
    assert!(split_templates(&template).is_err());
}

#[test]
fn named_end() {
    let template = doc(&["{% fragment dummy %}", "{% endfragment dummy %}"]);

    assert!(filter_template(&template, "").is_err());
    assert!(filter_template(&template, "dummy").is_err());
    assert!(split_templates(&template).is_err());
}

#[test]
fn missing_end() {
    let template = doc(&["{% fragment example %}"]);

    assert!(filter_template(&template, "").is_err());
    assert!(filter_template(&template, "dummy").is_err());
    assert!(split_templates(&template).is_err());
}

#[test]
fn repeated_ends() {
    let template = doc(&["{% fragment example %}", "{% endfragment %}", "{% endfragment %}"]);

    assert!(filter_template(&template, "").is_err());
    assert!(filter_template(&template, "dummy").is_err());
    assert!(split_templates(&template).is_err());
}

#[test]
fn trailing_content() {
    let template = doc(&["{% fragment example %} invalid", "{% endfragment %}"]);

    assert!(filter_template(&template, "").is_err());
    assert!(filter_template(&template, "dummy").is_err());
    assert!(split_templates(&template).is_err());
}

#[test]
fn example_1() {
    let template = doc(&[
        "<body>",
        "<ul>",
        "{% fragment listing %}",
        "    {% for item in listing %}",
        "    <li>{{ item }}</li>",
        "    {% endfor %}",
        "{% endfragment %}",
        "</ul>",
        "{% fragment content %}",
        "<div>",
        "    {% for item in content %}",
        "    {% fragment content-item %}",
        "    <div>{{ item }}</div>",
        "    {% endfragment %}",
        "    {% endfor %}",
        "</div>",
        "{% endfragment %}",
        "</body>",
    ]);

    let expected_root = doc(&[
        "<body>",
        "<ul>",
        "    {% for item in listing %}",
        "    <li>{{ item }}</li>",
        "    {% endfor %}",
        "</ul>",
        "<div>",
        "    {% for item in content %}",
        "    <div>{{ item }}</div>",
        "    {% endfor %}",
        "</div>",
        "</body>",
    ]);
    let expected_listing = doc(&[
        "    {% for item in listing %}",
        "    <li>{{ item }}</li>",
        "    {% endfor %}",
    ]);
    let expected_content = doc(&[
        "<div>",
        "    {% for item in content %}",
        "    <div>{{ item }}</div>",
        "    {% endfor %}",
        "</div>",
    ]);
    let expected_content_item = doc(&["    <div>{{ item }}</div>"]);

    assert_eq!(filter_template(&template, "").unwrap(), expected_root);
    assert_eq!(filter_template(&template, "listing").unwrap(), expected_listing);
    assert_eq!(filter_template(&template, "content").unwrap(), expected_content);
    assert_eq!(filter_template(&template, "content-item").unwrap(), expected_content_item);
    let split = split_templates(&template).unwrap();
    assert_map_is(
        &split,
        &[
            ("", &expected_root),
            ("listing", &expected_listing),
            ("content", &expected_content),
            ("content-item", &expected_content_item),
        ],
    );
}

#[test]
fn example_2() {
    let template = doc(&[
        "<body>",
        "    {% for item in items %}",
        "    {% fragment item %}",
        "    <div>",
        "        {{ item }}",
        "    </div>",
        "    {% endfragment %}",
        "    {% endfor %}",
        "<body>",
    ]);

    let expected_root = doc(&[
        "<body>",
        "    {% for item in items %}",
        "    <div>",
        "        {{ item }}",
        "    </div>",
        "    {% endfor %}",
        "<body>",
    ]);
    let expected_item = doc(&["    <div>", "        {{ item }}", "    </div>"]);

    assert_eq!(filter_template(&template, "").unwrap(), expected_root);
    assert_eq!(filter_template(&template, "item").unwrap(), expected_item);
    let split = split_templates(&template).unwrap();
    assert_map_is(&split, &[("", &expected_root), ("item", &expected_item)]);
}

#[test]
fn block_fragments() {
    let template = doc(&[
        "<body>",
        "  {% for item in items %}",
        "  {% fragment-block item %}",
        "    <div>",
        "      {{ item }}",
        "    </div>",
        "  {% endfragment-block %}",
        "  {% endfor %}",
        "<body>",
    ]);

    let expected_root = doc(&[
        "<body>",
        "  {% for item in items %}",
        "  {% block item %}",
        "    <div>",
        "      {{ item }}",
        "    </div>",
        "  {% endblock %}",
        "  {% endfor %}",
        "<body>",
    ]);
    let expected_item = doc(&[
        "  {% block item %}",
        "    <div>",
        "      {{ item }}",
        "    </div>",
        "  {% endblock %}",
    ]);

    assert_eq!(filter_template(&template, "").unwrap(), expected_root);
    assert_eq!(filter_template(&template, "item").unwrap(), expected_item);
    let split = split_templates(&template).unwrap();
    assert_map_is(&split, &[("", &expected_root), ("item", &expected_item)]);
}

#[test]
fn nested_block_fragments() {
    let template = doc(&[
        "<body>",
        "  {% fragment-block outer %}",
        "  {% for item in items %}",
        "  {% fragment-block item %}",
        "    <div>",
        "      {{ item }}",
        "    </div>",
        "  {% endfragment-block %}",
        "  {% endfor %}",
        "  {% endfragment-block %}",
        "<body>",
    ]);

    let expected_root = doc(&[
        "<body>",
        "  {% block outer %}",
        "  {% for item in items %}",
        "  {% block item %}",
        "    <div>",
        "      {{ item }}",
        "    </div>",
        "  {% endblock %}",
        "  {% endfor %}",
        "  {% endblock %}",
        "<body>",
    ]);
    let expected_item = doc(&[
        "  {% block item %}",
        "    <div>",
        "      {{ item }}",
        "    </div>",
        "  {% endblock %}",
    ]);
    let expected_outer = doc(&[
        "  {% block outer %}",
        "  {% for item in items %}",
        "  {% block item %}",
        "    <div>",
        "      {{ item }}",
        "    </div>",
        "  {% endblock %}",
        "  {% endfor %}",
        "  {% endblock %}",
    ]);

    assert_eq!(filter_template(&template, "").unwrap(), expected_root);
    assert_eq!(filter_template(&template, "item").unwrap(), expected_item);
    assert_eq!(filter_template(&template, "outer").unwrap(), expected_outer);
    let split = split_templates(&template).unwrap();
    assert_map_is(
        &split,
        &[("", &expected_root), ("item", &expected_item), ("outer", &expected_outer)],
    );
}

#[test]
fn repeated_fragment() {
    let template = doc(&[
        "{% fragment foo bar %}",
        "    <common>",
        "{% endfragment %}",
        "{% fragment foo %}",
        "    <foo>",
        "{% endfragment %}",
        "{% fragment bar %}",
        "    <bar>",
        "{% endfragment %}",
    ]);

    let expected_root = doc(&["    <common>", "    <foo>", "    <bar>"]);
    let expected_foo = doc(&["    <common>", "    <foo>"]);
    let expected_bar = doc(&["    <common>", "    <bar>"]);

    assert_eq!(filter_template(&template, "").unwrap(), expected_root);
    assert_eq!(filter_template(&template, "foo").unwrap(), expected_foo);
    assert_eq!(filter_template(&template, "bar").unwrap(), expected_bar);
    let split = split_templates(&template).unwrap();
    assert_map_is(
        &split,
        &[("", &expected_root), ("foo", &expected_foo), ("bar", &expected_bar)],
    );
}
