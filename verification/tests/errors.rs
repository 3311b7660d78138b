use template_fragments::error::{Error, ErrorWithLine};
use template_fragments::{filter_template, split_templates};

#[test]
fn unbalanced_tags_no_end() {
    let source = r#"
        {% fragment foo %}
    "#;

    assert!(matches!(
        filter_template(source, "foo"),
        Err(ErrorWithLine(_, Error::UnclosedTag(_)))
    ));
    assert!(matches!(
        split_templates(source),
        Err(ErrorWithLine(_, Error::UnclosedTag(_)))
    ));
}

#[test]
fn unbalanced_tags_to_many_ends() {
    let source = r#"
        {% fragment foo %}
        {% endfragment %}
        {% endfragment %}
    "#;

    assert!(matches!(
        filter_template(source, "foo"),
        Err(ErrorWithLine(_, Error::UnbalancedEndTag))
    ));
    assert!(matches!(
        split_templates(source),
        Err(ErrorWithLine(_, Error::UnbalancedEndTag))
    ));
}

#[test]
fn start_without_data() {
    let source = r#"
        {% fragment %}
        {% endfragment %}
    "#;

    assert!(matches!(
        filter_template(source, "foo"),
        Err(ErrorWithLine(_, Error::StartTagWithoutData))
    ));
    assert!(matches!(
        split_templates(source),
        Err(ErrorWithLine(_, Error::StartTagWithoutData))
    ));
}

#[test]
fn end_with_data() {
    let source = r#"
        {% fragment foo %}
        {% endfragment foo %}
    "#;

    assert!(matches!(
        filter_template(source, "foo"),
        Err(ErrorWithLine(_, Error::EndTagWithData(_)))
    ));
    assert!(matches!(
        split_templates(source),
        Err(ErrorWithLine(_, Error::EndTagWithData(_)))
    ));
}

#[test]
fn leading_data() {
    let source = r#"
        invalid {% fragment foo %}
        {% endfragment %}
    "#;

    assert!(matches!(
        filter_template(source, "foo"),
        Err(ErrorWithLine(_, Error::LeadingContent(_)))
    ));
    assert!(matches!(
        split_templates(source),
        Err(ErrorWithLine(_, Error::LeadingContent(_)))
    ));
}

#[test]
fn trailing_data() {
    let source = r#"
        {% fragment foo %} invalid
        {% endfragment %}
    "#;

    assert!(matches!(
        filter_template(source, "foo"),
        Err(ErrorWithLine(_, Error::TrailingContent(_)))
    ));
    assert!(matches!(
        split_templates(source),
        Err(ErrorWithLine(_, Error::TrailingContent(_)))
    ));
}

#[test]
fn invalid_tag_name() {
    let source = r#"
        {% fragment foo block %}
        {% endfragment %}
    "#;

    assert!(matches!(
        filter_template(source, "foo"),
        Err(ErrorWithLine(_, Error::InvalidFragmentName(_)))
    ));
    assert!(matches!(
        split_templates(source),
        Err(ErrorWithLine(_, Error::InvalidFragmentName(_)))
    ));
}
