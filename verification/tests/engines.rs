use rendr::blueprint::Values;
use rendr::templating::{render_template, Mustache, TemplatingEngine};

#[test]
fn templating_render_valid_template() {
    let template = "name: {{ name }}, value: {{ value }}";

    let mut values = Values::new();
    values.insert("name", "foo");
    values.insert("value", "bar");
    values.insert("asd", "dsa");

    assert_eq!(
        render_template(template, &values).unwrap(),
        "name: foo, value: bar",
    );
}

#[test]
fn mustache_render_valid_template() {
    let template = "name: {{ name }}, value: {{ value }}";

    let mut values = Values::new();
    values.insert("name", "foo");
    values.insert("value", "bar");
    values.insert("asd", "dsa");

    assert_eq!(
        Mustache::new().render_template(template, values).unwrap(),
        "name: foo, value: bar",
    );
}

#[test]
fn tmplpp_engine_renders_through_the_trait() {
    let engine = rendr::templating::Tmplpp::new();

    let mut values = Values::new();
    values.insert("name", "world");

    assert_eq!(
        TemplatingEngine::render_template(&engine, "hello {{ name }}", values).unwrap(),
        "hello world",
    );
}

#[test]
fn tmplpp_engine_rejects_bad_template() {
    let engine = rendr::templating::Tmplpp::new();

    assert!(rendr::templating::Tmplpp::render_template(&engine, "oh {{ no", Values::new()).is_err());
}

#[test]
fn tmplpp_engine_reports_the_parse_failure() {
    let engine = rendr::templating::Tmplpp::new();

    let err =
        rendr::templating::Tmplpp::render_template(&engine, "ab\ncd{{ x", Values::new())
            .unwrap_err();
    let pe = err.parse_error().unwrap();
    assert_eq!(pe.pos, 5);
    assert_eq!(pe.line, 2);
    assert_eq!(pe.kind, rendr::templating::tmplpp::ParseErrorKind::UnclosedTag);
}
