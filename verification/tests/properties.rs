use rendr::blueprint::Values;
use rendr::templating::tmplpp::{ParseErrorKind, Template, UpgradeError};

#[test]
fn render_leaves_no_markup_behind() {
    let template =
        Template::from_str("a {{ missing }}{{@ region }}body {{ v }}{{@ / }} z").unwrap();

    let mut values = Values::new();
    values.insert("v", "V");

    let output = template.render_to_string(&values).unwrap();
    assert_eq!(output, "a body V z");
    assert!(!output.contains("{{"));
    assert!(!output.contains("}}"));
}

#[test]
fn rendered_output_always_validates() {
    let template =
        Template::from_str("hello {{ name }}!\n{{@ body }}\ndefault\n{{@ / }}\nbye").unwrap();

    let mut values = Values::new();
    values.insert("name", "tove");

    let output = template.render_to_string(&values).unwrap();
    assert!(template.validate_generated_output(&values, &output));
}

#[test]
fn edits_inside_editable_regions_validate() {
    let template = Template::from_str("fix {{@ free }}stuff{{@ / }} fix").unwrap();
    let values = Values::new();

    let output = template.render_to_string(&values).unwrap();
    assert!(template.validate_generated_output(&values, &output));
    // The same output trivially validates again.
    assert!(template.validate_generated_output(&values, &output));
    // A change inside the editable region's span still validates.
    assert!(template.validate_generated_output(&values, "fix other stuff entirely fix"));
    // A change outside it does not.
    assert!(!template.validate_generated_output(&values, "fix stuff broken"));
}

#[test]
fn raw_text_metacharacters_stay_literal() {
    let template = Template::from_str("a.b").unwrap();
    let values = Values::new();

    assert!(template.validate_generated_output(&values, "a.b"));
    assert!(!template.validate_generated_output(&values, "axb"));

    let fancy = Template::from_str("f(x)* [1-9]+ \\d ^$").unwrap();
    assert!(fancy.validate_generated_output(&values, "f(x)* [1-9]+ \\d ^$"));
    assert!(!fancy.validate_generated_output(&values, "fxxx 5 7 "));
}

#[test]
fn upgrade_to_identical_template_is_a_noop() {
    let template =
        Template::from_str("v{{ n }}\n{{@ code }}\nbody\n{{@ / }}\nend {{ n }}").unwrap();

    let mut values = Values::new();
    values.insert("n", "1");

    let output = template.render_to_string(&values).unwrap();
    let upgraded = template.upgrade_to(&template, &values, &output).unwrap();
    assert_eq!(upgraded, output);
}

#[test]
fn editable_content_survives_scaffold_changes() {
    let t1 = Template::from_str("before {{@ x }}KEEP{{@ /}} after").unwrap();
    let t2 = Template::from_str("NEW-before {{@ x }}ignored{{@ /}} NEW-after").unwrap();
    let output = "before CUSTOM CODE after";

    assert_eq!(
        t1.upgrade_to(&t2, &Values::new(), output).unwrap(),
        "NEW-before CUSTOM CODE NEW-after"
    );
}

#[test]
fn variables_are_reevaluated_on_upgrade() {
    // The old template does not mention the version; the new one does, so
    // the freshly supplied values decide what the upgraded text holds.
    let t1 = Template::from_str("v {{@ x }}stuff{{@/}}").unwrap();
    let t2 = Template::from_str("v{{ version }} {{@ x }}stuff{{@/}}").unwrap();

    let output = t1.render_to_string(&Values::new()).unwrap();
    assert_eq!(output, "v stuff");

    let mut v2 = Values::new();
    v2.insert("version", "2");

    let upgraded = t1.upgrade_to(&t2, &v2, &output).unwrap();
    assert!(upgraded.starts_with("v2 "));
    assert_eq!(upgraded, "v2 stuff");
}

#[test]
fn upgrade_matches_the_output_under_the_supplied_values() {
    // The output of an older rendering no longer matches its template once
    // the supplied values change what the variables pin down: the upgrade
    // reports divergence rather than guessing.
    let t1 = Template::from_str("v{{ version }} {{@ x }}stuff{{@/}}").unwrap();
    let t2 = Template::from_str("v{{ version }} {{@ x }}stuff{{@/}}").unwrap();

    let mut v1 = Values::new();
    v1.insert("version", "1");
    let output = t1.render_to_string(&v1).unwrap();
    assert_eq!(output, "v1 stuff");

    let mut v2 = Values::new();
    v2.insert("version", "2");
    assert!(matches!(
        t1.upgrade_to(&t2, &v2, &output),
        Err(UpgradeError::OutputMismatch)
    ));

    // Under the values it was rendered with, the same upgrade re-evaluates
    // the variable and carries the editable region forward.
    let upgraded = t1.upgrade_to(&t2, &v1, &output).unwrap();
    assert_eq!(upgraded, "v1 stuff");
}

#[test]
fn foreign_output_is_rejected() {
    let template = Template::from_str("hello {{ name }} {{@ r }}x{{@/}} bye").unwrap();

    let mut values = Values::new();
    values.insert("name", "tove");

    assert!(!template.validate_generated_output(&values, "totally unrelated text"));
}

#[test]
fn one_newline_is_stripped_on_each_side_of_an_editable() {
    let template = Template::from_str("x\n{{@ a }}\nBODY\n{{@ /}}").unwrap();

    assert_eq!(template.render_to_string(&Values::new()).unwrap(), "x\nBODY");
}

#[test]
fn tag_whitespace_may_be_tabs_or_newlines() {
    let template = Template::from_str("a{{\tname\n}}b {{@\tr }}x{{@\n/\t}}c").unwrap();

    let mut values = Values::new();
    values.insert("name", "N");

    assert_eq!(template.render_to_string(&values).unwrap(), "aNb xc");
}

#[test]
fn single_braces_are_plain_text() {
    let template = Template::from_str("a{b }}c{ {d").unwrap();
    let values = Values::new();

    assert_eq!(template.render_to_string(&values).unwrap(), "a{b }}c{ {d");
    assert!(template.validate_generated_output(&values, "a{b }}c{ {d"));
}

// Parse error reporting

#[test]
fn unclosed_tag_is_reported_with_position_and_line() {
    let err = Template::from_str("ab\ncd{{ x").unwrap_err();

    assert_eq!(err.kind, ParseErrorKind::UnclosedTag);
    assert_eq!(err.pos, 5);
    assert_eq!(err.line, 2);
}

#[test]
fn stray_close_tag_is_rejected() {
    let err = Template::from_str("hi {{@ / }} there").unwrap_err();

    assert_eq!(err.kind, ParseErrorKind::UnexpectedCloseTag);
    assert_eq!(err.pos, 3);
}

#[test]
fn unclosed_editable_is_rejected() {
    let err = Template::from_str("x {{@ a }}body with no close").unwrap_err();

    assert_eq!(err.kind, ParseErrorKind::UnclosedEditable);
    assert_eq!(err.pos, 2);
}

#[test]
fn nested_editables_are_rejected_at_parse_time() {
    let err = Template::from_str("{{@ a }}x{{@ b }}y{{@ / }}{{@ / }}").unwrap_err();

    assert_eq!(err.kind, ParseErrorKind::NestedEditable);
    assert_eq!(err.pos, 9);
}

#[test]
fn duplicate_editable_names_are_rejected_at_parse_time() {
    let err = Template::from_str("{{@ a }}x{{@ / }}-{{@ a }}y{{@ / }}").unwrap_err();

    assert_eq!(err.kind, ParseErrorKind::DuplicateEditable);
    assert_eq!(err.pos, 18);
}

// Upgrade error conditions

#[test]
fn upgrade_rejects_diverged_output() {
    let t1 = Template::from_str("fixed {{@ a }}x{{@ / }}").unwrap();
    let t2 = Template::from_str("fixed {{@ a }}y{{@ / }}").unwrap();

    let err = t1
        .upgrade_to(&t2, &Values::new(), "entirely different text")
        .unwrap_err();
    assert!(matches!(err, UpgradeError::OutputMismatch));
}

#[test]
fn upgrade_rejects_a_region_the_old_template_lacks() {
    let t1 = Template::from_str("plain text").unwrap();
    let t2 = Template::from_str("plain {{@ fresh }}new{{@ / }} text").unwrap();

    let err = t1.upgrade_to(&t2, &Values::new(), "plain text").unwrap_err();
    match err {
        UpgradeError::UnknownRegion(name) => assert_eq!(name, "fresh"),
        other => panic!("unexpected upgrade error: {:?}", other),
    }
}

#[test]
fn missing_variables_render_as_empty_and_validate() {
    let template = Template::from_str("a{{ gone }}b").unwrap();
    let values = Values::new();

    assert_eq!(template.render_to_string(&values).unwrap(), "ab");
    assert!(template.validate_generated_output(&values, "ab"));
    assert!(!template.validate_generated_output(&values, "a b"));
}

#[test]
fn adjacent_editables_split_greedily() {
    // Two editable regions separated by one literal character: the first
    // region takes as much as the anchors allow.
    let template = Template::from_str("{{@ a }}1{{@ / }}-{{@ b }}2{{@ / }}").unwrap();
    let values = Values::new();

    assert!(template.validate_generated_output(&values, "one-two"));
    let same = Template::from_str("{{@ a }}1{{@ / }}-{{@ b }}2{{@ / }}").unwrap();
    let upgraded = template.upgrade_to(&same, &values, "one-and-two").unwrap();
    // Greedy capture: the first region holds everything up to the last `-`.
    assert_eq!(upgraded, "one-and-two");
}
