use rendr::blueprint::Values;
use rendr::templating::tmplpp::{Element, Template};

// Parser tests

#[test]
fn parse_raw_text() {
    let text = "and the mome raths outgrabe";

    let template = Template::from_str(text).unwrap();

    assert_eq!(*template.elements(), [Element::RawText(text.to_string())]);
}

#[test]
fn parse_raw_text_and_tags() {
    let text = "and the mome raths outgrabe {{ foo }} and {{ bar }}";

    let template = Template::from_str(text).unwrap();

    assert_eq!(
        *template.elements(),
        [
            Element::RawText("and the mome raths outgrabe ".to_string()),
            Element::Var("foo".to_string()),
            Element::RawText(" and ".to_string()),
            Element::Var("bar".to_string()),
        ]
    );
}

#[test]
fn parse_vars_regardless_of_whitespace() {
    let text = "and the mome raths outgrabe {{    foo    }} and {{bar}}";

    let template = Template::from_str(text).unwrap();

    assert_eq!(
        *template.elements(),
        [
            Element::RawText("and the mome raths outgrabe ".to_string()),
            Element::Var("foo".to_string()),
            Element::RawText(" and ".to_string()),
            Element::Var("bar".to_string()),
        ]
    );
}

#[test]
fn parse_consecutive_vars() {
    let text = "and the mome raths outgrabe {{ foo }}{{ bar }}";

    let template = Template::from_str(text).unwrap();

    assert_eq!(
        *template.elements(),
        [
            Element::RawText("and the mome raths outgrabe ".to_string()),
            Element::Var("foo".to_string()),
            Element::Var("bar".to_string()),
        ]
    );
}

#[test]
fn parse_a_simple_editable() {
    let text = "and the mome {{@ foo }}raths{{@ / }} outgrabe";

    let template = Template::from_str(text).unwrap();

    assert_eq!(
        *template.elements(),
        [
            Element::RawText("and the mome ".to_string()),
            Element::Editable(
                "foo".to_string(),
                vec![Element::RawText("raths".to_string())],
            ),
            Element::RawText(" outgrabe".to_string()),
        ]
    );
}

#[test]
fn parse_an_editable_with_vars() {
    let text = "and the mome {{@ foo }}raths {{ bar }}{{@ / }} outgrabe";

    let template = Template::from_str(text).unwrap();

    assert_eq!(
        *template.elements(),
        [
            Element::RawText("and the mome ".to_string()),
            Element::Editable(
                "foo".to_string(),
                vec![
                    Element::RawText("raths ".to_string()),
                    Element::Var("bar".to_string()),
                ],
            ),
            Element::RawText(" outgrabe".to_string()),
        ]
    );
}

#[test]
fn strip_newlines_when_parsing_editables() {
    let text = "stuff\n{{@ foo }}\nstuff\n{{@ / }}";

    let template = Template::from_str(text).unwrap();

    assert_eq!(
        *template.elements(),
        [
            Element::RawText("stuff\n".to_string()),
            Element::Editable(
                "foo".to_string(),
                vec![Element::RawText("stuff".to_string())],
            ),
        ]
    );
}

#[test]
fn strip_only_one_newline_when_parsing_editables() {
    let text = "stuff\n{{@ foo }}\n\nstuff\n\n\n{{@ / }}";

    let template = Template::from_str(text).unwrap();

    assert_eq!(
        *template.elements(),
        [
            Element::RawText("stuff\n".to_string()),
            Element::Editable(
                "foo".to_string(),
                vec![Element::RawText("\nstuff\n\n".to_string())],
            ),
        ]
    );
}

#[test]
fn attempt_parsing_invalid_template_fails() {
    let text = "and the mome raths {{ outgrabe";

    assert!(Template::from_str(text).is_err());
}

// Render tests

#[test]
fn render_empty_template() {
    let template = Template::from_str("").unwrap();

    assert_eq!(template.render_to_string(&Values::new()).unwrap(), "");
}

#[test]
fn render_raw_text() {
    let template = Template::from_str("All mimsy were the borogoves.").unwrap();

    assert_eq!(
        template.render_to_string(&Values::new()).unwrap(),
        "All mimsy were the borogoves."
    );
}

#[test]
fn render_empty_var() {
    let template = Template::from_str("All mimsy were {{ foo }} borogoves.").unwrap();

    assert_eq!(
        template.render_to_string(&Values::new()).unwrap(),
        "All mimsy were  borogoves."
    );
}

#[test]
fn render_single_var() {
    let template = Template::from_str("All mimsy were {{ foo }} borogoves.").unwrap();

    let mut values = Values::new();
    values.insert("foo", "the");

    assert_eq!(
        template.render_to_string(&values).unwrap(),
        "All mimsy were the borogoves.",
    );
}

#[test]
fn render_editable_block() {
    let template = Template::from_str("All mimsy were {{@ foo }}the{{@ / }} borogoves.").unwrap();

    assert_eq!(
        template.render_to_string(&Values::new()).unwrap(),
        "All mimsy were the borogoves.",
    );
}

#[test]
fn render_editable_block_with_vars_inside() {
    let template =
        Template::from_str("All {{@ foo }}mimsy {{ bar }} the{{@ / }} borogoves.").unwrap();

    let mut values = Values::new();
    values.insert("bar", "were");

    assert_eq!(
        template.render_to_string(&values).unwrap(),
        "All mimsy were the borogoves.",
    );
}

// Validator tests

#[test]
fn validate_simple_text() {
    let template = Template::from_str("All mimsy were the borogoves.").unwrap();

    assert!(template.validate_generated_output(&Values::new(), "All mimsy were the borogoves."));
    assert!(!template.validate_generated_output(&Values::new(), "All mimsy were the borogoves. "));
}

#[test]
fn validate_simple_text_with_newlines() {
    let template = Template::from_str("All mimsy\nwere the borogoves.").unwrap();

    assert!(template.validate_generated_output(&Values::new(), "All mimsy\nwere the borogoves."));
    assert!(!template.validate_generated_output(&Values::new(), "All mimsy\nwere the borogoves. "));
    assert!(!template.validate_generated_output(
        &Values::new(),
        "All mimsy\nwere the borogoves.\nAll mimsy\nwere the borogoves."
    ));
}

#[test]
fn validate_output_with_vars() {
    let template = Template::from_str("All mimsy {{ foo }} the borogoves.").unwrap();

    let mut values = Values::new();
    values.insert("foo", "were");

    assert!(template.validate_generated_output(&values, "All mimsy were the borogoves."));
    assert!(!template.validate_generated_output(&values, "All mimsy was the borogoves."));
}

#[test]
fn validate_output_with_an_editable() {
    let template = Template::from_str("All mimsy {{@ foo }}were{{@/}} the borogoves.").unwrap();

    assert!(template.validate_generated_output(&Values::new(), "All mimsy were the borogoves."));
    // We're allowed to edit the text inside the editable...
    assert!(template.validate_generated_output(&Values::new(), "All mimsy was the borogoves."));
    assert!(template.validate_generated_output(&Values::new(), "All mimsy asd fsd sdf the borogoves."));
    // ...but we shouldn't edit the text outside of the editable.
    assert!(!template.validate_generated_output(&Values::new(), "All mimsy were the borogoves. Stuff."));
}

// Upgrade tests

#[test]
fn upgrade_output_with_simple_text() {
    let v1 = Template::from_str("All mimsy were the borogoves.").unwrap();
    let v2 = Template::from_str("All mimsy were my borogoves.").unwrap();

    let output = v1.render_to_string(&Values::new()).unwrap();

    assert_eq!(output, "All mimsy were the borogoves.");

    let new_output = v1.upgrade_to(&v2, &Values::new(), &output).unwrap();

    assert_eq!(new_output, "All mimsy were my borogoves.");
}

#[test]
fn upgrade_output_with_vars() {
    let v1 = Template::from_str("All mimsy {{ foo }} the borogoves.").unwrap();
    let v2 = Template::from_str("All mimsy {{ foo }} my borogoves.").unwrap();

    let mut values = Values::new();
    values.insert("foo", "were");

    let output = v1.render_to_string(&values).unwrap();

    assert_eq!(output, "All mimsy were the borogoves.");

    let new_output = v1.upgrade_to(&v2, &values, &output).unwrap();

    assert_eq!(new_output, "All mimsy were my borogoves.");
}

#[test]
fn upgrade_output_with_an_editable() {
    let v1 = Template::from_str("All mimsy {{@ foo }}were{{@/}} the borogoves.").unwrap();
    let v2 = Template::from_str("All mimsy {{@ foo }}were{{@/}} my borogoves.").unwrap();

    let modified_output = "All mimsy bla bla bla the borogoves.";

    let new_output = v1.upgrade_to(&v2, &Values::new(), modified_output).unwrap();

    assert_eq!(new_output, "All mimsy bla bla bla my borogoves.");
}

#[test]
fn upgrade_complex_example() {
    let v1 = Template::from_str(
        r#"
import math
// User-defined imports go after this line.
{{@ imports }}{{@ / }}

def main():
{{@ code }}
    print("Hello, {{ name }}!")
{{@ / }}

// Foo
"#,
    )
    .unwrap();
    let v2 = Template::from_str(
        r#"
import math
from foo import bar

def main():
{{@ code }}
    print("Hello!")
{{@ / }}

// Foo

// User-defined imports go after this line.
{{@ imports }}{{@ / }}
"#,
    )
    .unwrap();

    let modified_output = r#"
import math
// User-defined imports go after this line.
import this
import that

def main():
    do_important_businessy_things()
    do_more_things()

// Foo
"#;

    let expected_output_after_upgrade = r#"
import math
from foo import bar

def main():
    do_important_businessy_things()
    do_more_things()

// Foo

// User-defined imports go after this line.
import this
import that
"#;

    assert_eq!(
        v1.upgrade_to(&v2, &Values::new(), modified_output).unwrap(),
        expected_output_after_upgrade
    );
}
