use rendr::blueprint::{
    BlueprintAuth, BlueprintMetadata, RendrConfig, Script, ScriptError, UpgradeSpec, ValueSpec,
    Values,
};

fn sample_metadata() -> BlueprintMetadata {
    BlueprintMetadata {
        name: "example-blueprint".to_string(),
        version: 2,
        author: "someone".to_string(),
        description: "a blueprint".to_string(),
        editable_templates: false,
        values: vec![
            ValueSpec {
                name: "name".to_string(),
                description: "The app name".to_string(),
                default: None,
                required: true,
            },
            ValueSpec {
                name: "magic_number".to_string(),
                description: "The magic number".to_string(),
                default: Some("42".to_string()),
                required: false,
            },
        ],
        exclusions: vec!["*.tmp".to_string(), "assets/**".to_string()],
        git_init: false,
        upgrades: vec![
            UpgradeSpec {
                version: 1,
                script: "one.sh".to_string(),
                executable: "sh".to_string(),
            },
            UpgradeSpec {
                version: 2,
                script: "two.sh".to_string(),
                executable: "sh".to_string(),
            },
        ],
    }
}

#[test]
fn default_values_lists_only_declared_defaults() {
    let meta = sample_metadata();

    let defaults = meta.default_values();
    assert_eq!(defaults, vec![("magic_number", "42")]);
}

#[test]
fn required_values_lists_only_required_specs() {
    let meta = sample_metadata();

    let required = meta.required_values();
    assert_eq!(required.len(), 1);
    assert_eq!(required[0].name, "name");
}

#[test]
fn upgrade_scripts_are_selected_by_version() {
    let meta = sample_metadata();

    let scripts = meta.get_upgrade_scripts();
    assert_eq!(scripts.len(), 1);
    assert_eq!(scripts[0].script, "two.sh");
}

#[test]
fn exclusions_match_as_glob_patterns() {
    let meta = sample_metadata();

    assert!(meta.is_excluded("scratch.tmp"));
    assert!(meta.is_excluded("assets/logo.png"));
    assert!(!meta.is_excluded("src/main.rs"));
}

#[test]
fn value_specs_compare_by_name() {
    let a = ValueSpec {
        name: "x".to_string(),
        description: "one".to_string(),
        default: None,
        required: false,
    };
    let b = ValueSpec {
        name: "x".to_string(),
        description: "two".to_string(),
        default: Some("d".to_string()),
        required: true,
    };
    let c = ValueSpec {
        name: "y".to_string(),
        description: "one".to_string(),
        default: None,
        required: false,
    };

    assert!(a == b);
    assert!(a != c);
}

#[test]
fn rendr_config_records_the_generation() {
    let meta = sample_metadata();
    let mut values = Values::new();
    values.insert("name", "demo");

    let config = RendrConfig::new("../blueprint".to_string(), &meta, values);
    assert_eq!(config.name, "example-blueprint");
    assert_eq!(config.version, 2);
    assert_eq!(config.source, "../blueprint");
    assert_eq!(config.values().get("name").unwrap(), "demo");
}

#[test]
fn auth_and_scripts_hold_their_fields() {
    let auth = BlueprintAuth::new(Some("user".to_string()), None, None);
    assert_eq!(auth.user.as_deref(), Some("user"));
    assert!(auth.password.is_none());

    let script = Script::new("post-render.sh", "/tmp/post-render.sh".to_string());
    assert_eq!(script.name, "post-render.sh");
    assert!(script.executable.is_none());

    let err = ScriptError::new(Some(3), "boom".to_string());
    assert_eq!(err.status, Some(3));
    assert_eq!(err.msg, "boom");
}

#[test]
fn metadata_reports_git_init() {
    let meta = sample_metadata();
    assert!(!meta.is_git_init_enabled());
}
