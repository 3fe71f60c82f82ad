use auto_gen_summary::{AutoGenConfig, ConfigError, ConfigTable, ConfigValue, DirectoryWithoutIndexBehavior};

fn table(entries: Vec<(&str, ConfigValue)>) -> ConfigTable {
    ConfigTable { entries: entries.into_iter().map(|(k, v)| (k.to_string(), v)).collect() }
}

#[test]
fn policy_names() {
    assert_eq!(DirectoryWithoutIndexBehavior::from_str("ignore"), Some(DirectoryWithoutIndexBehavior::Ignore));
    assert_eq!(DirectoryWithoutIndexBehavior::from_str("draft"), Some(DirectoryWithoutIndexBehavior::Draft));
    assert_eq!(
        DirectoryWithoutIndexBehavior::from_str("generate-stub-index"),
        Some(DirectoryWithoutIndexBehavior::GenerateStubIndex)
    );
    assert_eq!(DirectoryWithoutIndexBehavior::from_str("Draft"), None);
    assert_eq!(DirectoryWithoutIndexBehavior::from_str(""), None);
}

#[test]
fn defaults() {
    let c = AutoGenConfig::new();
    assert!(!c.first_line_as_link_text);
    assert!(!c.index_first_line_as_directory_link_text);
    assert_eq!(c.directory_without_index_behavior, DirectoryWithoutIndexBehavior::Ignore);
    assert_eq!(c.directory_index_names, vec!["README.md".to_string()]);
    assert_eq!(c.generated_directory_index_name, "README.md");
}

#[test]
fn options_are_taken() {
    let mut c = AutoGenConfig::new();
    let t = table(vec![
        ("first-line-as-link-text", ConfigValue::Bool(true)),
        ("index-first-line-as-directory-link-text", ConfigValue::Str("yes".to_string())),
        ("directory-without-index-behavior", ConfigValue::Str("draft".to_string())),
        (
            "directory-index-names",
            ConfigValue::Array(vec![
                ConfigValue::Str("index.md".to_string()),
                ConfigValue::Str("README.md".to_string()),
            ]),
        ),
    ]);
    assert_eq!(c.apply_config(Some(&t)), Ok(()));
    assert!(c.first_line_as_link_text);
    assert!(!c.index_first_line_as_directory_link_text);
    assert_eq!(c.directory_without_index_behavior, DirectoryWithoutIndexBehavior::Draft);
    assert_eq!(c.directory_index_names, vec!["index.md".to_string(), "README.md".to_string()]);
    assert_eq!(c.generated_directory_index_name, "index.md");
}

#[test]
fn no_table_changes_nothing() {
    let mut c = AutoGenConfig::new();
    assert_eq!(c.apply_config(None), Ok(()));
    assert_eq!(c.directory_index_names, vec!["README.md".to_string()]);
}

#[test]
fn option_faults() {
    let mut c = AutoGenConfig::new();
    let t = table(vec![("directory-without-index-behavior", ConfigValue::Bool(true))]);
    assert_eq!(c.apply_config(Some(&t)), Err(ConfigError::BehaviorNotString));

    let t = table(vec![("directory-without-index-behavior", ConfigValue::Str("skip".to_string()))]);
    assert_eq!(c.apply_config(Some(&t)), Err(ConfigError::UnknownBehavior));

    let t = table(vec![("directory-index-names", ConfigValue::Str("README.md".to_string()))]);
    assert_eq!(c.apply_config(Some(&t)), Err(ConfigError::IndexNamesNotArray));

    let t = table(vec![(
        "directory-index-names",
        ConfigValue::Array(vec![ConfigValue::Str("a.md".to_string()), ConfigValue::Other]),
    )]);
    assert_eq!(c.apply_config(Some(&t)), Err(ConfigError::IndexNameNotString));

    let t = table(vec![("directory-index-names", ConfigValue::Array(vec![]))]);
    assert_eq!(c.apply_config(Some(&t)), Err(ConfigError::IndexNamesEmpty));
    assert_eq!(c.directory_index_names, vec!["README.md".to_string()]);
    assert_eq!(
        ConfigError::IndexNamesEmpty.message(),
        "Config key directory-index-names must not be empty."
    );
    assert_eq!(
        ConfigError::BehaviorNotString.message(),
        "Config key 'directory-without-index-behavior' must be a string"
    );
}

#[test]
fn flags_applied_before_a_fault() {
    let mut c = AutoGenConfig::new();
    let t = table(vec![
        ("first-line-as-link-text", ConfigValue::Bool(true)),
        ("directory-without-index-behavior", ConfigValue::Str("nope".to_string())),
    ]);
    assert_eq!(c.apply_config(Some(&t)), Err(ConfigError::UnknownBehavior));
    assert!(c.first_line_as_link_text);
    assert_eq!(c.directory_without_index_behavior, DirectoryWithoutIndexBehavior::Ignore);
}

#[test]
fn empty_index_names_refused() {
    let mut c = AutoGenConfig::new();
    assert_eq!(c.set_index_names(vec![]), Err(ConfigError::IndexNamesEmpty));
    assert_eq!(c.generated_directory_index_name, "README.md");
}
