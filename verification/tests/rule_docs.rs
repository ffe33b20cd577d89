use doc_printer::rule_docs::{how_to_use, rule_source_url};

#[test]
fn source_of_a_rule_file() {
    assert_eq!(
        rule_source_url("promise", "always-return", "main", false),
        "https://github.com/oxc-project/oxc/blob/main/crates/oxc_linter/src/rules/promise/always_return.rs"
    );
}

#[test]
fn source_of_a_rule_directory() {
    assert_eq!(
        rule_source_url("eslint", "no-unused-vars", "abc123", true),
        "https://github.com/oxc-project/oxc/blob/abc123/crates/oxc_linter/src/rules/eslint/no_unused_vars/mod.rs"
    );
}

#[test]
fn every_hyphen_of_the_name_becomes_an_underscore() {
    assert_eq!(
        rule_source_url("p", "-a--b-", "", false),
        "https://github.com/oxc-project/oxc/blob//crates/oxc_linter/src/rules/p/_a__b_.rs"
    );
    assert_eq!(
        rule_source_url("jsx-a11y", "", "v1", true),
        "https://github.com/oxc-project/oxc/blob/v1/crates/oxc_linter/src/rules/jsx-a11y//mod.rs"
    );
}

#[test]
fn rule_of_a_default_plugin_is_enabled_by_its_name_alone() {
    let expected = r#"
To **enable** this rule in the CLI or using the config file, you can use:

::: code-group

```bash [CLI]
oxlint --deny unicorn/no-null
```

```json [Config (.oxlintrc.json)]
{
    "rules": {
        "unicorn/no-null": "error"
    }
}
```

:::
"#;
    assert_eq!(how_to_use("no-null", "unicorn", true), expected);
}

#[test]
fn rule_of_another_plugin_enables_its_plugin() {
    let expected = r#"
To **enable** this rule in the CLI or using the config file, you can use:

::: code-group

```bash [CLI]
oxlint --deny promise/always-return --promise-plugin
```

```json [Config (.oxlintrc.json)]
{
    "plugins": ["promise"],
    "rules": {
        "promise/always-return": "error"
    }
}
```

:::
"#;
    assert_eq!(how_to_use("always-return", "promise", false), expected);
}

#[test]
fn rule_without_a_plugin_name_stands_alone() {
    let text = how_to_use("no-debugger", "", true);
    assert!(text.contains("oxlint --deny no-debugger\n"));
    assert!(text.contains("        \"no-debugger\": \"error\"\n"));
    let text = how_to_use("no-debugger", "", false);
    assert!(text.contains("oxlint --deny no-debugger ---plugin\n"));
    assert!(text.contains("    \"plugins\": [\"\"],\n"));
}
