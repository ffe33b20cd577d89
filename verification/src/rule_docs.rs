//! The texts of the documentation page of a lint rule that are computed
//! from its name and its plugin.

use vstd::prelude::*;
use vstd::string::StringExecFns;
use crate::render::push_char;

verus! {

broadcast use vstd::string::group_string_axioms;

/// `name` with `_` in the place of each `-`.
pub open spec fn underscored(name: Seq<char>) -> Seq<char> {
    Seq::new(
        name.len(),
        |i: int|
            if name[i] == '-' {
                '_'
            } else {
                name[i]
            },
    )
}

/// The address of the source of a rule: the address of the repository at
/// `git_ref`, the directory of the rules, the plugin, and the file of the
/// rule, which is named after the rule with `_` for `-`. A rule that is a
/// directory has its source in `mod.rs` there.
pub open spec fn source_url(
    plugin: Seq<char>,
    rule_name: Seq<char>,
    git_ref: Seq<char>,
    is_dir: bool,
) -> Seq<char> {
    "https://github.com/oxc-project/oxc/blob/"@ + git_ref + "/crates/oxc_linter/src/rules/"@
        + plugin + "/"@ + underscored(rule_name) + if is_dir {
        "/mod.rs"@
    } else {
        ".rs"@
    }
}

/// The address of the source of the rule `rule_name` of `plugin`, at
/// `git_ref`. `is_dir` says whether the rule is a directory.
pub fn rule_source_url(plugin: &str, rule_name: &str, git_ref: &str, is_dir: bool) -> (url: String)
    ensures
        url@ == source_url(plugin@, rule_name@, git_ref@, is_dir),
{
    let mut url = String::from_str("https://github.com/oxc-project/oxc/blob/");
    url.append(git_ref);
    url.append("/crates/oxc_linter/src/rules/");
    url.append(plugin);
    url.append("/");
    let ghost head = url@;
    assert(url@ =~= head + underscored(rule_name@.take(0)));
    for c in it: rule_name.chars()
        invariant
            it.seq() == rule_name@,
            url@ == head + underscored(rule_name@.take(it.index() as int)),
    {
        let written = if c == '-' {
            '_'
        } else {
            c
        };
        push_char(&mut url, written);
        assert(url@ =~= head + underscored(rule_name@.take(it.index() + 1)));
    }
    assert(rule_name@.take(rule_name@.len() as int) =~= rule_name@);
    if is_dir {
        url.append("/mod.rs");
    } else {
        url.append(".rs");
    }
    url
}

/// The name under which a rule is enabled: the name of the rule, behind
/// that of its plugin and a `/` if the plugin has a name.
pub open spec fn full_name(rule_name: Seq<char>, normalized_plugin: Seq<char>) -> Seq<char> {
    if normalized_plugin.len() == 0 {
        rule_name
    } else {
        normalized_plugin + "/"@ + rule_name
    }
}

/// The command that enables a rule: for a rule of a plugin that is not on
/// by default, the plugin is enabled as well.
pub open spec fn bash_example(
    rule_name: Seq<char>,
    normalized_plugin: Seq<char>,
    is_default: bool,
) -> Seq<char> {
    if is_default {
        "oxlint --deny "@ + full_name(rule_name, normalized_plugin)
    } else {
        "oxlint --deny "@ + full_name(rule_name, normalized_plugin) + " --"@ + normalized_plugin
            + "-plugin"@
    }
}

/// The configuration that enables a rule: for a rule of a plugin that is
/// not on by default, the plugin is listed as well.
pub open spec fn config_example(
    rule_name: Seq<char>,
    normalized_plugin: Seq<char>,
    is_default: bool,
) -> Seq<char> {
    if is_default {
        "{\n    \"rules\": {\n        \""@ + full_name(rule_name, normalized_plugin)
            + "\": \"error\"\n    }\n}"@
    } else {
        "{\n    \"plugins\": [\""@ + normalized_plugin + "\"],\n    \"rules\": {\n        \""@
            + full_name(rule_name, normalized_plugin) + "\": \"error\"\n    }\n}"@
    }
}

/// The section of a rule's page that says how the rule is enabled: on the
/// command line, and in the configuration file.
pub open spec fn usage(rule_name: Seq<char>, normalized_plugin: Seq<char>, is_default: bool) -> Seq<
    char,
> {
    "\nTo **enable** this rule in the CLI or using the config file, you can use:\n\n::: code-group\n\n```bash [CLI]\n"@
        + bash_example(rule_name, normalized_plugin, is_default)
        + "\n```\n\n```json [Config (.oxlintrc.json)]\n"@ + config_example(
        rule_name,
        normalized_plugin,
        is_default,
    ) + "\n```\n\n:::\n"@
}

fn rule_full_name(rule_name: &str, normalized_plugin: &str) -> (name: String)
    ensures
        name@ == full_name(rule_name@, normalized_plugin@),
{
    if normalized_plugin.unicode_len() == 0 {
        String::from_str(rule_name)
    } else {
        let mut name = String::from_str(normalized_plugin);
        name.append("/");
        name.append(rule_name);
        name
    }
}

/// The section of a rule's page that says how the rule is enabled.
/// `normalized_plugin` is the name of the rule's plugin as it is written on
/// the command line, `is_default` says whether that plugin is on by
/// default.
pub fn how_to_use(rule_name: &str, normalized_plugin: &str, is_default: bool) -> (text: String)
    ensures
        text@ == usage(rule_name@, normalized_plugin@, is_default),
{
    let name = rule_full_name(rule_name, normalized_plugin);
    let mut text = String::from_str(
        "\nTo **enable** this rule in the CLI or using the config file, you can use:\n\n::: code-group\n\n```bash [CLI]\n",
    );
    let ghost head = text@;
    text.append("oxlint --deny ");
    text.append(name.as_str());
    if !is_default {
        text.append(" --");
        text.append(normalized_plugin);
        text.append("-plugin");
    }
    assert(text@ =~= head + bash_example(rule_name@, normalized_plugin@, is_default));
    text.append("\n```\n\n```json [Config (.oxlintrc.json)]\n");
    let ghost middle = text@;
    if is_default {
        text.append("{\n    \"rules\": {\n        \"");
    } else {
        text.append("{\n    \"plugins\": [\"");
        text.append(normalized_plugin);
        text.append("\"],\n    \"rules\": {\n        \"");
    }
    text.append(name.as_str());
    text.append("\": \"error\"\n    }\n}");
    assert(text@ =~= middle + config_example(rule_name@, normalized_plugin@, is_default));
    text.append("\n```\n\n:::\n");
    assert(text@ =~= usage(rule_name@, normalized_plugin@, is_default));
    text
}

} // verus!
