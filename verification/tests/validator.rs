//! Tests for skill validation: each skill is its `SKILL.md` text and the
//! name of the directory holding it.

use skref::validator::validate_content;
use skref::Options;

fn validate(dir_name: &str, content: &str) -> Vec<String> {
    validate_content(content, dir_name, Options::default())
}

fn validate_with_options(dir_name: &str, content: &str, opts: Options) -> Vec<String> {
    validate_content(content, dir_name, opts)
}

#[test]
fn valid_skill() {
    let errors = validate(
        "my-skill",
        "---\nname: my-skill\ndescription: A test skill\n---\n# My Skill\n",
    );
    assert_eq!(errors, Vec::<String>::new());
}

#[test]
fn invalid_name_uppercase() {
    let errors = validate(
        "MySkill",
        "---\nname: MySkill\ndescription: A test skill\n---\nBody\n",
    );
    assert!(errors.iter().any(|e| e.contains("lowercase")));
}

#[test]
fn name_too_long() {
    let long_name = "a".repeat(70);
    let body = format!("---\nname: {long_name}\ndescription: A test skill\n---\nBody\n");
    let errors = validate(&long_name, &body);
    assert!(
        errors
            .iter()
            .any(|e| e.contains("exceeds") && e.contains("character limit"))
    );
}

#[test]
fn name_leading_hyphen() {
    let errors = validate(
        "-my-skill",
        "---\nname: -my-skill\ndescription: A test skill\n---\nBody\n",
    );
    assert!(
        errors
            .iter()
            .any(|e| e.contains("cannot start or end with a hyphen"))
    );
}

#[test]
fn name_consecutive_hyphens() {
    let errors = validate(
        "my--skill",
        "---\nname: my--skill\ndescription: A test skill\n---\nBody\n",
    );
    assert!(errors.iter().any(|e| e.contains("consecutive hyphens")));
}

#[test]
fn name_invalid_characters() {
    let errors = validate(
        "my_skill",
        "---\nname: my_skill\ndescription: A test skill\n---\nBody\n",
    );
    assert!(errors.iter().any(|e| e.contains("invalid characters")));
}

#[test]
fn name_directory_mismatch() {
    let errors = validate(
        "wrong-name",
        "---\nname: correct-name\ndescription: A test skill\n---\nBody\n",
    );
    assert!(errors.iter().any(|e| e.contains("must match skill name")));
}

#[test]
fn unexpected_fields() {
    let errors = validate(
        "my-skill",
        "---\nname: my-skill\ndescription: A test skill\nunknown_field: should not be here\n---\nBody\n",
    );
    assert!(errors.iter().any(|e| e.contains("Unexpected fields")));
}

#[test]
fn claude_fields_rejected_by_default() {
    let errors = validate(
        "my-skill",
        "---\nname: my-skill\ndescription: A test skill\nmodel: inherit\ndisable-model-invocation: true\n---\nBody\n",
    );
    assert!(errors.iter().any(|e| e.contains("Unexpected fields")));
}

#[test]
fn claude_fields_accepted_with_option() {
    let opts = Options {
        allow_claude_fields: true,
    };
    assert_eq!(
        validate_with_options(
            "my-skill",
            "---\nname: my-skill\ndescription: A test skill\nmodel: inherit\ndisable-model-invocation: true\nwhen_to_use: when testing\n---\nBody\n",
            opts
        ),
        Vec::<String>::new()
    );
}

#[test]
fn unknown_field_still_rejected_with_option() {
    let opts = Options {
        allow_claude_fields: true,
    };
    let errors = validate_with_options(
        "my-skill",
        "---\nname: my-skill\ndescription: A test skill\nmodel: inherit\nbogus: nope\n---\nBody\n",
        opts,
    );
    assert!(
        errors
            .iter()
            .any(|e| e.contains("Unexpected fields") && e.contains("bogus")),
        "expected `bogus` to still be rejected, got: {errors:?}"
    );
}

#[test]
fn valid_with_all_fields() {
    let errors = validate(
        "my-skill",
        "---\nname: my-skill\ndescription: A test skill\nlicense: MIT\nmetadata:\n  author: Test\n---\nBody\n",
    );
    assert_eq!(errors, Vec::<String>::new());
}

#[test]
fn allowed_tools_accepted() {
    let errors = validate(
        "my-skill",
        "---\nname: my-skill\ndescription: A test skill\nallowed-tools: Bash(jq:*) Bash(git:*)\n---\nBody\n",
    );
    assert_eq!(errors, Vec::<String>::new());
}

#[test]
fn i18n_chinese_name() {
    let errors = validate(
        "技能",
        "---\nname: 技能\ndescription: A skill with Chinese name\n---\nBody\n",
    );
    assert_eq!(errors, Vec::<String>::new());
}

#[test]
fn i18n_russian_name_with_hyphens() {
    let errors = validate(
        "мой-навык",
        "---\nname: мой-навык\ndescription: A skill with Russian name\n---\nBody\n",
    );
    assert_eq!(errors, Vec::<String>::new());
}

#[test]
fn i18n_russian_lowercase_valid() {
    let errors = validate(
        "навык",
        "---\nname: навык\ndescription: A skill with Russian lowercase name\n---\nBody\n",
    );
    assert_eq!(errors, Vec::<String>::new());
}

#[test]
fn i18n_russian_uppercase_rejected() {
    let errors = validate(
        "НАВЫК",
        "---\nname: НАВЫК\ndescription: A skill with Russian uppercase name\n---\nBody\n",
    );
    assert!(errors.iter().any(|e| e.contains("lowercase")));
}

#[test]
fn description_too_long() {
    let long_desc = "x".repeat(1100);
    let body = format!("---\nname: my-skill\ndescription: {long_desc}\n---\nBody\n");
    let errors = validate("my-skill", &body);
    assert!(
        errors
            .iter()
            .any(|e| e.contains("exceeds") && e.contains("1024"))
    );
}

#[test]
fn valid_compatibility() {
    let errors = validate(
        "my-skill",
        "---\nname: my-skill\ndescription: A test skill\ncompatibility: Requires Python 3.11+\n---\nBody\n",
    );
    assert_eq!(errors, Vec::<String>::new());
}

#[test]
fn compatibility_too_long() {
    let long_compat = "x".repeat(550);
    let body = format!(
        "---\nname: my-skill\ndescription: A test skill\ncompatibility: {long_compat}\n---\nBody\n"
    );
    let errors = validate("my-skill", &body);
    assert!(
        errors
            .iter()
            .any(|e| e.contains("exceeds") && e.contains("500"))
    );
}

#[test]
fn nfkc_normalization() {
    // The directory uses the composed form 'café'; SKILL.md uses the
    // decomposed form 'cafe' + U+0301. They must match after NFKC
    // normalization.
    let decomposed_name = "cafe\u{0301}";
    let composed_name = "café";
    let body = format!("---\nname: {decomposed_name}\ndescription: A test skill\n---\nBody\n");
    let errors = validate(composed_name, &body);
    assert_eq!(
        errors,
        Vec::<String>::new(),
        "Expected no errors, got: {errors:?}"
    );
}
