//! Tests over the bundled skill samples: each sample is its `SKILL.md`
//! text, the name of its directory and the location of the file.
//!
//! * sample skills: base-spec-valid, with readable properties, rendering
//!   into a prompt block.
//! * extended skills: valid only with `allow_claude_fields = true`; rejected
//!   under the base spec.

use skref::prompt::{to_prompt, SkillSource};
use skref::{read_properties_from_content, validate_content, Options, CLAUDE_FIELDS};

const GIT_COMMIT_HELPER: &str = "---\nname: git-commit-helper\ndescription: Write clear, conventional git commit messages and stage related changes together. Use when the user asks to commit, wants help phrasing a commit message, or mentions conventional commits.\nallowed-tools: Bash(git:*) Bash(jq:*)\nmetadata:\n  author: skref-examples\n  category: developer-tools\n---\n\n# Git Commit Helper\n\nHelps craft well-structured commits.\n\n## Workflow\n\n1. Run `git status` and `git diff --staged` to understand what is changing.\n2. Group related changes into a single logical commit.\n3. Write a message in the Conventional Commits style:\n\n   ```\n   <type>(<scope>): <summary>\n\n   <body explaining what and why>\n   ```\n\n   Common types: `feat`, `fix`, `docs`, `refactor`, `test`, `chore`.\n4. Keep the summary under 72 characters and in the imperative mood.\n";

const EVERY_EXTENSION: &str = "---\nname: every-extension\ndescription: A reference skill that exercises every supported frontmatter field \u{2014} the six base Agent Skills fields plus all thirteen coding-agent extensions. Use when testing skref's `allow_claude_fields` support or as a worked example of the full extended frontmatter surface.\nlicense: Apache-2.0\ncompatibility: Requires the coding agent 2.x\nallowed-tools: Read Grep Bash(git:*)\nmetadata:\n  author: skref-examples\n  version: \"1.0\"\nwhen_to_use: When you need a fixture listing every coding-agent frontmatter field at once.\nargument-hint: \"[issue-number] [format]\"\narguments: issue format\ndisable-model-invocation: true\nuser-invocable: true\ndisallowed-tools:\n  - Bash(rm:*)\n  - WebFetch\nmodel: inherit\neffort: high\ncontext: fork\nagent: general-purpose\nhooks:\n  PreToolUse: echo pre\n  PostToolUse: echo post\npaths:\n  - \"src/**/*.rs\"\n  - \"docs/**/*.md\"\nshell: bash\n---\n\n# Every Extension\n\nA test fixture whose frontmatter uses every frontmatter field skref supports: the six\nbase Agent Skills fields and all thirteen coding-agent extensions.\n\nIt validates only when `allow_claude_fields` is set, and is rejected under the base\nAgent Skills spec.\n";

const PR_CHECKER: &str = "---\nname: pr-checker\ndescription: Check a pull request for correctness and style, then summarize the findings. Use when the user asks for a PR check, mentions checking a diff, or wants feedback on changes before merging.\nallowed-tools: Bash(git:*) Read Grep\nwhen_to_use: When the user asks to check a PR or a diff and wants a concise findings summary.\nargument-hint: \"[pr-number]\"\nmodel: inherit\ndisable-model-invocation: true\n---\n\n# PR Checker\n\nA skill that checks a pull request and reports correctness and style findings.\n\n## Workflow\n\n1. Read the diff with `git diff` and the surrounding context.\n2. Flag correctness bugs first, then style and clarity nits.\n3. Summarize findings grouped by severity.\n\nIt mixes base-spec fields with coding-agent fields, so it validates only when\n`allow_claude_fields` is set.\n";

/// The sample skills that are valid under the base spec: (directory, text).
fn sample_skills() -> Vec<(&'static str, &'static str)> {
    vec![("git-commit-helper", GIT_COMMIT_HELPER)]
}

/// The skills that are valid only with the extended fields allowed.
fn claude_skills() -> Vec<(&'static str, &'static str)> {
    vec![
        ("every-extension", EVERY_EXTENSION),
        ("pr-checker", PR_CHECKER),
    ]
}

fn opts(allow_claude_fields: bool) -> Options {
    Options { allow_claude_fields }
}

#[test]
fn valid_samples_validate_cleanly() {
    let dirs = sample_skills();
    assert!(!dirs.is_empty(), "expected at least one valid sample skill");

    for (dir, content) in dirs {
        let errors = validate_content(content, dir, opts(false));
        assert!(
            errors.is_empty(),
            "expected {} to be valid, got: {errors:?}",
            dir
        );

        // Properties should be readable and well-formed.
        let props =
            read_properties_from_content(content, opts(false)).expect("read_properties succeeds");
        assert!(!props.name.is_empty());
        assert!(!props.description.is_empty());
    }
}

#[test]
fn valid_samples_render_to_prompt() {
    let dirs = sample_skills();
    let sources: Vec<Result<SkillSource, skref::SkillError>> = dirs
        .iter()
        .map(|(dir, content)| {
            Ok(SkillSource {
                content: content.to_string(),
                location: format!("/samples/{dir}/SKILL.md"),
            })
        })
        .collect();
    let prompt = to_prompt(sources).expect("to_prompt succeeds");
    assert!(prompt.starts_with("<available_skills>"));
    assert!(prompt.trim_end().ends_with("</available_skills>"));
    assert_eq!(prompt.matches("<skill>").count(), dirs.len());
    for (_dir, content) in &dirs {
        let props = read_properties_from_content(content, opts(false)).unwrap();
        // Names are simple kebab/i18n strings with no XML-special characters.
        assert!(
            prompt.contains(&props.name),
            "prompt should mention {}",
            props.name
        );
    }
}

#[test]
fn claude_samples_validate_only_with_flag() {
    let dirs = claude_skills();
    assert!(
        !dirs.is_empty(),
        "expected at least one extended sample skill"
    );

    for (dir, content) in dirs {
        // Valid once extended fields are allowed...
        assert!(
            validate_content(content, dir, opts(true)).is_empty(),
            "expected {} to be valid with the extended-fields option, got: {:?}",
            dir,
            validate_content(content, dir, opts(true))
        );
        // ...and rejected under the base spec.
        assert!(
            !validate_content(content, dir, opts(false)).is_empty(),
            "expected {} to be rejected by the base spec",
            dir
        );
        // The extended fields are captured into properties.
        let props =
            read_properties_from_content(content, opts(true)).expect("read_properties succeeds");
        assert!(
            !props.claude.is_empty(),
            "expected {} to capture extended fields",
            dir
        );
    }
}

#[test]
fn claude_everything_skill_uses_every_field() {
    let props = read_properties_from_content(EVERY_EXTENSION, opts(true)).unwrap();

    // Every extension-specific field is present.
    let keys: Vec<&str> = props.claude.iter().map(|(k, _)| k.as_str()).collect();
    for field in CLAUDE_FIELDS {
        assert!(
            keys.contains(&field),
            "every-extension is missing extended field `{field}`"
        );
    }

    // The optional base-spec fields are populated too.
    assert!(props.license.is_some());
    assert!(props.allowed_tools.is_some());
    assert!(props.compatibility.is_some());
    assert!(!props.metadata.is_empty());
}
