//! Further tests: exact messages, YAML scalar forms, ordering, escaping,
//! the JSON form and the laws on concrete values.

use skref::errors::SkillError;
use skref::parser::{is_skill_md_file, parse_frontmatter, read_properties_from_content};
use skref::prompt::{html_escape, to_prompt, SkillSource};
use skref::text::{file_name, i64_to_decimal, trim, u64_to_decimal};
use skref::validator::{validate_content, validate_metadata, validate_metadata_with_options};
use skref::yaml::parse_mapping;
use skref::Options;

fn base() -> Options {
    Options::default()
}

fn extended() -> Options {
    Options {
        allow_claude_fields: true,
    }
}

#[test]
fn scalars_take_their_string_forms() {
    let props = read_properties_from_content(
        "---\nname: s\ndescription: d\nmetadata:\n  a: null\n  b: true\n  c: false\n  d: -5\n  e: 18446744073709551615\n  f: 2.5\n  g: ~\n  h: 1.0\n  i: 0\n---\n",
        base(),
    )
    .unwrap();
    let got: Vec<(&str, &str)> = props
        .metadata
        .iter()
        .map(|(k, v)| (k.as_str(), v.as_str()))
        .collect();
    assert_eq!(
        got,
        vec![
            ("a", "None"),
            ("b", "True"),
            ("c", "False"),
            ("d", "-5"),
            ("e", "18446744073709551615"),
            ("f", "2.5"),
            ("g", "None"),
            ("h", "1.0"),
            ("i", "0"),
        ]
    );
}

#[test]
fn containers_flatten_with_quotes() {
    let props = read_properties_from_content(
        "---\nname: s\ndescription: d\nmetadata:\n  list: [1, two]\n  map:\n    x: y\n    z: [q]\n  tagged: !custom value\n---\n",
        base(),
    )
    .unwrap();
    assert_eq!(props.metadata[0], ("list".to_string(), "['1', 'two']".to_string()));
    assert_eq!(
        props.metadata[1],
        ("map".to_string(), "{'x': 'y', 'z': '['q']'}".to_string())
    );
    assert_eq!(props.metadata[2], ("tagged".to_string(), "".to_string()));
}

#[test]
fn non_scalar_key_is_flattened() {
    let fm = parse_mapping("? [a, b]\n: c\n").unwrap().unwrap();
    assert_eq!(fm.keys(), vec!["['a', 'b']".to_string()]);
    assert_eq!(fm.get("['a', 'b']").unwrap().as_str(), Some("c"));
}

#[test]
fn parse_mapping_outcomes() {
    assert!(parse_mapping("- a\n- b\n").unwrap().is_none());
    assert!(parse_mapping("plain text").unwrap().is_none());
    assert!(parse_mapping("a: [b\n").is_err());
    let fm = parse_mapping("b: 1\na: 2\n").unwrap().unwrap();
    assert_eq!(fm.keys(), vec!["a".to_string(), "b".to_string()]);
    assert!(fm.contains_key("a"));
    assert!(!fm.contains_key("c"));
}

#[test]
fn first_entry_wins_for_coinciding_keys() {
    let fm = parse_mapping("1: first\n'1': second\n").unwrap().unwrap();
    assert_eq!(fm.get("1").unwrap().as_str(), Some("first"));
    assert_eq!(fm.keys(), vec!["1".to_string()]);
}

#[test]
fn to_flat_string_of_parsed_values() {
    let fm = parse_mapping("k: [a, [b, c], {d: e}]\n").unwrap().unwrap();
    assert_eq!(
        fm.get("k").unwrap().to_flat_string(),
        "['a', '['b', 'c']', '{'d': 'e'}']"
    );
    assert_eq!(fm.get("k").unwrap().as_str(), None);
}

#[test]
fn body_is_trimmed_and_later_dashes_kept() {
    let (_fm, body) = parse_frontmatter("---\na: b\n---\n\n  text --- more  \n\n").unwrap();
    assert_eq!(body, "text --- more");
}

#[test]
fn four_dashes_do_not_close() {
    let err = parse_frontmatter("----").unwrap_err();
    assert_eq!(
        err.to_string(),
        "SKILL.md frontmatter not properly closed with ---"
    );
}

#[test]
fn parse_error_messages_are_exact() {
    assert_eq!(
        parse_frontmatter("x").unwrap_err().to_string(),
        "SKILL.md must start with YAML frontmatter (---)"
    );
    assert_eq!(
        parse_frontmatter("---\n- a\n---\n").unwrap_err().to_string(),
        "SKILL.md frontmatter must be a YAML mapping"
    );
    let err = parse_frontmatter("---\na: [b\n---\n").unwrap_err();
    assert!(matches!(err, SkillError::Parse(_)));
    assert!(err
        .to_string()
        .starts_with("Invalid YAML in frontmatter: "));
}

#[test]
fn name_messages_are_exact() {
    let long_name = "a".repeat(70);
    let content = format!("---\nname: {long_name}\ndescription: d\n---\n");
    let errors = validate_content(&content, &long_name, base());
    assert_eq!(
        errors,
        vec![format!(
            "Skill name '{long_name}' exceeds 64 character limit (70 chars)"
        )]
    );

    let errors = validate_content("---\nname: -Bad_\ndescription: d\n---\n", "other", base());
    assert_eq!(
        errors,
        vec![
            "Skill name '-Bad_' must be lowercase".to_string(),
            "Skill name cannot start or end with a hyphen".to_string(),
            "Skill name '-Bad_' contains invalid characters. Only letters, digits, and hyphens are allowed.".to_string(),
            "Directory name 'other' must match skill name '-Bad_'".to_string(),
        ]
    );
}

#[test]
fn name_is_trimmed_and_normalized() {
    // Full-width letters normalize (NFKC) to ASCII.
    let errors = validate_content("---\nname: '  ｓｋｉｌｌ  '\ndescription: d\n---\n", "skill", base());
    assert_eq!(errors, Vec::<String>::new());
}

#[test]
fn field_type_messages_are_exact() {
    let errors = validate_content(
        "---\nname: [a]\ndescription: '   '\ncompatibility: [x]\n---\n",
        "a",
        base(),
    );
    assert_eq!(
        errors,
        vec![
            "Field 'name' must be a non-empty string".to_string(),
            "Field 'description' must be a non-empty string".to_string(),
            "Field 'compatibility' must be a string".to_string(),
        ]
    );
}

#[test]
fn missing_fields_are_reported() {
    let errors = validate_content("---\nlicense: MIT\n---\n", "a", base());
    assert_eq!(
        errors,
        vec![
            "Missing required field in frontmatter: name".to_string(),
            "Missing required field in frontmatter: description".to_string(),
        ]
    );
}

#[test]
fn length_limits_are_exact() {
    let desc = "x".repeat(1025);
    let compat = "y".repeat(501);
    let content = format!("---\nname: a\ndescription: {desc}\ncompatibility: {compat}\n---\n");
    assert_eq!(
        validate_content(&content, "a", base()),
        vec![
            "Description exceeds 1024 character limit (1025 chars)".to_string(),
            "Compatibility exceeds 500 character limit (501 chars)".to_string(),
        ]
    );
    let desc = "x".repeat(1024);
    let compat = "y".repeat(500);
    let content = format!("---\nname: a\ndescription: {desc}\ncompatibility: {compat}\n---\n");
    assert_eq!(validate_content(&content, "a", base()), Vec::<String>::new());
}

#[test]
fn unexpected_fields_message_is_exact() {
    let content = "---\nzeta: 1\nname: a\nbogus: 2\ndescription: d\nzeta: 3\n---\n";
    let errors = validate_content(content, "a", base());
    assert_eq!(errors.len(), 1);
    // Duplicate keys make the YAML invalid.
    assert!(errors[0].starts_with("Invalid YAML in frontmatter: "));

    let content = "---\nzeta: 1\nname: a\nbogus: 2\ndescription: d\n---\n";
    assert_eq!(
        validate_content(content, "a", base()),
        vec!["Unexpected fields in frontmatter: bogus, zeta. Only ['allowed-tools', 'compatibility', 'description', 'license', 'metadata', 'name'] are allowed.".to_string()]
    );
    let extended_errors = validate_content(content, "a", extended());
    assert_eq!(extended_errors.len(), 1);
    assert!(extended_errors[0].starts_with("Unexpected fields in frontmatter: bogus, zeta. Only ['agent', 'allowed-tools', 'argument-hint', 'arguments', 'compatibility', 'context', 'description'"));
}

#[test]
fn validate_metadata_takes_an_optional_directory() {
    let (fm, _) = parse_frontmatter("---\nname: a\ndescription: d\n---\n").unwrap();
    assert_eq!(validate_metadata(&fm, None), Vec::<String>::new());
    assert_eq!(
        validate_metadata(&fm, Some("b")),
        vec!["Directory name 'b' must match skill name 'a'".to_string()]
    );
    assert_eq!(
        validate_metadata_with_options(&fm, Some("a"), extended()),
        Vec::<String>::new()
    );
}

#[test]
fn extended_fields_only_widen() {
    let content = "---\nname: a\ndescription: d\nlicense: MIT\n---\n";
    assert!(validate_content(content, "a", base()).is_empty());
    assert!(validate_content(content, "a", extended()).is_empty());
}

#[test]
fn valid_skill_reads() {
    let content = "---\nname: '  a  '\ndescription: \" d \"\n---\n";
    assert!(validate_content(content, "a", base()).is_empty());
    let props = read_properties_from_content(content, base()).unwrap();
    assert_eq!(props.name, "a");
    assert_eq!(props.description, "d");
}

#[test]
fn optional_fields_are_untrimmed_strings_only() {
    let props = read_properties_from_content(
        "---\nname: a\ndescription: d\nlicense: ' MIT '\ncompatibility: [x]\nmetadata: plain\n---\n",
        base(),
    )
    .unwrap();
    assert_eq!(props.license.as_deref(), Some(" MIT "));
    assert_eq!(props.compatibility, None);
    assert!(props.metadata.is_empty());
}

#[test]
fn read_error_kinds() {
    let err = read_properties_from_content("nope", base()).unwrap_err();
    assert!(matches!(err, SkillError::Parse(_)));
    let err = read_properties_from_content("---\nname: ''\ndescription: d\n---\n", base()).unwrap_err();
    assert!(matches!(err, SkillError::Validation { .. }));
    assert_eq!(err.to_string(), "Field 'name' must be a non-empty string");
    assert_eq!(err.errors(), vec!["Field 'name' must be a non-empty string".to_string()]);
    let err = read_properties_from_content("---\nname: a\ndescription: [x]\n---\n", base()).unwrap_err();
    assert_eq!(err.to_string(), "Field 'description' must be a non-empty string");
}

#[test]
fn extended_fields_are_captured_in_listed_order() {
    let props = read_properties_from_content(
        "---\nname: a\ndescription: d\nshell: bash\nmodel: inherit\n---\n",
        extended(),
    )
    .unwrap();
    let keys: Vec<&str> = props.claude.iter().map(|(k, _)| k.as_str()).collect();
    assert_eq!(keys, vec!["model", "shell"]);
    assert_eq!(props.claude[0].1.as_str(), Some("inherit"));
}

#[test]
fn to_json_is_pretty_and_ordered() {
    let props = read_properties_from_content(
        "---\nname: a\ndescription: d\nmetadata:\n  z: 1\n  b: 2\nallowed-tools: Bash\nlicense: MIT\n---\n",
        base(),
    )
    .unwrap();
    assert_eq!(
        props.to_json(),
        "{\n  \"name\": \"a\",\n  \"description\": \"d\",\n  \"license\": \"MIT\",\n  \"allowed-tools\": \"Bash\",\n  \"metadata\": {\n    \"z\": \"1\",\n    \"b\": \"2\"\n  }\n}"
    );
}

#[test]
fn to_dict_leaves_out_absent_values() {
    let props = read_properties_from_content("---\nname: a\ndescription: d\n---\n", base()).unwrap();
    let d = props.to_dict();
    let obj = d.as_object().unwrap();
    let keys: Vec<&str> = obj.keys().map(|k| k.as_str()).collect();
    assert_eq!(keys, vec!["name", "description"]);
}

#[test]
fn skill_error_constructors() {
    let e = SkillError::validation("m".to_string());
    assert_eq!(e.errors(), vec!["m".to_string()]);
    assert_eq!(e.to_string(), "m");
    let e = SkillError::validation_many(vec!["x".to_string(), "y".to_string()]);
    assert_eq!(e.to_string(), "x");
    assert_eq!(e.errors(), vec!["x".to_string(), "y".to_string()]);
    let e = SkillError::validation_many(Vec::new());
    assert_eq!(e.to_string(), "");
    assert!(e.errors().is_empty());
    let e = SkillError::parse("p".to_string());
    assert_eq!(e.errors(), vec!["p".to_string()]);
    assert_eq!(e.to_string(), "p");
}

#[test]
fn html_escape_is_exact() {
    assert_eq!(
        html_escape("<a href=\"x\">'&'</a>"),
        "&lt;a href=&quot;x&quot;&gt;&#x27;&amp;&#x27;&lt;/a&gt;"
    );
    assert_eq!(html_escape("plain"), "plain");
    assert_eq!(html_escape("&amp;"), "&amp;amp;");
}

#[test]
fn prompt_text_is_exact() {
    let result = to_prompt(vec![Ok(SkillSource {
        content: "---\nname: s\ndescription: a < b\n---\n".to_string(),
        location: "/x/s/SKILL.md".to_string(),
    })])
    .unwrap();
    assert_eq!(
        result,
        "<available_skills>\n<skill>\n<name>\ns\n</name>\n<description>\na &lt; b\n</description>\n<location>\n/x/s/SKILL.md\n</location>\n</skill>\n</available_skills>"
    );
}

#[test]
fn prompt_stops_at_first_failure() {
    let good = || {
        Ok(SkillSource {
            content: "---\nname: s\ndescription: d\n---\n".to_string(),
            location: "l".to_string(),
        })
    };
    let result = to_prompt(vec![
        good(),
        Err(SkillError::parse("SKILL.md not found in /nowhere".to_string())),
        Ok(SkillSource {
            content: "broken".to_string(),
            location: "l".to_string(),
        }),
    ]);
    assert_eq!(
        result.unwrap_err().to_string(),
        "SKILL.md not found in /nowhere"
    );
    let result = to_prompt(vec![
        good(),
        Ok(SkillSource {
            content: "---\nname: s\n---\n".to_string(),
            location: "l".to_string(),
        }),
    ]);
    let err = result.unwrap_err();
    assert!(matches!(err, SkillError::Validation { .. }));
    assert_eq!(
        err.to_string(),
        "Missing required field in frontmatter: description"
    );
}

#[test]
fn one_skill_element_per_skill() {
    let source = |name: &str, description: &str| {
        Ok(SkillSource {
            content: format!("---\nname: {name}\ndescription: {description}\n---\n"),
            location: format!("/skills/{name}/SKILL.md"),
        })
    };
    let result = to_prompt(vec![
        source("a", "uses <skill> tags"),
        source("b", "plain"),
        source("c", "x<s"),
    ])
    .unwrap();
    assert_eq!(result.matches("<skill>").count(), 3);
    assert_eq!(to_prompt(vec![]).unwrap().matches("<skill>").count(), 0);
}

#[test]
fn metadata_must_be_a_mapping() {
    let (fm, _) =
        parse_frontmatter("---\nname: my-skill\ndescription: d\nmetadata: just a string\n---\n")
            .unwrap();
    assert_eq!(
        validate_metadata(&fm, None),
        vec!["Field 'metadata' must be a mapping".to_string()]
    );
    assert_eq!(
        validate_content("---\nname: a\ndescription: d\nmetadata: [x, y]\n---\n", "a", base()),
        vec!["Field 'metadata' must be a mapping".to_string()]
    );
    assert_eq!(
        validate_content(
            "---\nname: a\ndescription: d\ncompatibility: [c]\nmetadata: 1\n---\n",
            "a",
            base()
        ),
        vec![
            "Field 'compatibility' must be a string".to_string(),
            "Field 'metadata' must be a mapping".to_string()
        ]
    );
    assert!(
        validate_content("---\nname: a\ndescription: d\nmetadata:\n  k: v\n---\n", "a", base())
            .is_empty()
    );
    let (fm, _) = parse_frontmatter("---\nmetadata: s\n---\n").unwrap();
    assert_eq!(
        validate_metadata(&fm, None),
        vec![
            "Missing required field in frontmatter: name".to_string(),
            "Missing required field in frontmatter: description".to_string(),
            "Field 'metadata' must be a mapping".to_string()
        ]
    );
}

#[test]
fn directory_is_compared_by_its_final_component() {
    let (fm, _) = parse_frontmatter("---\nname: a\ndescription: d\n---\n").unwrap();
    assert!(validate_metadata(&fm, Some("skills/a")).is_empty());
    assert!(validate_metadata(&fm, Some("/abs/skills/a/")).is_empty());
    assert!(validate_metadata(&fm, Some("skills/a/.")).is_empty());
    assert_eq!(
        validate_metadata(&fm, Some("a/b")),
        vec!["Directory name 'b' must match skill name 'a'".to_string()]
    );
    assert_eq!(
        validate_metadata(&fm, Some("a/..")),
        vec!["Directory name '' must match skill name 'a'".to_string()]
    );
    assert!(validate_content("---\nname: a\ndescription: d\n---\n", "x/y/a", base()).is_empty());
}

#[test]
fn file_name_is_the_final_component() {
    assert_eq!(file_name("a/b"), "b");
    assert_eq!(file_name("a/b/"), "b");
    assert_eq!(file_name("a/b//"), "b");
    assert_eq!(file_name("a/b/."), "b");
    assert_eq!(file_name("./a"), "a");
    assert_eq!(file_name("plain"), "plain");
    assert_eq!(file_name("a/.b"), ".b");
    assert_eq!(file_name("a/..."), "...");
    assert_eq!(file_name("a/.."), "");
    assert_eq!(file_name(".."), "");
    assert_eq!(file_name("."), "");
    assert_eq!(file_name("/"), "");
    assert_eq!(file_name(""), "");
}

#[test]
fn skill_md_file_detection() {
    assert!(is_skill_md_file(true, Some("SKILL.md")));
    assert!(is_skill_md_file(true, Some("Skill.MD")));
    assert!(!is_skill_md_file(false, Some("SKILL.md")));
    assert!(!is_skill_md_file(true, Some("README.md")));
    assert!(!is_skill_md_file(true, None));
}

#[test]
fn trim_and_decimal() {
    assert_eq!(trim("\u{3000} hi \t\n"), "hi");
    assert_eq!(trim("   "), "");
    assert_eq!(u64_to_decimal(0), "0");
    assert_eq!(u64_to_decimal(u64::MAX), "18446744073709551615");
    assert_eq!(i64_to_decimal(i64::MIN), "-9223372036854775808");
    assert_eq!(i64_to_decimal(-7), "-7");
}
