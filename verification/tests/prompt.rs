//! Tests for the `<available_skills>` block.

use skref::prompt::{to_prompt, SkillSource};

fn source(content: &str, location: &str) -> Result<SkillSource, skref::SkillError> {
    Ok(SkillSource {
        content: content.to_string(),
        location: location.to_string(),
    })
}

#[test]
fn empty_list() {
    let result = to_prompt(Vec::new()).unwrap();
    assert_eq!(result, "<available_skills>\n</available_skills>");
}

#[test]
fn single_skill() {
    let result = to_prompt(vec![source(
        "---\nname: my-skill\ndescription: A test skill\n---\nBody\n",
        "/tmp/skills/my-skill/SKILL.md",
    )])
    .unwrap();
    assert!(result.contains("<available_skills>"));
    assert!(result.contains("</available_skills>"));
    assert!(result.contains("<name>\nmy-skill\n</name>"));
    assert!(result.contains("<description>\nA test skill\n</description>"));
    assert!(result.contains("<location>"));
    assert!(result.contains("SKILL.md"));
}

#[test]
fn multiple_skills() {
    let result = to_prompt(vec![
        source(
            "---\nname: skill-a\ndescription: First skill\n---\nBody\n",
            "/tmp/skills/skill-a/SKILL.md",
        ),
        source(
            "---\nname: skill-b\ndescription: Second skill\n---\nBody\n",
            "/tmp/skills/skill-b/SKILL.md",
        ),
    ])
    .unwrap();
    assert_eq!(result.matches("<skill>").count(), 2);
    assert_eq!(result.matches("</skill>").count(), 2);
    assert!(result.contains("skill-a"));
    assert!(result.contains("skill-b"));
}

#[test]
fn special_characters_escaped() {
    let result = to_prompt(vec![source(
        "---\nname: special-skill\ndescription: Use <foo> & <bar> tags\n---\nBody\n",
        "/tmp/skills/special-skill/SKILL.md",
    )])
    .unwrap();
    assert!(result.contains("&lt;foo&gt;"));
    assert!(result.contains("&amp;"));
    assert!(result.contains("&lt;bar&gt;"));
    assert!(!result.contains("<foo>"));
    assert!(!result.contains("<bar>"));
}
