//! Reference library for Agent Skills: parsing, validating and rendering the
//! `SKILL.md` format, with the computation proved correct by Verus.
//!
//! * [`validate_content`] / [`validate_metadata`]: check a skill for
//!   correctness.
//! * [`read_properties_from_content`]: parse a skill's frontmatter into
//!   [`SkillProperties`].
//! * [`to_prompt`]: render the `<available_skills>` XML block for agent
//!   prompts.

pub mod constants;
pub mod errors;
pub mod models;
pub mod options;
pub mod order;
pub mod parser;
pub mod prompt;
pub mod text;
pub mod validator;
pub mod yaml;
pub mod yaml_source;

pub use constants::{ALLOWED_FIELDS, CLAUDE_FIELDS};
pub use errors::{Result, SkillError};
pub use models::SkillProperties;
pub use options::Options;
pub use parser::{
    find_skill_md, is_skill_md_file, parse_frontmatter, properties_from_frontmatter,
    read_properties_from_content,
};
pub use prompt::{html_escape, to_prompt, SkillSource};
pub use validator::{validate_content, validate_metadata, validate_metadata_with_options};
pub use yaml::{FmValue, Frontmatter};
