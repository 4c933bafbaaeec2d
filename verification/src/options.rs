use vstd::prelude::*;

verus! {

/// Behavior toggles for validation and property reading.
///
/// The default (all-`false`) keeps to the base Agent Skills specification.
#[derive(Debug, Clone, Copy, Default, PartialEq, Eq)]
pub struct Options {
    /// Accept the extended frontmatter fields ([`crate::CLAUDE_FIELDS`]) during validation and
    /// surface them when reading properties.
    pub allow_claude_fields: bool,
}

} // verus!
