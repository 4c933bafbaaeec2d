//! Frontmatter field names.

use vstd::prelude::*;
use crate::order::texts;
use crate::text::owned;

verus! {

/// Allowed frontmatter fields per the Agent Skills spec.
pub const ALLOWED_FIELDS: [&'static str; 6] = [
    "name",
    "description",
    "license",
    "allowed-tools",
    "metadata",
    "compatibility",
];

/// The extended frontmatter fields of coding agents, accepted on top of
/// [`ALLOWED_FIELDS`] when `allow_claude_fields` is set.
pub const CLAUDE_FIELDS: [&'static str; 13] = [
    "when_to_use",
    "argument-hint",
    "arguments",
    "disable-model-invocation",
    "user-invocable",
    "disallowed-tools",
    "model",
    "effort",
    "context",
    "agent",
    "hooks",
    "paths",
    "shell",
];

/// The base-spec field names.
pub open spec fn base_fields() -> Seq<Seq<char>> {
    seq!["name"@, "description"@, "license"@, "allowed-tools"@, "metadata"@, "compatibility"@]
}

/// The extended field names.
pub open spec fn claude_fields() -> Seq<Seq<char>> {
    seq![
        "when_to_use"@,
        "argument-hint"@,
        "arguments"@,
        "disable-model-invocation"@,
        "user-invocable"@,
        "disallowed-tools"@,
        "model"@,
        "effort"@,
        "context"@,
        "agent"@,
        "hooks"@,
        "paths"@,
        "shell"@,
    ]
}

/// The field names accepted under the given option.
pub open spec fn accepted_fields(allow_claude_fields: bool) -> Seq<Seq<char>> {
    if allow_claude_fields {
        base_fields() + claude_fields()
    } else {
        base_fields()
    }
}

/// The accepted field names, in their listed order.
pub fn accepted_field_list(allow_claude_fields: bool) -> (r: Vec<String>)
    ensures
        texts(r@) == accepted_fields(allow_claude_fields),
{
    let mut out: Vec<String> = Vec::new();
    let mut i: usize = 0;
    assert(ALLOWED_FIELDS@.map_values(|s: &str| s@) =~= base_fields());
    assert(CLAUDE_FIELDS@.map_values(|s: &str| s@) =~= claude_fields());
    while i < 6
        invariant
            i <= 6,
            texts(out@) == base_fields().take(i as int),
            out@.len() == i,
            base_fields().len() == 6,
            CLAUDE_FIELDS@.map_values(|s: &str| s@) == claude_fields(),
            ALLOWED_FIELDS@.map_values(|s: &str| s@) == base_fields(),
        decreases 6 - i,
    {
        let f = ALLOWED_FIELDS[i];
        assert(f == ALLOWED_FIELDS@[i as int]);
        assert(f@ == base_fields()[i as int]);
        out.push(owned(f));
        assert(texts(out@) =~= base_fields().take(i + 1));
        i = i + 1;
    }
    assert(base_fields().take(6) =~= base_fields());
    if allow_claude_fields {
        let mut j: usize = 0;
        while j < 13
            invariant
                j <= 13,
                texts(out@) == base_fields() + claude_fields().take(j as int),
                out@.len() == 6 + j,
                claude_fields().len() == 13,
                base_fields().len() == 6,
                CLAUDE_FIELDS@.map_values(|s: &str| s@) == claude_fields(),
            decreases 13 - j,
        {
            let f = CLAUDE_FIELDS[j];
            assert(f@ == claude_fields()[j as int]);
            let ghost before = out@;
            out.push(owned(f));
            assert(texts(out@) =~= texts(before).push(f@));
            assert(base_fields() + claude_fields().take(j + 1) =~= (base_fields()
                + claude_fields().take(j as int)).push(claude_fields()[j as int]));
            j = j + 1;
        }
        assert(claude_fields().take(13) =~= claude_fields());
    }
    out
}

} // verus!
