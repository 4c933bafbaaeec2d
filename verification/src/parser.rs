//! YAML frontmatter parsing for `SKILL.md` files.

use vstd::prelude::*;
use crate::errors::{Result, SkillError};
use crate::text::{law_trim_removes_white_space_at_ends, lemma_trim_idempotent, owned, trim, trim_spec, unicode_white_space};
use crate::constants::claude_fields;
use crate::models::{PropertiesView, SkillProperties};
use crate::options::Options;
use crate::yaml::{flat_text, lookup, FmValue, FmView, Frontmatter};
use crate::yaml_source::{convert_spec, parse_mapping, yaml_document};

verus! {

/// Which `SKILL.md` file a skill directory uses, given whether `SKILL.md`
/// and `skill.md` exist in it: the uppercase name is preferred, the lowercase
/// one accepted, and `None` when neither exists.
pub fn find_skill_md(upper_exists: bool, lower_exists: bool) -> (r: Option<String>)
    ensures
        match r {
            Some(name) => if upper_exists {
                name@ == "SKILL.md"@
            } else {
                lower_exists && name@ == "skill.md"@
            },
            None => !upper_exists && !lower_exists,
        },
{
    if upper_exists {
        Some(owned("SKILL.md"))
    } else if lower_exists {
        Some(owned("skill.md"))
    } else {
        None
    }
}

/// Whether a path names a `SKILL.md` file directly: it is a file and its
/// name, lower-cased, is `skill.md`.
pub fn is_skill_md_file(is_file: bool, file_name: Option<&str>) -> (r: bool)
    ensures
        r == (is_file && file_name is Some && crate::text::lowercase_text(file_name->0@)
            == "skill.md"@),
{
    if !is_file {
        return false;
    }
    match file_name {
        Some(n) => {
            let lower = crate::text::to_lowercase(n);
            crate::text::str_eq(lower.as_str(), "skill.md")
        },
        None => false,
    }
}

/// Three dashes stand at index `i` of `s`.
pub open spec fn dashes_at(s: Seq<char>, i: int) -> bool {
    0 <= i && i + 3 <= s.len() && s[i] == '-' && s[i + 1] == '-' && s[i + 2] == '-'
}

/// The frontmatter is closed by the dashes at `i`: the first three dashes
/// after the opening ones.
pub open spec fn closes_at(s: Seq<char>, i: int) -> bool {
    3 <= i && dashes_at(s, i) && forall|j: int| 3 <= j < i ==> !dashes_at(s, j)
}

/// The first-line message of the error a frontmatter text gives, if any, and
/// otherwise the entries it parses to and its trimmed body.
pub open spec fn frontmatter_result(content: Seq<char>) -> core::result::Result<(Seq<(Seq<char>, FmView)>, Seq<char>), Seq<char>> {
    if !dashes_at(content, 0) {
        Err("SKILL.md must start with YAML frontmatter (---)"@)
    } else if forall|j: int| 3 <= j ==> !dashes_at(content, j) {
        Err("SKILL.md frontmatter not properly closed with ---"@)
    } else {
        let i = choose|i: int| closes_at(content, i);
        match yaml_document(content.subrange(3, i)) {
            Err(e) => Err("Invalid YAML in frontmatter: "@ + e),
            Ok(n) => match convert_spec(n) {
                FmView::Mapping(entries) => Ok((entries, trim_spec(content.subrange(i + 3, content.len() as int)))),
                _ => Err("SKILL.md frontmatter must be a YAML mapping"@),
            },
        }
    }
}

/// Parse YAML frontmatter from `SKILL.md` content: the frontmatter mapping
/// and the trimmed Markdown body, or a parse error when the frontmatter is
/// missing, not closed, invalid YAML, or no mapping.
pub fn parse_frontmatter(content: &str) -> (r: Result<(Frontmatter, String)>)
    ensures
        match frontmatter_result(content@) {
            Ok((entries, body)) => r matches Ok((fm, b)) && fm@ == entries && b@ == body,
            Err(m) => r matches Err(SkillError::Parse(e)) && e@ == m,
        },
{
    let n = content.unicode_len();
    if !(n >= 3 && content.get_char(0) == '-' && content.get_char(1) == '-' && content.get_char(2)
        == '-') {
        return Err(SkillError::parse(owned("SKILL.md must start with YAML frontmatter (---)")));
    }
    let mut i: usize = 3;
    while n - i >= 3 && !(content.get_char(i) == '-' && content.get_char(i + 1) == '-'
        && content.get_char(i + 2) == '-')
        invariant
            n == content@.len(),
            3 <= i <= n,
            dashes_at(content@, 0),
            forall|j: int| 3 <= j < i ==> !dashes_at(content@, j),
        decreases n - i,
    {
        i = i + 1;
    }
    if n - i < 3 {
        assert forall|j: int| 3 <= j implies !dashes_at(content@, j) by {
            if j >= i {
                assert(j + 3 > n);
            }
        }
        return Err(SkillError::parse(owned("SKILL.md frontmatter not properly closed with ---")));
    }
    assert(closes_at(content@, i as int));
    let ghost chosen = choose|k: int| closes_at(content@, k);
    assert(chosen == i) by {
        if chosen < i {
            assert(!dashes_at(content@, chosen));
        } else if chosen > i {
            assert(!dashes_at(content@, i as int));
        }
    }
    let fm_text = content.substring_char(3, i);
    let rest = content.substring_char(i + 3, n);
    let body = trim(rest);
    match parse_mapping(fm_text) {
        Ok(Some(fm)) => Ok((fm, body)),
        Ok(None) => Err(SkillError::parse(owned("SKILL.md frontmatter must be a YAML mapping"))),
        Err(e) => {
            let mut m = owned("Invalid YAML in frontmatter: ");
            m.append(e.as_str());
            Err(SkillError::parse(m))
        },
    }
}


/// The text of a field whose value is a string.
pub open spec fn text_field(entries: Seq<(Seq<char>, FmView)>, key: Seq<char>) -> Option<Seq<char>> {
    match lookup(entries, key) {
        Some(FmView::Str(s)) => Some(s),
        _ => None,
    }
}

/// The trimmed text of a field whose value is a string with more than white
/// space.
pub open spec fn required_field(entries: Seq<(Seq<char>, FmView)>, key: Seq<char>) -> Option<Seq<char>> {
    match text_field(entries, key) {
        Some(s) => if trim_spec(s).len() > 0 {
            Some(trim_spec(s))
        } else {
            None
        },
        None => None,
    }
}

/// The `metadata` mapping's entries, each value flattened to a string;
/// nothing when `metadata` is absent or no mapping.
pub open spec fn metadata_pairs(entries: Seq<(Seq<char>, FmView)>) -> Seq<(Seq<char>, Seq<char>)> {
    match lookup(entries, "metadata"@) {
        Some(FmView::Mapping(es)) => es.map_values(|e: (Seq<char>, FmView)| (e.0, flat_text(e.1))),
        _ => Seq::empty(),
    }
}

/// Each of `fields` that is present, with its value, in the order of `fields`.
pub open spec fn picked_fields(entries: Seq<(Seq<char>, FmView)>, fields: Seq<Seq<char>>) -> Seq<(Seq<char>, FmView)>
    decreases fields.len(),
{
    if fields.len() == 0 {
        Seq::empty()
    } else {
        let rest = picked_fields(entries, fields.drop_last());
        match lookup(entries, fields.last()) {
            Some(v) => rest.push((fields.last(), v)),
            None => rest,
        }
    }
}

/// The properties that frontmatter entries give, or the message of the
/// validation error they raise.
pub open spec fn properties_result(entries: Seq<(Seq<char>, FmView)>, allow_claude_fields: bool) -> core::result::Result<PropertiesView, Seq<char>> {
    if lookup(entries, "name"@) is None {
        Err("Missing required field in frontmatter: name"@)
    } else if lookup(entries, "description"@) is None {
        Err("Missing required field in frontmatter: description"@)
    } else if required_field(entries, "name"@) is None {
        Err("Field 'name' must be a non-empty string"@)
    } else if required_field(entries, "description"@) is None {
        Err("Field 'description' must be a non-empty string"@)
    } else {
        Ok(
            PropertiesView {
                name: required_field(entries, "name"@)->0,
                description: required_field(entries, "description"@)->0,
                license: text_field(entries, "license"@),
                compatibility: text_field(entries, "compatibility"@),
                allowed_tools: text_field(entries, "allowed-tools"@),
                metadata: metadata_pairs(entries),
                claude: if allow_claude_fields {
                    picked_fields(entries, claude_fields())
                } else {
                    Seq::empty()
                },
            },
        )
    }
}

/// `r` is the validation error with the single message `m`.
pub open spec fn is_validation_error(r: SkillError, m: Seq<char>) -> bool {
    r is Validation && r.message_spec() == m && r.errors_spec() == seq![m]
}

/// The text of a field, when its value is a string.
fn optional_text(metadata: &Frontmatter, key: &str) -> (r: Option<String>)
    ensures
        match r {
            Some(t) => text_field(metadata@, key@) == Some(t@),
            None => text_field(metadata@, key@) is None,
        },
{
    match metadata.get(key) {
        Some(v) => match v.as_str() {
            Some(s) => Some(owned(s)),
            None => None,
        },
        None => None,
    }
}

/// The trimmed text of a field, when its value is a non-blank string.
fn required_text(metadata: &Frontmatter, key: &str) -> (r: Option<String>)
    ensures
        match r {
            Some(t) => required_field(metadata@, key@) == Some(t@),
            None => required_field(metadata@, key@) is None,
        },
{
    match metadata.get(key) {
        Some(v) => match v.as_str() {
            Some(s) => {
                let t = trim(s);
                if t.unicode_len() > 0 {
                    Some(t)
                } else {
                    None
                }
            },
            None => None,
        },
        None => None,
    }
}

/// The `metadata` entries, each value flattened to a string.
fn metadata_entries(metadata: &Frontmatter) -> (r: Vec<(String, String)>)
    ensures
        r@.map_values(|e: (String, String)| (e.0@, e.1@)) == metadata_pairs(metadata@),
{
    proof {
        reveal_strlit("metadata");
    }
    let mut out: Vec<(String, String)> = Vec::new();
    match metadata.get("metadata") {
        Some(FmValue::Mapping(entries)) => {
            proof {
                crate::yaml::lemma_view_entries(entries@);
            }
            let ghost es = crate::yaml::view_entries(entries@);
            let mut i: usize = 0;
            while i < entries.len()
                invariant
                    i <= entries@.len(),
                    es == crate::yaml::view_entries(entries@),
                    es.len() == entries@.len(),
                    forall|j: int|
                        0 <= j < entries@.len() ==> #[trigger] es[j] == (
                            entries@[j].0@,
                            crate::yaml::fm_view(entries@[j].1),
                        ),
                    out@.map_values(|e: (String, String)| (e.0@, e.1@)) == es.take(i as int).map_values(
                        |e: (Seq<char>, FmView)| (e.0, flat_text(e.1)),
                    ),
                decreases entries@.len() - i,
            {
                let k = entries[i].0.clone();
                let v = entries[i].1.to_flat_string();
                let ghost before = out@;
                out.push((k, v));
                assert(out@.map_values(|e: (String, String)| (e.0@, e.1@)) =~= before.map_values(
                    |e: (String, String)| (e.0@, e.1@),
                ).push((es[i as int].0, flat_text(es[i as int].1))));
                assert(es.take(i + 1) =~= es.take(i as int).push(es[i as int]));
                assert(out@.map_values(|e: (String, String)| (e.0@, e.1@)) =~= es.take(i + 1).map_values(
                    |e: (Seq<char>, FmView)| (e.0, flat_text(e.1)),
                ));
                i = i + 1;
            }
            assert(es.take(entries@.len() as int) =~= es);
        },
        _ => {
            assert(out@.map_values(|e: (String, String)| (e.0@, e.1@)) =~= Seq::<(Seq<char>, Seq<char>)>::empty());
        },
    }
    out
}

/// The extended fields that are present, with copies of their values.
fn claude_entries(metadata: &Frontmatter) -> (r: Vec<(String, FmValue)>)
    ensures
        r@.map_values(|e: (String, FmValue)| (e.0@, crate::yaml::fm_view(e.1))) == picked_fields(
            metadata@,
            claude_fields(),
        ),
{
    let fields = crate::constants::accepted_field_list(true);
    let ghost all = crate::constants::accepted_fields(true);
    let ghost cf = claude_fields();
    assert(all == crate::constants::base_fields() + cf);
    let mut out: Vec<(String, FmValue)> = Vec::new();
    let mut j: usize = 6;
    assert(cf.take(0) =~= Seq::<Seq<char>>::empty());
    while j < fields.len()
        invariant
            6 <= j <= fields@.len(),
            fields@.len() == 19,
            cf.len() == 13,
            crate::order::texts(fields@) == all,
            all == crate::constants::base_fields() + cf,
            crate::constants::base_fields().len() == 6,
            out@.map_values(|e: (String, FmValue)| (e.0@, crate::yaml::fm_view(e.1))) == picked_fields(
                metadata@,
                cf.take(j - 6),
            ),
        decreases fields@.len() - j,
    {
        let ghost before = out@;
        assert(fields@[j as int]@ == cf[j - 6]) by {
            assert(crate::order::texts(fields@)[j as int] == fields@[j as int]@);
            assert(all[j as int] == cf[j - 6]);
        }
        assert(cf.take(j - 5).drop_last() =~= cf.take(j - 6));
        match metadata.get(fields[j].as_str()) {
            Some(v) => {
                let k = fields[j].clone();
                let c = v.deep_clone();
                out.push((k, c));
                assert(out@.map_values(|e: (String, FmValue)| (e.0@, crate::yaml::fm_view(e.1)))
                    =~= before.map_values(|e: (String, FmValue)| (e.0@, crate::yaml::fm_view(e.1))).push(
                    (cf[j - 6], v@),
                ));
            },
            None => {},
        }
        j = j + 1;
    }
    assert(cf.take(j - 6) =~= cf);
    out
}

/// Properties from parsed frontmatter, without full validation: `name` and
/// `description` must be present non-blank strings (they are trimmed); the
/// optional fields are taken when they are strings; `metadata` entries are
/// flattened to strings; the extended fields are captured when allowed.
pub fn properties_from_frontmatter(metadata: &Frontmatter, options: Options) -> (r: Result<SkillProperties>)
    ensures
        match properties_result(metadata@, options.allow_claude_fields) {
            Ok(p) => r matches Ok(props) && props@ == p,
            Err(m) => r matches Err(e) && is_validation_error(e, m),
        },
{
    proof {
        reveal_strlit("name");
        reveal_strlit("description");
    }
    if !metadata.contains_key("name") {
        return Err(SkillError::validation(owned("Missing required field in frontmatter: name")));
    }
    if !metadata.contains_key("description") {
        return Err(SkillError::validation(owned("Missing required field in frontmatter: description")));
    }
    let name = match required_text(metadata, "name") {
        Some(t) => t,
        None => {
            return Err(SkillError::validation(owned("Field 'name' must be a non-empty string")));
        },
    };
    let description = match required_text(metadata, "description") {
        Some(t) => t,
        None => {
            return Err(SkillError::validation(owned("Field 'description' must be a non-empty string")));
        },
    };
    let license = optional_text(metadata, "license");
    let compatibility = optional_text(metadata, "compatibility");
    let allowed_tools = optional_text(metadata, "allowed-tools");
    let meta = metadata_entries(metadata);
    let claude = if options.allow_claude_fields {
        claude_entries(metadata)
    } else {
        Vec::new()
    };
    let props = SkillProperties {
        name,
        description,
        license,
        compatibility,
        allowed_tools,
        metadata: meta,
        claude,
    };
    assert(props@ =~= properties_result(metadata@, options.allow_claude_fields)->Ok_0);
    Ok(props)
}

/// Read skill properties from the text of a `SKILL.md`: a parse error when
/// its frontmatter cannot be parsed, else as [`properties_from_frontmatter`].
pub fn read_properties_from_content(content: &str, options: Options) -> (r: Result<SkillProperties>)
    ensures
        match frontmatter_result(content@) {
            Err(m) => r matches Err(SkillError::Parse(e)) && e@ == m,
            Ok((entries, _body)) => match properties_result(entries, options.allow_claude_fields) {
                Ok(p) => r matches Ok(props) && props@ == p,
                Err(m) => r matches Err(e) && is_validation_error(e, m),
            },
        },
{
    let (metadata, _body) = parse_frontmatter(content)?;
    properties_from_frontmatter(&metadata, options)
}


/// Parsed frontmatter comes only from text that opens with `---`, and its
/// body has no leading or trailing white space (no Unicode `White_Space`
/// character such as a carriage return at either end).
pub proof fn law_parsed_body_is_trimmed(content: Seq<char>)
    requires
        frontmatter_result(content) is Ok,
    ensures
        dashes_at(content, 0),
        trim_spec(frontmatter_result(content)->Ok_0.1) == frontmatter_result(content)->Ok_0.1,
        frontmatter_result(content)->Ok_0.1.len() > 0 ==> !unicode_white_space(
            frontmatter_result(content)->Ok_0.1[0],
        ) && !unicode_white_space(frontmatter_result(content)->Ok_0.1.last()),
{
    if dashes_at(content, 0) && !(forall|j: int| 3 <= j ==> !dashes_at(content, j)) {
        let i = choose|i: int| closes_at(content, i);
        lemma_trim_idempotent(content.subrange(i + 3, content.len() as int));
        law_trim_removes_white_space_at_ends(content.subrange(i + 3, content.len() as int));
    }
}

/// Properties that read have a non-empty name and description, with no
/// surrounding white space.
pub proof fn law_read_names_are_trimmed(entries: Seq<(Seq<char>, FmView)>, allow_claude_fields: bool)
    requires
        properties_result(entries, allow_claude_fields) is Ok,
    ensures
        properties_result(entries, allow_claude_fields)->Ok_0.name.len() > 0,
        properties_result(entries, allow_claude_fields)->Ok_0.description.len() > 0,
        trim_spec(properties_result(entries, allow_claude_fields)->Ok_0.name)
            == properties_result(entries, allow_claude_fields)->Ok_0.name,
        trim_spec(properties_result(entries, allow_claude_fields)->Ok_0.description)
            == properties_result(entries, allow_claude_fields)->Ok_0.description,
{
    lemma_trim_idempotent(text_field(entries, "name"@)->0);
    lemma_trim_idempotent(text_field(entries, "description"@)->0);
}

} // verus!
