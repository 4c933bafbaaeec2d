//! Skill validation logic.

use unicode_normalization::UnicodeNormalization;
use vstd::prelude::*;
use crate::constants::{accepted_field_list, accepted_fields};
use crate::options::Options;
use crate::parser::{frontmatter_result, parse_frontmatter, properties_result};
use crate::order::{contains_text, insert_sorted, lemma_sorted_of, lemma_sorted_of_list, sorted_of, strictly_sorted, texts};
use crate::text::{alphanumeric, decimal, file_name, file_name_of, is_alphanumeric, join, join_texts, lowercase_text, owned, to_lowercase, trim, trim_spec, usize_to_decimal};
use crate::yaml::{keys_of, lookup, quoted, FmValue, FmView, Frontmatter};

verus! {

/// Maximum length of a skill name, in characters.
pub const MAX_SKILL_NAME_LENGTH: usize = 64;

/// Maximum length of a description, in characters.
pub const MAX_DESCRIPTION_LENGTH: usize = 1024;

/// Maximum length of a compatibility note, in characters.
pub const MAX_COMPATIBILITY_LENGTH: usize = 500;

/// What `unicode_normalization`'s NFKC normalization gives for a text.
pub uninterp spec fn nfkc_text(s: Seq<char>) -> Seq<char>;

/// Calls `UnicodeNormalization::nfkc` and collects the characters; the
/// contract names the result (`nfkc_text`), it does not state the Unicode
/// decomposition and composition tables.
#[verifier::external_body]
fn nfkc(s: &str) -> (r: String)
    ensures
        r@ == nfkc_text(s@),
{
    s.nfkc().collect()
}

/// `seq![m]` when `c` holds, else nothing.
pub open spec fn when(c: bool, m: Seq<char>) -> Seq<Seq<char>> {
    if c {
        seq![m]
    } else {
        Seq::empty()
    }
}

/// Two hyphens stand at indices `i` and `i + 1` of `s`.
pub open spec fn hyphen_pair_at(s: Seq<char>, i: int) -> bool {
    0 <= i && i + 1 < s.len() && s[i] == '-' && s[i + 1] == '-'
}

/// Two hyphens stand next to each other somewhere in `s`.
pub open spec fn has_double_hyphen(s: Seq<char>) -> bool {
    exists|i: int| #[trigger] hyphen_pair_at(s, i)
}

/// An ASCII letter or digit: `a`-`z`, `A`-`Z` or `0`-`9`.
pub open spec fn ascii_alphanumeric(c: char) -> bool {
    ('a' <= c && c <= 'z') || ('A' <= c && c <= 'Z') || ('0' <= c && c <= '9')
}

/// A character allowed in a skill name: a letter, a digit or a hyphen. In
/// ASCII the letters and digits are exactly `a`-`z`, `A`-`Z` and `0`-`9`
/// (`char::is_alphanumeric` agrees there); beyond ASCII,
/// `char::is_alphanumeric` decides.
pub open spec fn name_char(c: char) -> bool {
    if c <= '\x7f' {
        ascii_alphanumeric(c) || c == '-'
    } else {
        alphanumeric(c)
    }
}

/// Every character of `s` is a letter, a digit or a hyphen.
pub open spec fn only_name_chars(s: Seq<char>) -> bool {
    forall|i: int| 0 <= i < s.len() ==> name_char(#[trigger] s[i])
}

/// The checks on a normalized, non-empty skill name, in order.
pub open spec fn name_checks(name: Seq<char>, dir: Option<Seq<char>>) -> Seq<Seq<char>> {
    when(
        name.len() > 64,
        "Skill name '"@ + name + "' exceeds 64 character limit ("@ + decimal(name.len()) + " chars)"@,
    ) + when(name != lowercase_text(name), "Skill name '"@ + name + "' must be lowercase"@) + when(
        name.len() > 0 && (name[0] == '-' || name.last() == '-'),
        "Skill name cannot start or end with a hyphen"@,
    ) + when(has_double_hyphen(name), "Skill name cannot contain consecutive hyphens"@) + when(
        !only_name_chars(name),
        "Skill name '"@ + name
            + "' contains invalid characters. Only letters, digits, and hyphens are allowed."@,
    ) + match dir {
        Some(d) => when(
            nfkc_text(d) != name,
            "Directory name '"@ + d + "' must match skill name '"@ + name + "'"@,
        ),
        None => Seq::empty(),
    }
}

/// The errors of a `name` field's value.
pub open spec fn name_errors(v: FmView, dir: Option<Seq<char>>) -> Seq<Seq<char>> {
    if v is Str && trim_spec(v->Str_0).len() > 0 {
        name_checks(nfkc_text(trim_spec(v->Str_0)), dir)
    } else {
        seq!["Field 'name' must be a non-empty string"@]
    }
}

/// The errors of a `description` field's value.
pub open spec fn description_errors(v: FmView) -> Seq<Seq<char>> {
    if v is Str && trim_spec(v->Str_0).len() > 0 {
        when(
            v->Str_0.len() > 1024,
            "Description exceeds 1024 character limit ("@ + decimal(v->Str_0.len()) + " chars)"@,
        )
    } else {
        seq!["Field 'description' must be a non-empty string"@]
    }
}

/// The errors of a `compatibility` field's value.
pub open spec fn compatibility_errors(v: FmView) -> Seq<Seq<char>> {
    if v is Str {
        when(
            v->Str_0.len() > 500,
            "Compatibility exceeds 500 character limit ("@ + decimal(v->Str_0.len()) + " chars)"@,
        )
    } else {
        seq!["Field 'compatibility' must be a string"@]
    }
}

/// The errors of a `metadata` field's value: it must be a mapping.
pub open spec fn metadata_value_errors(v: FmView) -> Seq<Seq<char>> {
    when(!(v is Mapping), "Field 'metadata' must be a mapping"@)
}

/// The fields of `entries` that are not accepted, as a set.
pub open spec fn unexpected_fields(entries: Seq<(Seq<char>, FmView)>, allow_claude_fields: bool) -> Set<Seq<char>> {
    keys_of(entries).to_set().filter(|k: Seq<char>| !accepted_fields(allow_claude_fields).contains(k))
}

/// The error about unexpected fields, if there are any: they are listed
/// sorted, and so are the accepted fields, each quoted.
pub open spec fn fields_errors(entries: Seq<(Seq<char>, FmView)>, allow_claude_fields: bool) -> Seq<Seq<char>> {
    let extra = sorted_of(unexpected_fields(entries, allow_claude_fields));
    let accepted = sorted_of(accepted_fields(allow_claude_fields).to_set());
    when(
        extra.len() > 0,
        "Unexpected fields in frontmatter: "@ + join(extra, ", "@) + ". Only ["@ + join(
            accepted.map_values(|f: Seq<char>| quoted(f)),
            ", "@,
        ) + "] are allowed."@,
    )
}

/// All validation errors of parsed frontmatter, in order: unexpected
/// fields, then `name`, `description`, `compatibility` and `metadata`.
pub open spec fn metadata_errors(
    entries: Seq<(Seq<char>, FmView)>,
    dir: Option<Seq<char>>,
    allow_claude_fields: bool,
) -> Seq<Seq<char>> {
    fields_errors(entries, allow_claude_fields) + match lookup(entries, "name"@) {
        None => seq!["Missing required field in frontmatter: name"@],
        Some(v) => name_errors(v, dir),
    } + match lookup(entries, "description"@) {
        None => seq!["Missing required field in frontmatter: description"@],
        Some(v) => description_errors(v),
    } + optional_errors(entries)
}

/// The errors of the optional fields that are checked, in order:
/// `compatibility`, then `metadata`.
pub open spec fn optional_errors(entries: Seq<(Seq<char>, FmView)>) -> Seq<Seq<char>> {
    let compatibility = match lookup(entries, "compatibility"@) {
        None => Seq::empty(),
        Some(v) => compatibility_errors(v),
    };
    let metadata = match lookup(entries, "metadata"@) {
        None => Seq::empty(),
        Some(v) => metadata_value_errors(v),
    };
    compatibility + metadata
}

/// The characters of an optional directory name.
pub open spec fn dir_view(dir: Option<&str>) -> Option<Seq<char>> {
    match dir {
        Some(d) => Some(d@),
        None => None,
    }
}

/// The name of an optional skill directory, given by its path: the path's
/// final component.
pub open spec fn dir_name_of(skill_dir: Option<&str>) -> Option<Seq<char>> {
    match skill_dir {
        Some(d) => Some(file_name_of(d@)),
        None => None,
    }
}


/// Whether two hyphens stand next to each other in `s`.
fn contains_double_hyphen(s: &str) -> (r: bool)
    ensures
        r == has_double_hyphen(s@),
{
    let n = s.unicode_len();
    let mut i: usize = 0;
    while i < n && i + 1 < n
        invariant
            n == s@.len(),
            i <= n,
            forall|j: int| 0 <= j < i ==> !hyphen_pair_at(s@, j),
        decreases n - i,
    {
        if s.get_char(i) == '-' && s.get_char(i + 1) == '-' {
            assert(hyphen_pair_at(s@, i as int));
            return true;
        }
        i = i + 1;
    }
    assert forall|j: int| !hyphen_pair_at(s@, j) by {
        if j >= i {
            assert(!(j + 1 < n));
        }
    }
    false
}

/// Whether every character of `s` is a letter, a digit or a hyphen.
fn all_name_chars(s: &str) -> (r: bool)
    ensures
        r == only_name_chars(s@),
{
    let n = s.unicode_len();
    let mut i: usize = 0;
    while i < n
        invariant
            n == s@.len(),
            i <= n,
            forall|j: int| 0 <= j < i ==> name_char(#[trigger] s@[j]),
        decreases n - i,
    {
        let c = s.get_char(i);
        let allowed = if c <= '\x7f' {
            ('a' <= c && c <= 'z') || ('A' <= c && c <= 'Z') || ('0' <= c && c <= '9') || c == '-'
        } else {
            is_alphanumeric(c)
        };
        if !allowed {
            return false;
        }
        i = i + 1;
    }
    true
}

/// Validate a skill name's format and its match with the directory name.
///
/// Names may use Unicode letters, digits and hyphens; they must be
/// lowercase and cannot start or end with a hyphen.
#[verifier::rlimit(40)]
fn validate_name(name: &FmValue, skill_dir: Option<&str>) -> (r: Vec<String>)
    ensures
        texts(r@) == name_errors(name@, dir_view(skill_dir)),
{
    proof {
        reveal_strlit("Field 'name' must be a non-empty string");
    }
    let raw = match name.as_str() {
        Some(s) => s,
        None => {
            let r = vec![owned("Field 'name' must be a non-empty string")];
            assert(texts(r@) =~= name_errors(name@, dir_view(skill_dir)));
            return r;
        },
    };
    let trimmed = trim(raw);
    if trimmed.unicode_len() == 0 {
        let r = vec![owned("Field 'name' must be a non-empty string")];
        assert(texts(r@) =~= name_errors(name@, dir_view(skill_dir)));
        return r;
    }
    let n = nfkc(trimmed.as_str());
    let ghost nm = n@;
    let len = n.unicode_len();
    let mut errors: Vec<String> = Vec::new();
    if len > MAX_SKILL_NAME_LENGTH {
        let mut m = owned("Skill name '");
        m.append(n.as_str());
        m.append("' exceeds 64 character limit (");
        let count = usize_to_decimal(len);
        m.append(count.as_str());
        m.append(" chars)");
        errors.push(m);
    }
    let ghost e1 = when(
        nm.len() > 64,
        "Skill name '"@ + nm + "' exceeds 64 character limit ("@ + decimal(nm.len()) + " chars)"@,
    );
    assert(texts(errors@) =~= e1);
    let lower = to_lowercase(n.as_str());
    if !crate::text::str_eq(n.as_str(), lower.as_str()) {
        let mut m = owned("Skill name '");
        m.append(n.as_str());
        m.append("' must be lowercase");
        errors.push(m);
    }
    let ghost e2 = e1 + when(nm != lowercase_text(nm), "Skill name '"@ + nm + "' must be lowercase"@);
    assert(texts(errors@) =~= e2);
    if len > 0 && (n.get_char(0) == '-' || n.get_char(len - 1) == '-') {
        errors.push(owned("Skill name cannot start or end with a hyphen"));
    }
    let ghost e3 = e2 + when(
        nm.len() > 0 && (nm[0] == '-' || nm.last() == '-'),
        "Skill name cannot start or end with a hyphen"@,
    );
    assert(texts(errors@) =~= e3);
    if contains_double_hyphen(n.as_str()) {
        errors.push(owned("Skill name cannot contain consecutive hyphens"));
    }
    let ghost e4 = e3 + when(has_double_hyphen(nm), "Skill name cannot contain consecutive hyphens"@);
    assert(texts(errors@) =~= e4);
    if !all_name_chars(n.as_str()) {
        let mut m = owned("Skill name '");
        m.append(n.as_str());
        m.append("' contains invalid characters. Only letters, digits, and hyphens are allowed.");
        errors.push(m);
    }
    let ghost e5 = e4 + when(
        !only_name_chars(nm),
        "Skill name '"@ + nm
            + "' contains invalid characters. Only letters, digits, and hyphens are allowed."@,
    );
    assert(texts(errors@) =~= e5);
    match skill_dir {
        Some(d) => {
            let dir_name = nfkc(d);
            if !crate::text::str_eq(dir_name.as_str(), n.as_str()) {
                let mut m = owned("Directory name '");
                m.append(d);
                m.append("' must match skill name '");
                m.append(n.as_str());
                m.append("'");
                errors.push(m);
            }
            assert(texts(errors@) =~= e5 + when(
                nfkc_text(d@) != nm,
                "Directory name '"@ + d@ + "' must match skill name '"@ + nm + "'"@,
            ));
        },
        None => {
            assert(e5 + Seq::<Seq<char>>::empty() =~= e5);
        },
    }
    errors
}


/// Validate a description: non-empty, at most 1024 characters.
fn validate_description(description: &FmValue) -> (r: Vec<String>)
    ensures
        texts(r@) == description_errors(description@),
{
    let desc = match description.as_str() {
        Some(s) => s,
        None => {
            let r = vec![owned("Field 'description' must be a non-empty string")];
            assert(texts(r@) =~= description_errors(description@));
            return r;
        },
    };
    let trimmed = trim(desc);
    if trimmed.unicode_len() == 0 {
        let r = vec![owned("Field 'description' must be a non-empty string")];
        assert(texts(r@) =~= description_errors(description@));
        return r;
    }
    let mut errors: Vec<String> = Vec::new();
    let len = desc.unicode_len();
    if len > MAX_DESCRIPTION_LENGTH {
        let mut m = owned("Description exceeds 1024 character limit (");
        let count = usize_to_decimal(len);
        m.append(count.as_str());
        m.append(" chars)");
        errors.push(m);
    }
    assert(texts(errors@) =~= description_errors(description@));
    errors
}

/// Validate a compatibility note: a string of at most 500 characters.
fn validate_compatibility(compatibility: &FmValue) -> (r: Vec<String>)
    ensures
        texts(r@) == compatibility_errors(compatibility@),
{
    let compat = match compatibility.as_str() {
        Some(s) => s,
        None => {
            let r = vec![owned("Field 'compatibility' must be a string")];
            assert(texts(r@) =~= compatibility_errors(compatibility@));
            return r;
        },
    };
    let mut errors: Vec<String> = Vec::new();
    let len = compat.unicode_len();
    if len > MAX_COMPATIBILITY_LENGTH {
        let mut m = owned("Compatibility exceeds 500 character limit (");
        let count = usize_to_decimal(len);
        m.append(count.as_str());
        m.append(" chars)");
        errors.push(m);
    }
    assert(texts(errors@) =~= compatibility_errors(compatibility@));
    errors
}

/// The list of `items`, each in single quotes.
fn quote_all(items: &Vec<String>) -> (r: Vec<String>)
    ensures
        texts(r@) == texts(items@).map_values(|f: Seq<char>| quoted(f)),
{
    let mut out: Vec<String> = Vec::new();
    let mut i: usize = 0;
    while i < items.len()
        invariant
            i <= items@.len(),
            texts(out@) == texts(items@).take(i as int).map_values(|f: Seq<char>| quoted(f)),
        decreases items@.len() - i,
    {
        let mut q = String::new();
        crate::text::push_char(&mut q, '\'');
        q.append(items[i].as_str());
        crate::text::push_char(&mut q, '\'');
        assert(q@ == quoted(items@[i as int]@));
        let ghost before = out@;
        out.push(q);
        assert(texts(out@) =~= texts(before).push(quoted(items@[i as int]@)));
        assert(texts(items@).take(i + 1) =~= texts(items@).take(i as int).push(items@[i as int]@));
        assert(texts(out@) =~= texts(items@).take(i + 1).map_values(|f: Seq<char>| quoted(f)));
        i = i + 1;
    }
    assert(texts(items@).take(items@.len() as int) =~= texts(items@));
    out
}

/// Validate that only accepted fields are present.
fn validate_metadata_fields(metadata: &Frontmatter, allow_claude_fields: bool) -> (r: Vec<String>)
    ensures
        texts(r@) == fields_errors(metadata@, allow_claude_fields),
{
    let accepted = accepted_field_list(allow_claude_fields);
    let keys = metadata.keys();
    let ghost acc = accepted_fields(allow_claude_fields);
    let ghost keyset = keys_of(metadata@).to_set();
    let mut extra: Vec<String> = Vec::new();
    let mut i: usize = 0;
    assert(texts(extra@).to_set() =~= texts(keys@).take(0).to_set().filter(
        |k: Seq<char>| !acc.contains(k),
    ));
    while i < keys.len()
        invariant
            i <= keys@.len(),
            texts(accepted@) == acc,
            strictly_sorted(texts(extra@)),
            texts(extra@).to_set() == texts(keys@).take(i as int).to_set().filter(
                |k: Seq<char>| !acc.contains(k),
            ),
        decreases keys@.len() - i,
    {
        let k = keys[i].clone();
        let ghost kv = k@;
        let ghost prev = texts(extra@).to_set();
        assert(texts(keys@).take(i + 1) =~= texts(keys@).take(i as int).push(kv));
        proof {
            texts(keys@).take(i as int).lemma_push_to_set_commute(kv);
        }
        if !contains_text(&accepted, k.as_str()) {
            insert_sorted(&mut extra, k);
            assert(texts(extra@).to_set() =~= texts(keys@).take(i + 1).to_set().filter(
                |k: Seq<char>| !acc.contains(k),
            ));
        } else {
            assert(texts(extra@).to_set() =~= texts(keys@).take(i + 1).to_set().filter(
                |k: Seq<char>| !acc.contains(k),
            ));
        }
        i = i + 1;
    }
    assert(texts(keys@).take(keys@.len() as int) =~= texts(keys@));
    assert(texts(extra@).to_set() =~= unexpected_fields(metadata@, allow_claude_fields));
    proof {
        lemma_sorted_of(texts(extra@));
    }
    let mut errors: Vec<String> = Vec::new();
    if extra.len() > 0 {
        let mut sorted_accepted: Vec<String> = Vec::new();
        let mut j: usize = 0;
        assert(texts(sorted_accepted@).to_set() =~= acc.take(0).to_set());
        while j < accepted.len()
            invariant
                j <= accepted@.len(),
                texts(accepted@) == acc,
                strictly_sorted(texts(sorted_accepted@)),
                texts(sorted_accepted@).to_set() == acc.take(j as int).to_set(),
            decreases accepted@.len() - j,
        {
            let f = accepted[j].clone();
            assert(acc.take(j + 1) =~= acc.take(j as int).push(f@));
            proof {
                acc.take(j as int).lemma_push_to_set_commute(f@);
            }
            insert_sorted(&mut sorted_accepted, f);
            j = j + 1;
        }
        assert(acc.take(accepted@.len() as int) =~= acc);
        proof {
            lemma_sorted_of(texts(sorted_accepted@));
        }
        let quoted_fields = quote_all(&sorted_accepted);
        let mut m = owned("Unexpected fields in frontmatter: ");
        let listed = join_texts(&extra, ", ");
        m.append(listed.as_str());
        m.append(". Only [");
        let listed_accepted = join_texts(&quoted_fields, ", ");
        m.append(listed_accepted.as_str());
        m.append("] are allowed.");
        errors.push(m);
    }
    assert(texts(errors@) =~= fields_errors(metadata@, allow_claude_fields));
    errors
}


/// Validate the `metadata` field's value: a key/value mapping.
fn validate_metadata_value(value: &FmValue) -> (r: Vec<String>)
    ensures
        texts(r@) == metadata_value_errors(value@),
{
    proof {
        reveal_strlit("Field 'metadata' must be a mapping");
    }
    match value {
        FmValue::Mapping(_) => Vec::new(),
        _ => vec![owned("Field 'metadata' must be a mapping")],
    }
}

/// Validate the optional `compatibility` and `metadata` fields, when present.
fn validate_optional_fields(metadata: &Frontmatter) -> (r: Vec<String>)
    ensures
        texts(r@) == optional_errors(metadata@),
{
    let mut errors = match metadata.get("compatibility") {
        None => Vec::new(),
        Some(compatibility) => validate_compatibility(compatibility),
    };
    let ghost e0 = texts(errors@);
    let mut more = match metadata.get("metadata") {
        None => Vec::new(),
        Some(value) => validate_metadata_value(value),
    };
    let ghost e1 = texts(more@);
    errors.append(&mut more);
    assert(texts(errors@) =~= e0 + e1);
    errors
}

/// Validate parsed skill metadata under the given options, for a skill in
/// the directory at path `skill_dir` when one is given (its final component
/// must match the name): the list of
/// validation messages, empty when the skill is valid.
pub fn validate_metadata_with_options(
    metadata: &Frontmatter,
    skill_dir: Option<&str>,
    options: Options,
) -> (r: Vec<String>)
    ensures
        texts(r@) == metadata_errors(metadata@, dir_name_of(skill_dir), options.allow_claude_fields),
{
    let dir_name: Option<String> = match skill_dir {
        Some(d) => Some(file_name(d)),
        None => None,
    };
    let dir_ref: Option<&str> = match &dir_name {
        Some(d) => Some(d.as_str()),
        None => None,
    };
    assert(dir_view(dir_ref) == dir_name_of(skill_dir));
    let mut errors = validate_metadata_fields(metadata, options.allow_claude_fields);
    let ghost e0 = texts(errors@);
    proof {
        reveal_strlit("Missing required field in frontmatter: name");
        reveal_strlit("Missing required field in frontmatter: description");
    }
    let mut more = match metadata.get("name") {
        None => vec![owned("Missing required field in frontmatter: name")],
        Some(name) => validate_name(name, dir_ref),
    };
    let ghost e1 = texts(more@);
    errors.append(&mut more);
    assert(texts(errors@) =~= e0 + e1);
    let mut more = match metadata.get("description") {
        None => vec![owned("Missing required field in frontmatter: description")],
        Some(description) => validate_description(description),
    };
    let ghost e2 = texts(more@);
    errors.append(&mut more);
    assert(texts(errors@) =~= e0 + e1 + e2);
    let mut more = validate_optional_fields(metadata);
    let ghost e3 = texts(more@);
    errors.append(&mut more);
    assert(texts(errors@) =~= e0 + e1 + e2 + e3);
    assert(texts(errors@) =~= metadata_errors(
        metadata@,
        dir_name_of(skill_dir),
        options.allow_claude_fields,
    ));
    errors
}

/// Validate parsed skill metadata under the base specification.
pub fn validate_metadata(metadata: &Frontmatter, skill_dir: Option<&str>) -> (r: Vec<String>)
    ensures
        texts(r@) == metadata_errors(metadata@, dir_name_of(skill_dir), false),
{
    validate_metadata_with_options(metadata, skill_dir, Options { allow_claude_fields: false })
}

/// The validation messages of a `SKILL.md` text found in the directory at
/// path `skill_dir` (compared by its final component): the parse error's message when the frontmatter cannot be
/// parsed, else the validation messages of its metadata.
pub fn validate_content(content: &str, skill_dir: &str, options: Options) -> (r: Vec<String>)
    ensures
        match frontmatter_result(content@) {
            Err(m) => texts(r@) == seq![m],
            Ok((entries, _body)) => texts(r@) == metadata_errors(
                entries,
                Some(file_name_of(skill_dir@)),
                options.allow_claude_fields,
            ),
        },
{
    match parse_frontmatter(content) {
        Ok((metadata, _body)) => validate_metadata_with_options(&metadata, Some(skill_dir), options),
        Err(e) => {
            let r = vec![e.to_string()];
            assert(texts(r@) =~= seq![e.message_spec()]);
            r
        },
    }
}


/// Filtering a list and then taking its set is taking its set and filtering.
proof fn lemma_filter_to_set(xs: Seq<Seq<char>>, p: spec_fn(Seq<char>) -> bool)
    ensures
        xs.filter(p).to_set() == xs.to_set().filter(p),
{
    assert forall|x: Seq<char>| xs.filter(p).to_set().contains(x) <==> xs.to_set().filter(p).contains(x) by {
        if xs.filter(p).to_set().contains(x) {
            xs.lemma_filter_contains_rev(p, x);
            let i = choose|i: int| 0 <= i < xs.filter(p).len() && xs.filter(p)[i] == x;
            xs.lemma_filter_pred(p, i);
        }
        if xs.to_set().filter(p).contains(x) {
            let i = choose|i: int| 0 <= i < xs.len() && xs[i] == x;
            xs.lemma_filter_contains(p, i);
        }
    }
    assert(xs.filter(p).to_set() =~= xs.to_set().filter(p));
}

/// The fields error is absent exactly when every field is accepted.
proof fn lemma_fields_errors_empty(entries: Seq<(Seq<char>, FmView)>, allow_claude_fields: bool)
    ensures
        fields_errors(entries, allow_claude_fields).len() == 0 <==> forall|k: Seq<char>|
            keys_of(entries).contains(k) ==> accepted_fields(allow_claude_fields).contains(k),
        fields_errors(entries, allow_claude_fields).len() <= 1,
{
    let acc = accepted_fields(allow_claude_fields);
    let p = |k: Seq<char>| !acc.contains(k);
    let xs = keys_of(entries).filter(p);
    lemma_filter_to_set(keys_of(entries), p);
    assert(unexpected_fields(entries, allow_claude_fields) == xs.to_set());
    lemma_sorted_of_list(xs);
    if xs.len() > 0 {
        keys_of(entries).lemma_filter_pred(p, 0);
        keys_of(entries).lemma_filter_contains_rev(p, xs[0]);
    } else {
        assert forall|k: Seq<char>| keys_of(entries).contains(k) implies acc.contains(k) by {
            if !acc.contains(k) {
                let i = choose|i: int| 0 <= i < keys_of(entries).len() && keys_of(entries)[i] == k;
                keys_of(entries).lemma_filter_contains(p, i);
            }
        }
    }
}

/// A field that is not accepted is always reported.
pub proof fn law_unaccepted_field_reported(
    entries: Seq<(Seq<char>, FmView)>,
    dir: Option<Seq<char>>,
    allow_claude_fields: bool,
    key: Seq<char>,
)
    requires
        keys_of(entries).contains(key),
        !accepted_fields(allow_claude_fields).contains(key),
    ensures
        fields_errors(entries, allow_claude_fields).len() == 1,
        metadata_errors(entries, dir, allow_claude_fields).len() > 0,
{
    lemma_fields_errors_empty(entries, allow_claude_fields);
}

/// Frontmatter whose fields are all accepted draws no fields error.
pub proof fn law_accepted_fields_not_reported(entries: Seq<(Seq<char>, FmView)>, allow_claude_fields: bool)
    requires
        forall|k: Seq<char>|
            keys_of(entries).contains(k) ==> accepted_fields(allow_claude_fields).contains(k),
    ensures
        fields_errors(entries, allow_claude_fields).len() == 0,
{
    lemma_fields_errors_empty(entries, allow_claude_fields);
}

/// Allowing the extended fields only widens what is valid: metadata valid
/// under the base specification stays valid.
pub proof fn law_extended_fields_only_widen(entries: Seq<(Seq<char>, FmView)>, dir: Option<Seq<char>>)
    requires
        metadata_errors(entries, dir, false).len() == 0,
    ensures
        metadata_errors(entries, dir, true).len() == 0,
{
    lemma_fields_errors_empty(entries, false);
    lemma_fields_errors_empty(entries, true);
    assert forall|k: Seq<char>| keys_of(entries).contains(k) implies accepted_fields(true).contains(k) by {
        assert(accepted_fields(false).contains(k));
        let i = choose|i: int| 0 <= i < accepted_fields(false).len() && accepted_fields(false)[i] == k;
        assert(accepted_fields(true)[i] == k);
    }
}

/// A skill that validates has readable properties.
pub proof fn law_valid_metadata_reads(
    entries: Seq<(Seq<char>, FmView)>,
    dir: Option<Seq<char>>,
    allow_claude_fields: bool,
)
    requires
        metadata_errors(entries, dir, allow_claude_fields).len() == 0,
    ensures
        properties_result(entries, allow_claude_fields) is Ok,
{
}

/// A `metadata` field whose value is not a mapping is always reported.
pub proof fn law_non_mapping_metadata_reported(
    entries: Seq<(Seq<char>, FmView)>,
    dir: Option<Seq<char>>,
    allow_claude_fields: bool,
)
    requires
        lookup(entries, "metadata"@) is Some,
        !(lookup(entries, "metadata"@)->0 is Mapping),
    ensures
        optional_errors(entries).contains("Field 'metadata' must be a mapping"@),
        metadata_errors(entries, dir, allow_claude_fields).contains("Field 'metadata' must be a mapping"@),
{
    let m = "Field 'metadata' must be a mapping"@;
    let o = optional_errors(entries);
    assert(o[o.len() - 1] == m);
    let all = metadata_errors(entries, dir, allow_claude_fields);
    assert(all[all.len() - 1] == m);
}

/// A skill name that, trimmed and NFKC-normalized, starts or ends with a
/// hyphen always draws the hyphen error.
pub proof fn law_edge_hyphen_reported(
    entries: Seq<(Seq<char>, FmView)>,
    dir: Option<Seq<char>>,
    allow_claude_fields: bool,
    raw: Seq<char>,
)
    requires
        lookup(entries, "name"@) == Some(FmView::Str(raw)),
        trim_spec(raw).len() > 0,
        nfkc_text(trim_spec(raw)).len() > 0,
        nfkc_text(trim_spec(raw))[0] == '-' || nfkc_text(trim_spec(raw)).last() == '-',
    ensures
        metadata_errors(entries, dir, allow_claude_fields).contains(
            "Skill name cannot start or end with a hyphen"@,
        ),
{
    let n = nfkc_text(trim_spec(raw));
    let m = "Skill name cannot start or end with a hyphen"@;
    let before = when(
        n.len() > 64,
        "Skill name '"@ + n + "' exceeds 64 character limit ("@ + decimal(n.len()) + " chars)"@,
    ) + when(n != lowercase_text(n), "Skill name '"@ + n + "' must be lowercase"@);
    let checks = name_checks(n, dir);
    assert(checks[before.len() as int] == m);
    let f = fields_errors(entries, allow_claude_fields);
    let all = metadata_errors(entries, dir, allow_claude_fields);
    assert(all[f.len() + before.len() as int] == m);
}

/// When the directory's name, NFKC-normalized, differs from the trimmed and
/// normalized skill name, the mismatch is reported, naming both.
pub proof fn law_directory_mismatch_reported(
    entries: Seq<(Seq<char>, FmView)>,
    d: Seq<char>,
    allow_claude_fields: bool,
    raw: Seq<char>,
)
    requires
        lookup(entries, "name"@) == Some(FmView::Str(raw)),
        trim_spec(raw).len() > 0,
        nfkc_text(d) != nfkc_text(trim_spec(raw)),
    ensures
        metadata_errors(entries, Some(d), allow_claude_fields).contains(
            "Directory name '"@ + d + "' must match skill name '"@ + nfkc_text(trim_spec(raw)) + "'"@,
        ),
{
    let n = nfkc_text(trim_spec(raw));
    let m = "Directory name '"@ + d + "' must match skill name '"@ + n + "'"@;
    let checks = name_checks(n, Some(d));
    assert(checks[checks.len() - 1] == m);
    let f = fields_errors(entries, allow_claude_fields);
    let all = metadata_errors(entries, Some(d), allow_claude_fields);
    assert(all[f.len() + checks.len() - 1] == m);
}

/// Every ASCII letter and digit and the hyphen may stand in a skill name,
/// and no other ASCII character may; so a name made of ASCII letters,
/// digits and hyphens passes the character check.
pub proof fn law_ascii_name_characters(s: Seq<char>)
    ensures
        forall|c: char|
            ('a' <= c && c <= 'z') || ('A' <= c && c <= 'Z') || ('0' <= c && c <= '9') || c == '-'
                ==> #[trigger] name_char(c),
        forall|c: char|
            c <= '\x7f' && !(('a' <= c && c <= 'z') || ('A' <= c && c <= 'Z') || ('0' <= c && c
                <= '9') || c == '-') ==> !#[trigger] name_char(c),
        (forall|i: int|
            0 <= i < s.len() ==> ('a' <= #[trigger] s[i] && s[i] <= 'z') || ('A' <= s[i] && s[i]
                <= 'Z') || ('0' <= s[i] && s[i] <= '9') || s[i] == '-') ==> only_name_chars(s),
{
}

} // verus!
