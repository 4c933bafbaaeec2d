//! Data models for Agent Skills, and their JSON form.

use vstd::prelude::*;
use crate::text::owned;
use crate::yaml::{fm_view, FmValue, FmView};

verus! {

/// Properties parsed from a skill's `SKILL.md` frontmatter.
///
/// * `name`: skill name in kebab-case (required)
/// * `description`: what the skill does and when to use it (required)
/// * `license`, `compatibility`, `allowed_tools`: optional
/// * `metadata`: key-value pairs for client-specific properties, in order
/// * and the extended fields ([`crate::CLAUDE_FIELDS`]), captured when they
///   are allowed
#[derive(Debug, Clone, Default)]
pub struct SkillProperties {
    pub name: String,
    pub description: String,
    pub license: Option<String>,
    pub compatibility: Option<String>,
    pub allowed_tools: Option<String>,
    pub metadata: Vec<(String, String)>,
    pub claude: Vec<(String, FmValue)>,
}

/// The content of [`SkillProperties`].
#[verifier::ext_equal]
pub struct PropertiesView {
    pub name: Seq<char>,
    pub description: Seq<char>,
    pub license: Option<Seq<char>>,
    pub compatibility: Option<Seq<char>>,
    pub allowed_tools: Option<Seq<char>>,
    pub metadata: Seq<(Seq<char>, Seq<char>)>,
    pub claude: Seq<(Seq<char>, FmView)>,
}

/// The characters of an optional string.
pub open spec fn opt_view(s: Option<String>) -> Option<Seq<char>> {
    match s {
        Some(t) => Some(t@),
        None => None,
    }
}

impl View for SkillProperties {
    type V = PropertiesView;

    open spec fn view(&self) -> PropertiesView {
        PropertiesView {
            name: self.name@,
            description: self.description@,
            license: opt_view(self.license),
            compatibility: opt_view(self.compatibility),
            allowed_tools: opt_view(self.allowed_tools),
            metadata: self.metadata@.map_values(|e: (String, String)| (e.0@, e.1@)),
            claude: self.claude@.map_values(|e: (String, FmValue)| (e.0@, fm_view(e.1))),
        }
    }
}


#[verifier::external_type_specification]
#[verifier::external_body]
pub struct ExJsonValue(serde_json::Value);

#[verifier::external_type_specification]
#[verifier::external_body]
#[verifier::reject_recursive_types(K)]
#[verifier::reject_recursive_types(V)]
pub struct ExJsonMap<K, V>(serde_json::Map<K, V>);

/// The content of a JSON value.
pub enum JsonNode {
    Null,
    Bool(bool),
    /// A number, by the text that `serde_json` writes for it.
    Number(Seq<char>),
    Str(Seq<char>),
    Array(Seq<JsonNode>),
    Object(Seq<(Seq<char>, JsonNode)>),
}

/// The content of a `serde_json::Value`.
pub uninterp spec fn json_node(v: serde_json::Value) -> JsonNode;

/// The entries of a `serde_json::Map`, in insertion order.
pub uninterp spec fn json_map_entries(m: serde_json::Map<String, serde_json::Value>) -> Seq<(Seq<char>, JsonNode)>;

/// What `serde_json::to_string_pretty` writes for a JSON value.
pub uninterp spec fn pretty_json_text(v: JsonNode) -> Seq<char>;

/// Map insertion that keeps the order of first insertion: a present key
/// keeps its place and takes the new value, a new key goes last.
pub open spec fn map_insert(es: Seq<(Seq<char>, JsonNode)>, k: Seq<char>, v: JsonNode) -> Seq<(Seq<char>, JsonNode)>
    decreases es.len(),
{
    if es.len() == 0 {
        seq![(k, v)]
    } else if es[0].0 == k {
        es.update(0, (k, v))
    } else {
        seq![es[0]] + map_insert(es.drop_first(), k, v)
    }
}

/// The entries of a map into which `pairs` were inserted one after another.
pub open spec fn insert_all(pairs: Seq<(Seq<char>, JsonNode)>) -> Seq<(Seq<char>, JsonNode)>
    decreases pairs.len(),
{
    if pairs.len() == 0 {
        Seq::empty()
    } else {
        map_insert(insert_all(pairs.drop_last()), pairs.last().0, pairs.last().1)
    }
}

/// Inserting one more pair inserts it into the map of the earlier ones.
pub proof fn lemma_insert_all_push(pairs: Seq<(Seq<char>, JsonNode)>, x: (Seq<char>, JsonNode))
    ensures
        insert_all(pairs.push(x)) == map_insert(insert_all(pairs), x.0, x.1),
{
    assert(pairs.push(x).drop_last() =~= pairs);
}

/// The JSON form of a frontmatter value: strings, arrays and objects.
pub open spec fn fm_json(v: FmView) -> JsonNode
    decreases v,
{
    match v {
        FmView::Str(s) => JsonNode::Str(s),
        FmView::Sequence(items) => JsonNode::Array(fm_json_items(items)),
        FmView::Mapping(entries) => JsonNode::Object(insert_all(fm_json_entries(entries))),
    }
}

/// The JSON forms of a list of values.
pub open spec fn fm_json_items(items: Seq<FmView>) -> Seq<JsonNode>
    decreases items,
{
    if items.len() == 0 {
        Seq::empty()
    } else {
        fm_json_items(items.drop_last()).push(fm_json(items.last()))
    }
}

/// The keys and JSON forms of a list of entries.
pub open spec fn fm_json_entries(entries: Seq<(Seq<char>, FmView)>) -> Seq<(Seq<char>, JsonNode)>
    decreases entries,
{
    if entries.len() == 0 {
        Seq::empty()
    } else {
        fm_json_entries(entries.drop_last()).push((entries.last().0, fm_json(entries.last().1)))
    }
}

/// An optional string field as a key/value pair, or nothing.
pub open spec fn optional_pair(key: Seq<char>, value: Option<Seq<char>>) -> Seq<(Seq<char>, JsonNode)> {
    match value {
        Some(v) => seq![(key, JsonNode::Str(v))],
        None => Seq::empty(),
    }
}

/// The key/value pairs of the dictionary form, in order: `name`,
/// `description`, the optional strings that are present (`allowed_tools`
/// under `allowed-tools`), `metadata` when it is not empty, then the captured
/// extended fields.
pub open spec fn dict_pairs(p: PropertiesView) -> Seq<(Seq<char>, JsonNode)> {
    seq![("name"@, JsonNode::Str(p.name)), ("description"@, JsonNode::Str(p.description))]
        + optional_pair("license"@, p.license) + optional_pair("compatibility"@, p.compatibility)
        + optional_pair("allowed-tools"@, p.allowed_tools) + (if p.metadata.len() > 0 {
        seq![
            (
                "metadata"@,
                JsonNode::Object(
                    insert_all(
                        p.metadata.map_values(
                            |e: (Seq<char>, Seq<char>)| (e.0, JsonNode::Str(e.1)),
                        ),
                    ),
                ),
            ),
        ]
    } else {
        Seq::empty()
    }) + p.claude.map_values(|e: (Seq<char>, FmView)| (e.0, fm_json(e.1)))
}

/// The dictionary form of properties, as a JSON object.
pub open spec fn dict_node(p: PropertiesView) -> JsonNode {
    JsonNode::Object(insert_all(dict_pairs(p)))
}

/// `serde_json::Map::new`: an empty map.
#[verifier::external_body]
fn json_map_new() -> (r: serde_json::Map<String, serde_json::Value>)
    ensures
        json_map_entries(r) == Seq::<(Seq<char>, JsonNode)>::empty(),
{
    serde_json::Map::new()
}

/// `serde_json::Map::insert` (with `preserve_order`, an `IndexMap`): a
/// present key keeps its place and takes the new value, a new key is
/// appended.
#[verifier::external_body]
fn json_map_insert(
    m: &mut serde_json::Map<String, serde_json::Value>,
    k: String,
    v: serde_json::Value,
)
    ensures
        json_map_entries(*final(m)) == map_insert(json_map_entries(*old(m)), k@, json_node(v)),
{
    let _ = m.insert(k, v);
}

/// `serde_json::Value::String`.
#[verifier::external_body]
fn json_string(s: String) -> (r: serde_json::Value)
    ensures
        json_node(r) == JsonNode::Str(s@),
{
    serde_json::Value::String(s)
}

/// `serde_json::Value::Array`.
#[verifier::external_body]
fn json_array(items: Vec<serde_json::Value>) -> (r: serde_json::Value)
    ensures
        json_node(r) == JsonNode::Array(items@.map_values(|x: serde_json::Value| json_node(x))),
{
    serde_json::Value::Array(items)
}

/// `serde_json::Value::Object`.
#[verifier::external_body]
fn json_object(m: serde_json::Map<String, serde_json::Value>) -> (r: serde_json::Value)
    ensures
        json_node(r) == JsonNode::Object(json_map_entries(m)),
{
    serde_json::Value::Object(m)
}

/// Calls `serde_json::to_string_pretty` (two-space indent); the text is
/// named, not stated. Serializing a `Value` to a string cannot fail (its map
/// keys are strings and the writer is a `Vec`), so the error arm, which
/// hands back the error's text, is not taken.
#[verifier::external_body]
fn json_pretty(v: &serde_json::Value) -> (r: String)
    ensures
        r@ == pretty_json_text(json_node(*v)),
{
    match serde_json::to_string_pretty(v) {
        Ok(s) => s,
        Err(e) => e.to_string(),
    }
}

/// The JSON form of a frontmatter value.
fn fm_to_json(v: &FmValue) -> (r: serde_json::Value)
    ensures
        json_node(r) == fm_json(v@),
    decreases v,
{
    match v {
        FmValue::Str(s) => json_string(s.clone()),
        FmValue::Sequence(items) => {
            proof {
                crate::yaml::lemma_view_items(items@);
            }
            let ghost vs = crate::yaml::view_items(items@);
            let mut out: Vec<serde_json::Value> = Vec::new();
            let mut i: usize = 0;
            assert(out@.map_values(|x: serde_json::Value| json_node(x)) =~= fm_json_items(vs.take(0)));
            while i < items.len()
                invariant
                    i <= items@.len(),
                    *v == FmValue::Sequence(*items),
                    vs == crate::yaml::view_items(items@),
                    vs.len() == items@.len(),
                    forall|j: int| 0 <= j < items@.len() ==> #[trigger] vs[j] == fm_view(items@[j]),
                    out@.map_values(|x: serde_json::Value| json_node(x)) == fm_json_items(vs.take(i as int)),
                decreases items@.len() - i,
            {
                assert(decreases_to!(*v => items@[i as int])) by {
                    assert(decreases_to!(*v => v->Sequence_0));
                    assert(decreases_to!(*items => items@));
                    assert(decreases_to!(items@ => items@[i as int]));
                }
                let c = fm_to_json(&items[i]);
                let ghost before = out@;
                out.push(c);
                assert(out@.map_values(|x: serde_json::Value| json_node(x)) =~= before.map_values(
                    |x: serde_json::Value| json_node(x),
                ).push(json_node(c)));
                assert(vs.take(i + 1).drop_last() =~= vs.take(i as int));
                i = i + 1;
            }
            assert(vs.take(items@.len() as int) =~= vs);
            json_array(out)
        },
        FmValue::Mapping(entries) => {
            proof {
                crate::yaml::lemma_view_entries(entries@);
            }
            let ghost es = crate::yaml::view_entries(entries@);
            let mut m = json_map_new();
            let mut i: usize = 0;
            assert(fm_json_entries(es.take(0)) =~= Seq::<(Seq<char>, JsonNode)>::empty());
            while i < entries.len()
                invariant
                    i <= entries@.len(),
                    *v == FmValue::Mapping(*entries),
                    es == crate::yaml::view_entries(entries@),
                    es.len() == entries@.len(),
                    forall|j: int|
                        0 <= j < entries@.len() ==> #[trigger] es[j] == (
                            entries@[j].0@,
                            fm_view(entries@[j].1),
                        ),
                    json_map_entries(m) == insert_all(fm_json_entries(es.take(i as int))),
                decreases entries@.len() - i,
            {
                assert(decreases_to!(*v => entries@[i as int].1)) by {
                    assert(decreases_to!(*v => v->Mapping_0));
                    assert(decreases_to!(*entries => entries@));
                    assert(decreases_to!(entries@ => entries@[i as int]));
                    assert(decreases_to!(entries@[i as int] => entries@[i as int].1));
                }
                let c = fm_to_json(&entries[i].1);
                let k = entries[i].0.clone();
                json_map_insert(&mut m, k, c);
                assert(es.take(i + 1).drop_last() =~= es.take(i as int));
                assert(fm_json_entries(es.take(i + 1)).drop_last() =~= fm_json_entries(es.take(i as int)));
                i = i + 1;
            }
            assert(es.take(entries@.len() as int) =~= es);
            json_object(m)
        },
    }
}

/// The keys of a list of entries.
pub open spec fn json_keys(es: Seq<(Seq<char>, JsonNode)>) -> Seq<Seq<char>> {
    es.map_values(|e: (Seq<char>, JsonNode)| e.0)
}

/// Inserting a key adds at most that key.
proof fn lemma_map_insert_keys(es: Seq<(Seq<char>, JsonNode)>, k: Seq<char>, v: JsonNode, x: Seq<char>)
    requires
        json_keys(map_insert(es, k, v)).contains(x),
    ensures
        json_keys(es).contains(x) || x == k,
    decreases es.len(),
{
    let r = map_insert(es, k, v);
    let i = choose|i: int| 0 <= i < json_keys(r).len() && json_keys(r)[i] == x;
    if es.len() == 0 {
    } else if es[0].0 == k {
        if i > 0 {
            assert(json_keys(es)[i] == x);
        }
    } else {
        if i == 0 {
            assert(json_keys(es)[0] == x);
        } else {
            let t = map_insert(es.drop_first(), k, v);
            assert(json_keys(t)[i - 1] == x);
            lemma_map_insert_keys(es.drop_first(), k, v, x);
            if x != k {
                let j = choose|j: int| 0 <= j < json_keys(es.drop_first()).len() && json_keys(es.drop_first())[j] == x;
                assert(json_keys(es)[j + 1] == x);
            }
        }
    }
}

/// The keys of a map built by insertions are among the inserted keys.
proof fn lemma_insert_all_keys(pairs: Seq<(Seq<char>, JsonNode)>, x: Seq<char>)
    requires
        json_keys(insert_all(pairs)).contains(x),
    ensures
        json_keys(pairs).contains(x),
    decreases pairs.len(),
{
    if pairs.len() > 0 {
        let rest = pairs.drop_last();
        lemma_map_insert_keys(insert_all(rest), pairs.last().0, pairs.last().1, x);
        if x == pairs.last().0 {
            assert(json_keys(pairs)[pairs.len() - 1] == x);
        } else {
            lemma_insert_all_keys(rest, x);
            let j = choose|j: int| 0 <= j < json_keys(rest).len() && json_keys(rest)[j] == x;
            assert(json_keys(pairs)[j] == x);
        }
    }
}

/// Inserting a key other than the first two leaves the first two in place.
proof fn lemma_map_insert_keeps_front(es: Seq<(Seq<char>, JsonNode)>, k: Seq<char>, v: JsonNode)
    requires
        es.len() >= 2,
        es[0].0 != k,
        es[1].0 != k,
    ensures
        map_insert(es, k, v).len() >= 2,
        map_insert(es, k, v)[0] == es[0],
        map_insert(es, k, v)[1] == es[1],
{
    let t = es.drop_first();
    assert(t[0] == es[1]);
    assert(map_insert(t, k, v) == seq![t[0]] + map_insert(t.drop_first(), k, v));
}

/// Pairs that begin with two distinct keys, never inserted again, keep them
/// first.
proof fn lemma_insert_all_keeps_front(pairs: Seq<(Seq<char>, JsonNode)>)
    requires
        pairs.len() >= 2,
        pairs[0].0 != pairs[1].0,
        forall|i: int| 2 <= i < pairs.len() ==> #[trigger] pairs[i].0 != pairs[0].0 && pairs[i].0 != pairs[1].0,
    ensures
        insert_all(pairs).len() >= 2,
        insert_all(pairs)[0] == pairs[0],
        insert_all(pairs)[1] == pairs[1],
    decreases pairs.len(),
{
    if pairs.len() == 2 {
        let first = pairs.drop_last();
        assert(first.drop_last() =~= Seq::<(Seq<char>, JsonNode)>::empty());
        assert(first.last() == pairs[0]);
        assert(insert_all(Seq::<(Seq<char>, JsonNode)>::empty()) == Seq::<(Seq<char>, JsonNode)>::empty());
        assert(insert_all(first) == map_insert(Seq::<(Seq<char>, JsonNode)>::empty(), pairs[0].0, pairs[0].1));
        assert(insert_all(first) =~= seq![pairs[0]]);
        assert(seq![pairs[0]][0].0 != pairs[1].0);
        assert(map_insert(Seq::<(Seq<char>, JsonNode)>::empty(), pairs[1].0, pairs[1].1) =~= seq![pairs[1]]);
        assert(seq![pairs[0]].drop_first() =~= Seq::<(Seq<char>, JsonNode)>::empty());
        assert(pairs.last() == pairs[1]);
        assert(insert_all(pairs) == map_insert(seq![pairs[0]], pairs[1].0, pairs[1].1));
        assert(map_insert(seq![pairs[0]], pairs[1].0, pairs[1].1) =~= seq![pairs[0]] + seq![pairs[1]]);
        assert(insert_all(pairs) =~= seq![pairs[0], pairs[1]]);
        assert(insert_all(pairs) == map_insert(seq![pairs[0]], pairs[1].0, pairs[1].1));
        assert(seq![pairs[0]].drop_first() =~= Seq::<(Seq<char>, JsonNode)>::empty());
    } else {
        let rest = pairs.drop_last();
        assert forall|i: int| 2 <= i < rest.len() implies #[trigger] rest[i].0 != rest[0].0 && rest[i].0 != rest[1].0 by {
            assert(rest[i] == pairs[i]);
        }
        lemma_insert_all_keeps_front(rest);
        assert(pairs.last() == pairs[pairs.len() - 1]);
        lemma_map_insert_keeps_front(insert_all(rest), pairs.last().0, pairs.last().1);
    }
}

/// The dictionary form opens with `name` and then `description`, when no
/// captured extended field reuses those keys.
pub proof fn law_dict_starts_with_name_and_description(p: PropertiesView)
    requires
        forall|i: int|
            0 <= i < p.claude.len() ==> #[trigger] p.claude[i].0 != "name"@ && p.claude[i].0
                != "description"@,
    ensures
        insert_all(dict_pairs(p)).len() >= 2,
        insert_all(dict_pairs(p))[0] == ("name"@, JsonNode::Str(p.name)),
        insert_all(dict_pairs(p))[1] == ("description"@, JsonNode::Str(p.description)),
{
    reveal_strlit("name");
    reveal_strlit("description");
    reveal_strlit("license");
    reveal_strlit("compatibility");
    reveal_strlit("allowed-tools");
    reveal_strlit("metadata");
    let head = seq![("name"@, JsonNode::Str(p.name)), ("description"@, JsonNode::Str(p.description))];
    let o1 = optional_pair("license"@, p.license);
    let o2 = optional_pair("compatibility"@, p.compatibility);
    let o3 = optional_pair("allowed-tools"@, p.allowed_tools);
    let m: Seq<(Seq<char>, JsonNode)> = if p.metadata.len() > 0 {
        seq![
            (
                "metadata"@,
                JsonNode::Object(
                    insert_all(
                        p.metadata.map_values(
                            |e: (Seq<char>, Seq<char>)| (e.0, JsonNode::Str(e.1)),
                        ),
                    ),
                ),
            ),
        ]
    } else {
        Seq::empty()
    };
    let c = p.claude.map_values(|e: (Seq<char>, FmView)| (e.0, fm_json(e.1)));
    let rest = o1 + o2 + o3 + m + c;
    let pairs = dict_pairs(p);
    assert(pairs =~= head + rest);
    assert("name"@.len() == 4);
    assert("description"@.len() == 11);
    assert("license"@.len() == 7);
    assert("compatibility"@.len() == 13);
    assert("allowed-tools"@.len() == 13);
    assert("metadata"@.len() == 8);
    assert("name"@[0] == 'n');
    assert("metadata"@[0] == 'm');
    assert forall|j: int| 0 <= j < rest.len() implies #[trigger] rest[j].0 != "name"@ && rest[j].0
        != "description"@ by {
        let a = o1.len() as int;
        let b = a + o2.len();
        let d = b + o3.len();
        let e = d + m.len();
        assert(rest == o1 + (o2 + (o3 + (m + c))));
        if j < a {
            assert(rest[j] == o1[j]);
            assert(o1[j].0 == "license"@);
        } else if j < b {
            assert(rest[j] == o2[j - a]);
            assert(o2[j - a].0 == "compatibility"@);
        } else if j < d {
            assert(rest[j] == o3[j - b]);
            assert(o3[j - b].0 == "allowed-tools"@);
        } else if j < e {
            assert(rest[j] == m[j - d]);
            assert(m[j - d].0 == "metadata"@);
        } else {
            assert(rest[j] == c[j - e]);
            assert(c[j - e].0 == p.claude[j - e].0);
        }
    }
    assert forall|i: int| 2 <= i < pairs.len() implies #[trigger] pairs[i].0 != pairs[0].0
        && pairs[i].0 != pairs[1].0 by {
        assert(pairs[i] == rest[i - 2]);
    }
    lemma_insert_all_keeps_front(pairs);
}

/// Without captured extended fields, the dictionary holds no key beyond
/// `name`, `description`, `license`, `compatibility`, `allowed-tools` and
/// `metadata`.
pub proof fn law_dict_keys_without_extended_fields(p: PropertiesView, key: Seq<char>)
    requires
        p.claude.len() == 0,
        json_keys(insert_all(dict_pairs(p))).contains(key),
    ensures
        key == "name"@ || key == "description"@ || key == "license"@ || key == "compatibility"@
            || key == "allowed-tools"@ || key == "metadata"@,
{
    lemma_insert_all_keys(dict_pairs(p), key);
    let pairs = dict_pairs(p);
    let i = choose|i: int| 0 <= i < json_keys(pairs).len() && json_keys(pairs)[i] == key;
    assert(pairs[i].0 == key);
}

/// Each key of the dictionary pairs is a base key, `metadata` only when the
/// metadata is not empty, or the key of a captured extended field.
proof fn lemma_dict_pair_key(p: PropertiesView, i: int)
    requires
        0 <= i < dict_pairs(p).len(),
    ensures
        ({
            let k = dict_pairs(p)[i].0;
            ||| k == "name"@
            ||| k == "description"@
            ||| k == "license"@
            ||| k == "compatibility"@
            ||| k == "allowed-tools"@
            ||| (k == "metadata"@ && p.metadata.len() > 0)
            ||| exists|j: int| 0 <= j < p.claude.len() && #[trigger] p.claude[j].0 == k
        }),
{
    let head = seq![("name"@, JsonNode::Str(p.name)), ("description"@, JsonNode::Str(p.description))];
    let o1 = optional_pair("license"@, p.license);
    let o2 = optional_pair("compatibility"@, p.compatibility);
    let o3 = optional_pair("allowed-tools"@, p.allowed_tools);
    let m: Seq<(Seq<char>, JsonNode)> = if p.metadata.len() > 0 {
        seq![
            (
                "metadata"@,
                JsonNode::Object(
                    insert_all(
                        p.metadata.map_values(
                            |e: (Seq<char>, Seq<char>)| (e.0, JsonNode::Str(e.1)),
                        ),
                    ),
                ),
            ),
        ]
    } else {
        Seq::empty()
    };
    let c = p.claude.map_values(|e: (Seq<char>, FmView)| (e.0, fm_json(e.1)));
    let pairs = dict_pairs(p);
    assert(pairs =~= head + (o1 + (o2 + (o3 + (m + c)))));
    let a = 2 + o1.len();
    let b = a + o2.len();
    let d = b + o3.len();
    let e = d + m.len();
    if i < 2 {
    } else if i < a {
        assert(pairs[i] == o1[i - 2]);
    } else if i < b {
        assert(pairs[i] == o2[i - a]);
    } else if i < d {
        assert(pairs[i] == o3[i - b]);
    } else if i < e {
        assert(pairs[i] == m[i - d]);
    } else {
        assert(pairs[i] == c[i - e]);
        assert(p.claude[i - e].0 == pairs[i].0);
    }
}

/// A map insertion holds the pair it inserts.
proof fn lemma_map_insert_holds(es: Seq<(Seq<char>, JsonNode)>, k: Seq<char>, v: JsonNode)
    ensures
        map_insert(es, k, v).contains((k, v)),
    decreases es.len(),
{
    if es.len() == 0 || es[0].0 == k {
        assert(map_insert(es, k, v)[0] == (k, v));
    } else {
        lemma_map_insert_holds(es.drop_first(), k, v);
        let r = map_insert(es.drop_first(), k, v);
        let j = choose|j: int| 0 <= j < r.len() && r[j] == (k, v);
        assert(map_insert(es, k, v)[j + 1] == (k, v));
    }
}

/// A map insertion keeps the pairs of the other keys.
proof fn lemma_map_insert_keeps(
    es: Seq<(Seq<char>, JsonNode)>,
    k: Seq<char>,
    v: JsonNode,
    x: (Seq<char>, JsonNode),
)
    requires
        es.contains(x),
        x.0 != k,
    ensures
        map_insert(es, k, v).contains(x),
    decreases es.len(),
{
    let i = choose|i: int| 0 <= i < es.len() && es[i] == x;
    if es[0].0 == k {
        assert(map_insert(es, k, v)[i] == x);
    } else if i == 0 {
        assert(map_insert(es, k, v)[0] == x);
    } else {
        assert(es.drop_first()[i - 1] == x);
        lemma_map_insert_keeps(es.drop_first(), k, v, x);
        let r = map_insert(es.drop_first(), k, v);
        let j = choose|j: int| 0 <= j < r.len() && r[j] == x;
        assert(map_insert(es, k, v)[j + 1] == x);
    }
}

/// A pair whose key no later pair reuses is in the map of all the pairs.
proof fn lemma_insert_all_holds(pairs: Seq<(Seq<char>, JsonNode)>, i: int)
    requires
        0 <= i < pairs.len(),
        forall|j: int| i < j < pairs.len() ==> #[trigger] pairs[j].0 != pairs[i].0,
    ensures
        insert_all(pairs).contains(pairs[i]),
    decreases pairs.len(),
{
    let rest = pairs.drop_last();
    if i == pairs.len() - 1 {
        lemma_map_insert_holds(insert_all(rest), pairs.last().0, pairs.last().1);
    } else {
        assert(rest[i] == pairs[i]);
        assert forall|j: int| i < j < rest.len() implies #[trigger] rest[j].0 != rest[i].0 by {
            assert(rest[j] == pairs[j]);
        }
        lemma_insert_all_holds(rest, i);
        assert(pairs[pairs.len() - 1].0 != pairs[i].0);
        lemma_map_insert_keeps(insert_all(rest), pairs.last().0, pairs.last().1, pairs[i]);
    }
}

/// The dictionary form holds `license`, `compatibility` and `allowed-tools`
/// with their strings exactly when they are present (when no captured
/// extended field reuses those keys).
pub proof fn law_dict_holds_present_optional_fields(p: PropertiesView)
    requires
        forall|i: int|
            0 <= i < p.claude.len() ==> #[trigger] p.claude[i].0 != "license"@ && p.claude[i].0
                != "compatibility"@ && p.claude[i].0 != "allowed-tools"@,
    ensures
        dict_node(p) is Object,
        p.license is Some ==> dict_node(p)->Object_0.contains(("license"@, JsonNode::Str(p.license->0))),
        p.compatibility is Some ==> dict_node(p)->Object_0.contains(
            ("compatibility"@, JsonNode::Str(p.compatibility->0)),
        ),
        p.allowed_tools is Some ==> dict_node(p)->Object_0.contains(
            ("allowed-tools"@, JsonNode::Str(p.allowed_tools->0)),
        ),
        p.license is None ==> !json_keys(dict_node(p)->Object_0).contains("license"@),
        p.compatibility is None ==> !json_keys(dict_node(p)->Object_0).contains("compatibility"@),
        p.allowed_tools is None ==> !json_keys(dict_node(p)->Object_0).contains("allowed-tools"@),
{
    reveal_strlit("name");
    reveal_strlit("description");
    reveal_strlit("license");
    reveal_strlit("compatibility");
    reveal_strlit("allowed-tools");
    reveal_strlit("metadata");
    assert("name"@.len() == 4);
    assert("description"@.len() == 11);
    assert("license"@.len() == 7);
    assert("compatibility"@.len() == 13);
    assert("allowed-tools"@.len() == 13);
    assert("metadata"@.len() == 8);
    assert("compatibility"@[0] == 'c');
    assert("allowed-tools"@[0] == 'a');
    let head = seq![("name"@, JsonNode::Str(p.name)), ("description"@, JsonNode::Str(p.description))];
    let o1 = optional_pair("license"@, p.license);
    let o2 = optional_pair("compatibility"@, p.compatibility);
    let o3 = optional_pair("allowed-tools"@, p.allowed_tools);
    let m: Seq<(Seq<char>, JsonNode)> = if p.metadata.len() > 0 {
        seq![
            (
                "metadata"@,
                JsonNode::Object(
                    insert_all(
                        p.metadata.map_values(
                            |e: (Seq<char>, Seq<char>)| (e.0, JsonNode::Str(e.1)),
                        ),
                    ),
                ),
            ),
        ]
    } else {
        Seq::empty()
    };
    let c = p.claude.map_values(|e: (Seq<char>, FmView)| (e.0, fm_json(e.1)));
    let pairs = dict_pairs(p);
    assert(pairs =~= head + (o1 + (o2 + (o3 + (m + c)))));
    let a: int = 2 + o1.len() as int;
    let b: int = a + o2.len();
    let d: int = b + o3.len();
    let e: int = d + m.len();
    // The key of each pair, by the part of the pairs it falls in.
    assert forall|j: int| 0 <= j < pairs.len() implies {
        let k = #[trigger] pairs[j].0;
        &&& (j < 2 ==> (k == "name"@ || k == "description"@))
        &&& (2 <= j < a ==> k == "license"@)
        &&& (a <= j < b ==> k == "compatibility"@)
        &&& (b <= j < d ==> k == "allowed-tools"@)
        &&& (d <= j < e ==> k == "metadata"@)
        &&& (e <= j ==> k == p.claude[j - e].0)
    } by {
        if j < 2 {
        } else if j < a {
            assert(pairs[j] == o1[j - 2]);
        } else if j < b {
            assert(pairs[j] == o2[j - a]);
        } else if j < d {
            assert(pairs[j] == o3[j - b]);
        } else if j < e {
            assert(pairs[j] == m[j - d]);
        } else {
            assert(pairs[j] == c[j - e]);
        }
    }
    if p.license is Some {
        assert(pairs[2] == ("license"@, JsonNode::Str(p.license->0)));
        lemma_insert_all_holds(pairs, 2);
    }
    if p.compatibility is Some {
        assert(pairs[a] == ("compatibility"@, JsonNode::Str(p.compatibility->0)));
        lemma_insert_all_holds(pairs, a);
    }
    if p.allowed_tools is Some {
        assert(pairs[b] == ("allowed-tools"@, JsonNode::Str(p.allowed_tools->0)));
        lemma_insert_all_holds(pairs, b);
    }
    let es = insert_all(pairs);
    assert forall|key: Seq<char>|
        #![trigger json_keys(es).contains(key)]
        (key == "license"@ && p.license is None) || (key == "compatibility"@ && p.compatibility is None)
            || (key == "allowed-tools"@ && p.allowed_tools is None) implies !json_keys(es).contains(key) by {
        if json_keys(es).contains(key) {
            lemma_insert_all_keys(pairs, key);
            let j = choose|j: int| 0 <= j < json_keys(pairs).len() && json_keys(pairs)[j] == key;
            assert(pairs[j].0 == key);
        }
    }
}

/// The dictionary form has no `metadata` entry when the metadata is empty
/// (and no captured extended field is named so).
pub proof fn law_dict_omits_empty_metadata(p: PropertiesView)
    requires
        p.metadata.len() == 0,
        forall|i: int| 0 <= i < p.claude.len() ==> #[trigger] p.claude[i].0 != "metadata"@,
    ensures
        !json_keys(insert_all(dict_pairs(p))).contains("metadata"@),
{
    reveal_strlit("name");
    reveal_strlit("description");
    reveal_strlit("license");
    reveal_strlit("compatibility");
    reveal_strlit("allowed-tools");
    reveal_strlit("metadata");
    assert("name"@.len() == 4);
    assert("description"@.len() == 11);
    assert("license"@.len() == 7);
    assert("compatibility"@.len() == 13);
    assert("allowed-tools"@.len() == 13);
    assert("metadata"@.len() == 8);
    assert("compatibility"@[0] == 'c');
    assert("allowed-tools"@[0] == 'a');
    if json_keys(insert_all(dict_pairs(p))).contains("metadata"@) {
        lemma_insert_all_keys(dict_pairs(p), "metadata"@);
        let pairs = dict_pairs(p);
        let i = choose|i: int| 0 <= i < json_keys(pairs).len() && json_keys(pairs)[i] == "metadata"@;
        assert(pairs[i].0 == "metadata"@);
        lemma_dict_pair_key(p, i);
    }
}

impl SkillProperties {
    /// Convert to a JSON object, leaving out absent values: `name`,
    /// `description`, then whichever of `license`, `compatibility`,
    /// `allowed-tools` and a non-empty `metadata` are present, then the
    /// captured extended fields.
    pub fn to_dict(&self) -> (r: serde_json::Value)
        ensures
            json_node(r) == dict_node(self@),
    {
        proof {
            reveal_strlit("name");
            reveal_strlit("description");
            reveal_strlit("license");
            reveal_strlit("compatibility");
            reveal_strlit("allowed-tools");
            reveal_strlit("metadata");
        }
        let ghost p = self@;
        let ghost mut pairs: Seq<(Seq<char>, JsonNode)> = Seq::empty();
        let mut m = json_map_new();
        json_map_insert(&mut m, owned("name"), json_string(self.name.clone()));
        proof {
            lemma_insert_all_push(pairs, ("name"@, JsonNode::Str(p.name)));
            pairs = pairs.push(("name"@, JsonNode::Str(p.name)));
        }
        json_map_insert(&mut m, owned("description"), json_string(self.description.clone()));
        proof {
            lemma_insert_all_push(pairs, ("description"@, JsonNode::Str(p.description)));
            pairs = pairs.push(("description"@, JsonNode::Str(p.description)));
        }
        assert(json_map_entries(m) == insert_all(pairs));
        if let Some(license) = &self.license {
            json_map_insert(&mut m, owned("license"), json_string(license.clone()));
            proof {
                lemma_insert_all_push(pairs, ("license"@, JsonNode::Str(license@)));
                pairs = pairs.push(("license"@, JsonNode::Str(license@)));
            }
        }
        assert(pairs =~= seq![("name"@, JsonNode::Str(p.name)), ("description"@, JsonNode::Str(p.description))]
            + optional_pair("license"@, p.license));
        if let Some(compatibility) = &self.compatibility {
            json_map_insert(&mut m, owned("compatibility"), json_string(compatibility.clone()));
            proof {
                lemma_insert_all_push(pairs, ("compatibility"@, JsonNode::Str(compatibility@)));
                pairs = pairs.push(("compatibility"@, JsonNode::Str(compatibility@)));
            }
        }
        assert(pairs =~= seq![("name"@, JsonNode::Str(p.name)), ("description"@, JsonNode::Str(p.description))]
            + optional_pair("license"@, p.license) + optional_pair("compatibility"@, p.compatibility));
        if let Some(allowed_tools) = &self.allowed_tools {
            json_map_insert(&mut m, owned("allowed-tools"), json_string(allowed_tools.clone()));
            proof {
                lemma_insert_all_push(pairs, ("allowed-tools"@, JsonNode::Str(allowed_tools@)));
                pairs = pairs.push(("allowed-tools"@, JsonNode::Str(allowed_tools@)));
            }
        }
        let ghost base = seq![("name"@, JsonNode::Str(p.name)), ("description"@, JsonNode::Str(p.description))]
            + optional_pair("license"@, p.license) + optional_pair("compatibility"@, p.compatibility)
            + optional_pair("allowed-tools"@, p.allowed_tools);
        assert(pairs =~= base);
        let ghost meta_pairs = p.metadata.map_values(
            |e: (Seq<char>, Seq<char>)| (e.0, JsonNode::Str(e.1)),
        );
        if self.metadata.len() > 0 {
            let mut meta = json_map_new();
            let mut i: usize = 0;
            assert(meta_pairs.take(0) =~= Seq::<(Seq<char>, JsonNode)>::empty());
            while i < self.metadata.len()
                invariant
                    i <= self.metadata@.len(),
                    p == self@,
                    meta_pairs == p.metadata.map_values(
                        |e: (Seq<char>, Seq<char>)| (e.0, JsonNode::Str(e.1)),
                    ),
                    json_map_entries(meta) == insert_all(meta_pairs.take(i as int)),
                decreases self.metadata@.len() - i,
            {
                let k = self.metadata[i].0.clone();
                let v = json_string(self.metadata[i].1.clone());
                json_map_insert(&mut meta, k, v);
                assert(meta_pairs.take(i + 1).drop_last() =~= meta_pairs.take(i as int));
                i = i + 1;
            }
            assert(meta_pairs.take(self.metadata@.len() as int) =~= meta_pairs);
            json_map_insert(&mut m, owned("metadata"), json_object(meta));
            proof {
                lemma_insert_all_push(pairs, ("metadata"@, JsonNode::Object(insert_all(meta_pairs))));
                pairs = pairs.push(("metadata"@, JsonNode::Object(insert_all(meta_pairs))));
            }
        }
        let ghost with_meta = base + (if p.metadata.len() > 0 {
            seq![("metadata"@, JsonNode::Object(insert_all(meta_pairs)))]
        } else {
            Seq::empty()
        });
        assert(pairs =~= with_meta);
        let ghost claude_pairs = p.claude.map_values(|e: (Seq<char>, FmView)| (e.0, fm_json(e.1)));
        let mut j: usize = 0;
        assert(with_meta + claude_pairs.take(0) =~= with_meta);
        while j < self.claude.len()
            invariant
                j <= self.claude@.len(),
                p == self@,
                claude_pairs == p.claude.map_values(|e: (Seq<char>, FmView)| (e.0, fm_json(e.1))),
                json_map_entries(m) == insert_all(with_meta + claude_pairs.take(j as int)),
            decreases self.claude@.len() - j,
        {
            let k = self.claude[j].0.clone();
            let v = fm_to_json(&self.claude[j].1);
            json_map_insert(&mut m, k, v);
            assert((with_meta + claude_pairs.take(j + 1)).drop_last() =~= with_meta + claude_pairs.take(
                j as int,
            ));
            j = j + 1;
        }
        assert(claude_pairs.take(self.claude@.len() as int) =~= claude_pairs);
        assert(with_meta + claude_pairs =~= dict_pairs(p));
        json_object(m)
    }

    /// The dictionary form as pretty JSON (two-space indent).
    pub fn to_json(&self) -> (r: String)
        ensures
            r@ == pretty_json_text(dict_node(self@)),
    {
        let d = self.to_dict();
        json_pretty(&d)
    }
}

} // verus!
