//! Reading YAML text through `serde_yaml` into the frontmatter model, with
//! every scalar coerced to its string form (`None`, `True`/`False`, numbers in
//! decimal).

use vstd::prelude::*;
use crate::text::{decimal, i64_to_decimal, owned, signed_decimal, u64_to_decimal};
use crate::yaml::{flat_text, FmValue, FmView, Frontmatter};

verus! {

#[verifier::external_type_specification]
#[verifier::external_body]
pub struct ExYamlValue(serde_yaml::Value);

#[verifier::external_type_specification]
#[verifier::external_body]
pub struct ExYamlNumber(serde_yaml::Number);

#[verifier::external_type_specification]
#[verifier::external_body]
pub struct ExYamlMapping(serde_yaml::Mapping);

/// What a YAML number answers when asked for each of its forms.
pub struct NumberForms {
    /// `Number::as_i64`.
    pub int: Option<i64>,
    /// `Number::as_u64`.
    pub uint: Option<u64>,
    /// `Number::as_f64`, rendered with `{:?}`.
    pub float: Option<Seq<char>>,
}

/// The content of a parsed YAML value.
pub enum YamlNode {
    Null,
    Bool(bool),
    Number(NumberForms),
    Str(Seq<char>),
    Sequence(Seq<YamlNode>),
    Mapping(Seq<(YamlNode, YamlNode)>),
    Tagged,
}

/// The content of a `serde_yaml::Value`.
pub uninterp spec fn yaml_node(v: serde_yaml::Value) -> YamlNode;

/// The forms of a `serde_yaml::Number`.
pub uninterp spec fn number_forms(n: serde_yaml::Number) -> NumberForms;

/// The entries of a `serde_yaml::Mapping`, in iteration order.
pub uninterp spec fn mapping_entries(m: serde_yaml::Mapping) -> Seq<(YamlNode, YamlNode)>;

/// What `serde_yaml::from_str::<Value>` gives for a text: the document's
/// content, or the error's message.
pub uninterp spec fn yaml_document(text: Seq<char>) -> Result<YamlNode, Seq<char>>;

/// A borrowed look at one `serde_yaml::Value`, telling its variants apart.
pub enum YamlRef<'a> {
    Null,
    Bool(bool),
    Number(&'a serde_yaml::Number),
    Str(&'a String),
    Sequence(&'a Vec<serde_yaml::Value>),
    Mapping(&'a serde_yaml::Mapping),
    Tagged,
}

/// Calls `serde_yaml::from_str` for a `serde_yaml::Value`; on failure hands
/// back the error's `Display` text. The contract only names the outcome
/// (`yaml_document`); the YAML grammar itself is not stated.
#[verifier::external_body]
fn parse_yaml(text: &str) -> (r: Result<serde_yaml::Value, String>)
    ensures
        match r {
            Ok(v) => yaml_document(text@) == Ok::<YamlNode, Seq<char>>(yaml_node(v)),
            Err(e) => yaml_document(text@) == Err::<YamlNode, Seq<char>>(e@),
        },
{
    match serde_yaml::from_str::<serde_yaml::Value>(text) {
        Ok(v) => Ok(v),
        Err(e) => Err(e.to_string()),
    }
}

/// Matches on the variants of `serde_yaml::Value`, one arm each; the contract
/// states that the variant and its payload are those of the value's content.
#[verifier::external_body]
fn look(v: &serde_yaml::Value) -> (r: YamlRef<'_>)
    ensures
        match r {
            YamlRef::Null => yaml_node(*v) is Null,
            YamlRef::Bool(b) => yaml_node(*v) == YamlNode::Bool(b),
            YamlRef::Number(n) => yaml_node(*v) == YamlNode::Number(number_forms(*n)),
            YamlRef::Str(s) => yaml_node(*v) == YamlNode::Str(s@),
            YamlRef::Sequence(items) => yaml_node(*v) == YamlNode::Sequence(
                items@.map_values(|x: serde_yaml::Value| yaml_node(x)),
            ),
            YamlRef::Mapping(m) => yaml_node(*v) == YamlNode::Mapping(mapping_entries(*m)),
            YamlRef::Tagged => yaml_node(*v) is Tagged,
        },
{
    match v {
        serde_yaml::Value::Null => YamlRef::Null,
        serde_yaml::Value::Bool(b) => YamlRef::Bool(*b),
        serde_yaml::Value::Number(n) => YamlRef::Number(n),
        serde_yaml::Value::String(s) => YamlRef::Str(s),
        serde_yaml::Value::Sequence(items) => YamlRef::Sequence(items),
        serde_yaml::Value::Mapping(m) => YamlRef::Mapping(m),
        serde_yaml::Value::Tagged(_) => YamlRef::Tagged,
    }
}

/// `Number::as_i64`: the number as an `i64` when it is an integer that fits.
pub assume_specification[ serde_yaml::Number::as_i64 ](n: &serde_yaml::Number) -> (r: Option<i64>)
    ensures
        r == number_forms(*n).int,
;

/// `Number::as_u64`: the number as a `u64` when it is a non-negative integer.
pub assume_specification[ serde_yaml::Number::as_u64 ](n: &serde_yaml::Number) -> (r: Option<u64>)
    ensures
        r == number_forms(*n).uint,
;

/// Calls `Number::as_f64` and renders the result with `{:?}` (so `1.0`
/// stays `1.0`); the rendering is named by `number_forms`, not stated.
#[verifier::external_body]
fn float_text(n: &serde_yaml::Number) -> (r: Option<String>)
    ensures
        match r {
            Some(t) => number_forms(*n).float == Some(t@),
            None => number_forms(*n).float is None,
        },
{
    match n.as_f64() {
        Some(x) => Some(format!("{x:?}")),
        None => None,
    }
}

/// Collects `Mapping::iter`, which yields the entries in insertion (document)
/// order.
#[verifier::external_body]
fn entries_of(m: &serde_yaml::Mapping) -> (r: Vec<(&serde_yaml::Value, &serde_yaml::Value)>)
    ensures
        r@.map_values(|e: (&serde_yaml::Value, &serde_yaml::Value)| (yaml_node(*e.0), yaml_node(*e.1)))
            == mapping_entries(*m),
{
    m.iter().collect()
}


/// The string form of a scalar: `None` for null, `True`/`False` for booleans,
/// the text of a string, a number in decimal (its float rendering when it is
/// no integer). `None` for sequences, mappings and tagged values.
pub open spec fn scalar_text(n: YamlNode) -> Option<Seq<char>> {
    match n {
        YamlNode::Null => Some("None"@),
        YamlNode::Bool(b) => Some(
            if b {
                "True"@
            } else {
                "False"@
            },
        ),
        YamlNode::Str(s) => Some(s),
        YamlNode::Number(f) => match f.int {
            Some(i) => Some(signed_decimal(i as int)),
            None => match f.uint {
                Some(u) => Some(decimal(u as nat)),
                None => f.float,
            },
        },
        _ => None,
    }
}

/// The frontmatter value a YAML value converts to: structure kept, every
/// scalar turned into its string form (the empty string where it has none).
pub open spec fn convert_spec(n: YamlNode) -> FmView
    decreases n,
{
    match n {
        YamlNode::Sequence(items) => FmView::Sequence(convert_items(items)),
        YamlNode::Mapping(entries) => FmView::Mapping(convert_entries(entries)),
        _ => FmView::Str(
            match scalar_text(n) {
                Some(t) => t,
                None => Seq::empty(),
            },
        ),
    }
}

/// The conversions of a list of values.
pub open spec fn convert_items(items: Seq<YamlNode>) -> Seq<FmView>
    decreases items,
{
    if items.len() == 0 {
        Seq::empty()
    } else {
        convert_items(items.drop_last()).push(convert_spec(items.last()))
    }
}

/// The conversions of mapping entries: a key becomes its string form, or the
/// flat rendering of its conversion where it is no scalar.
pub open spec fn convert_entries(entries: Seq<(YamlNode, YamlNode)>) -> Seq<(Seq<char>, FmView)>
    decreases entries,
{
    if entries.len() == 0 {
        Seq::empty()
    } else {
        convert_entries(entries.drop_last()).push(
            (
                match scalar_text(entries.last().0) {
                    Some(t) => t,
                    None => flat_text(convert_spec(entries.last().0)),
                },
                convert_spec(entries.last().1),
            ),
        )
    }
}

/// The string form of a scalar value.
fn scalar_to_string(v: &serde_yaml::Value) -> (r: Option<String>)
    ensures
        match r {
            Some(t) => scalar_text(yaml_node(*v)) == Some(t@),
            None => scalar_text(yaml_node(*v)) is None,
        },
{
    proof {
        reveal_strlit("None");
        reveal_strlit("True");
        reveal_strlit("False");
    }
    match look(v) {
        YamlRef::Null => Some(owned("None")),
        YamlRef::Bool(b) => Some(
            if b {
                owned("True")
            } else {
                owned("False")
            },
        ),
        YamlRef::Str(s) => Some(s.clone()),
        YamlRef::Number(n) => match n.as_i64() {
            Some(i) => Some(i64_to_decimal(i)),
            None => match n.as_u64() {
                Some(u) => Some(u64_to_decimal(u)),
                None => float_text(n),
            },
        },
        _ => None,
    }
}

/// Converts a parsed YAML value into a frontmatter value, coercing every
/// scalar to a string.
fn convert(v: &serde_yaml::Value) -> (r: FmValue)
    ensures
        r@ == convert_spec(yaml_node(*v)),
    decreases yaml_node(*v),
{
    match look(v) {
        YamlRef::Sequence(items) => {
            let ghost nodes = items@.map_values(|x: serde_yaml::Value| yaml_node(x));
            let mut out: Vec<FmValue> = Vec::new();
            let mut i: usize = 0;
            assert(nodes.take(0) =~= Seq::<YamlNode>::empty());
            assert(out@ =~= Seq::<FmValue>::empty());
            while i < items.len()
                invariant
                    i <= items@.len(),
                    nodes == items@.map_values(|x: serde_yaml::Value| yaml_node(x)),
                    yaml_node(*v) == YamlNode::Sequence(nodes),
                    crate::yaml::view_items(out@) == convert_items(nodes.take(i as int)),
                decreases items@.len() - i,
            {
                assert(decreases_to!(yaml_node(*v) => yaml_node(items@[i as int]))) by {
                    assert(decreases_to!(yaml_node(*v) => yaml_node(*v)->Sequence_0));
                    assert(nodes[i as int] == yaml_node(items@[i as int]));
                }
                let c = convert(&items[i]);
                let ghost before = out@;
                out.push(c);
                assert(out@.drop_last() =~= before);
                assert(nodes.take(i + 1).drop_last() =~= nodes.take(i as int));
                i = i + 1;
            }
            assert(nodes.take(items@.len() as int) =~= nodes);
            FmValue::Sequence(out)
        },
        YamlRef::Mapping(m) => {
            let pairs = entries_of(m);
            let ghost nodes = pairs@.map_values(
                |e: (&serde_yaml::Value, &serde_yaml::Value)| (yaml_node(*e.0), yaml_node(*e.1)),
            );
            let mut out: Vec<(String, FmValue)> = Vec::new();
            let mut i: usize = 0;
            assert(nodes.take(0) =~= Seq::<(YamlNode, YamlNode)>::empty());
            assert(out@ =~= Seq::<(String, FmValue)>::empty());
            while i < pairs.len()
                invariant
                    i <= pairs@.len(),
                    nodes == pairs@.map_values(
                        |e: (&serde_yaml::Value, &serde_yaml::Value)|
                            (yaml_node(*e.0), yaml_node(*e.1)),
                    ),
                    yaml_node(*v) == YamlNode::Mapping(nodes),
                    crate::yaml::view_entries(out@) == convert_entries(nodes.take(i as int)),
                decreases pairs@.len() - i,
            {
                let (k, val) = pairs[i];
                assert(nodes[i as int] == (yaml_node(*k), yaml_node(*val)));
                assert(decreases_to!(yaml_node(*v) => yaml_node(*k))) by {
                    assert(decreases_to!(yaml_node(*v) => yaml_node(*v)->Mapping_0));
                    assert(decreases_to!(nodes => nodes[i as int]));
                    assert(decreases_to!(nodes[i as int] => nodes[i as int].0));
                }
                assert(decreases_to!(yaml_node(*v) => yaml_node(*val))) by {
                    assert(decreases_to!(yaml_node(*v) => yaml_node(*v)->Mapping_0));
                    assert(decreases_to!(nodes => nodes[i as int]));
                    assert(decreases_to!(nodes[i as int] => nodes[i as int].1));
                }
                let key = match scalar_to_string(k) {
                    Some(t) => t,
                    None => {
                        let ck = convert(k);
                        ck.to_flat_string()
                    },
                };
                let c = convert(val);
                let ghost before = out@;
                out.push((key, c));
                assert(out@.drop_last() =~= before);
                assert(nodes.take(i + 1).drop_last() =~= nodes.take(i as int));
                i = i + 1;
            }
            assert(nodes.take(pairs@.len() as int) =~= nodes);
            FmValue::Mapping(out)
        },
        _ => {
            let t = match scalar_to_string(v) {
                Some(t) => t,
                None => String::new(),
            };
            FmValue::Str(t)
        },
    }
}

/// Parses a YAML frontmatter text into a [`Frontmatter`] mapping: `Ok(None)`
/// when the document is valid YAML but no mapping, `Err` with the YAML
/// error's message when it is malformed.
pub fn parse_mapping(frontmatter: &str) -> (r: Result<Option<Frontmatter>, String>)
    ensures
        match yaml_document(frontmatter@) {
            Err(e) => r matches Err(m) && m@ == e,
            Ok(n) => match convert_spec(n) {
                FmView::Mapping(es) => r matches Ok(Some(fm)) && fm@ == es,
                _ => r matches Ok(None),
            },
        },
{
    match parse_yaml(frontmatter) {
        Err(e) => Err(e),
        Ok(value) => match convert(&value) {
            FmValue::Mapping(entries) => Ok(Some(Frontmatter::from_entries(entries))),
            _ => Ok(None),
        },
    }
}

} // verus!
