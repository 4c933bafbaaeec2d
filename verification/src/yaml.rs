//! Frontmatter value model: every YAML scalar is held as a string, while
//! mappings and sequences keep their structure.

use vstd::prelude::*;
use crate::order::{insert_sorted, lemma_sorted_of, sorted_of, strictly_sorted, texts};
use crate::text::{push_char, str_eq};
pub use crate::yaml_source::parse_mapping;

verus! {

/// A frontmatter value, normalized so that all scalars are strings.
#[derive(Debug)]
pub enum FmValue {
    Str(String),
    Sequence(Vec<FmValue>),
    Mapping(Vec<(String, FmValue)>),
}

/// The abstract content of a frontmatter value: its strings as character
/// sequences, its structure as it is.
pub enum FmView {
    Str(Seq<char>),
    Sequence(Seq<FmView>),
    Mapping(Seq<(Seq<char>, FmView)>),
}

/// The abstract content of a value.
pub open spec fn fm_view(v: FmValue) -> FmView
    decreases v,
{
    match v {
        FmValue::Str(s) => FmView::Str(s@),
        FmValue::Sequence(items) => FmView::Sequence(view_items(items@)),
        FmValue::Mapping(entries) => FmView::Mapping(view_entries(entries@)),
    }
}

/// The abstract contents of a list of values.
pub open spec fn view_items(items: Seq<FmValue>) -> Seq<FmView>
    decreases items,
{
    if items.len() == 0 {
        Seq::empty()
    } else {
        view_items(items.drop_last()).push(fm_view(items.last()))
    }
}

/// The abstract contents of a list of keyed values.
pub open spec fn view_entries(entries: Seq<(String, FmValue)>) -> Seq<(Seq<char>, FmView)>
    decreases entries,
{
    if entries.len() == 0 {
        Seq::empty()
    } else {
        view_entries(entries.drop_last()).push((entries.last().0@, fm_view(entries.last().1)))
    }
}

/// `view_items` maps each value to its view.
pub proof fn lemma_view_items(items: Seq<FmValue>)
    ensures
        view_items(items).len() == items.len(),
        forall|i: int| 0 <= i < items.len() ==> #[trigger] view_items(items)[i] == fm_view(items[i]),
    decreases items.len(),
{
    if items.len() > 0 {
        lemma_view_items(items.drop_last());
    }
}

/// `view_entries` maps each entry to its key's characters and its value's view.
pub proof fn lemma_view_entries(entries: Seq<(String, FmValue)>)
    ensures
        view_entries(entries).len() == entries.len(),
        forall|i: int|
            0 <= i < entries.len() ==> #[trigger] view_entries(entries)[i] == (
                entries[i].0@,
                fm_view(entries[i].1),
            ),
    decreases entries.len(),
{
    if entries.len() > 0 {
        lemma_view_entries(entries.drop_last());
    }
}

impl View for FmValue {
    type V = FmView;

    open spec fn view(&self) -> FmView {
        fm_view(*self)
    }
}

/// `'s'`: the text wrapped in single quotes.
pub open spec fn quoted(s: Seq<char>) -> Seq<char> {
    seq!['\''] + s + seq!['\'']
}

/// The rendering of one mapping entry: `'key': 'value'`.
pub open spec fn entry_text(key: Seq<char>, value: Seq<char>) -> Seq<char> {
    quoted(key) + seq![':', ' '] + quoted(value)
}

/// The flat rendering of a value: a scalar as itself, a sequence as
/// `['a', 'b']`, a mapping as `{'k': 'v'}`.
pub open spec fn flat_text(v: FmView) -> Seq<char>
    decreases v,
{
    match v {
        FmView::Str(s) => s,
        FmView::Sequence(items) => seq!['['] + flat_items(items) + seq![']'],
        FmView::Mapping(entries) => seq!['{'] + flat_entries(entries) + seq!['}'],
    }
}

/// The quoted flat renderings of `items`, separated by `", "`.
pub open spec fn flat_items(items: Seq<FmView>) -> Seq<char>
    decreases items,
{
    if items.len() == 0 {
        Seq::empty()
    } else if items.len() == 1 {
        quoted(flat_text(items[0]))
    } else {
        flat_items(items.drop_last()) + seq![',', ' '] + quoted(flat_text(items.last()))
    }
}

/// The renderings of `entries`, separated by `", "`.
pub open spec fn flat_entries(entries: Seq<(Seq<char>, FmView)>) -> Seq<char>
    decreases entries,
{
    if entries.len() == 0 {
        Seq::empty()
    } else if entries.len() == 1 {
        entry_text(entries[0].0, flat_text(entries[0].1))
    } else {
        flat_entries(entries.drop_last()) + seq![',', ' '] + entry_text(
            entries.last().0,
            flat_text(entries.last().1),
        )
    }
}

impl Clone for FmValue {
    fn clone(&self) -> (r: Self)
        ensures
            r@ == self@,
    {
        self.deep_clone()
    }
}

impl FmValue {
    /// The string if this is a scalar, else `None`.
    pub fn as_str(&self) -> (r: Option<&str>)
        ensures
            r is Some <==> self@ is Str,
            self@ matches FmView::Str(s) ==> r.unwrap()@ == s,
    {
        match self {
            FmValue::Str(s) => Some(s.as_str()),
            _ => None,
        }
    }

    /// A copy of the value, holding the same content.
    pub fn deep_clone(&self) -> (r: FmValue)
        ensures
            r@ == self@,
        decreases self,
    {
        match self {
            FmValue::Str(s) => FmValue::Str(s.clone()),
            FmValue::Sequence(items) => {
                let mut out: Vec<FmValue> = Vec::new();
                let mut i: usize = 0;
                assert(out@ =~= items@.take(0));
                while i < items.len()
                    invariant
                        i <= items@.len(),
                        *self == FmValue::Sequence(*items),
                        view_items(out@) == view_items(items@.take(i as int)),
                    decreases items@.len() - i,
                {
                    assert(decreases_to!(*self => items@[i as int])) by {
                        assert(decreases_to!(*self => self->Sequence_0));
                        assert(decreases_to!(*items => items@));
                        assert(decreases_to!(items@ => items@[i as int]));
                    }
                    let c = items[i].deep_clone();
                    let ghost before = out@;
                    out.push(c);
                    assert(out@.drop_last() =~= before);
                    assert(items@.take(i + 1).drop_last() =~= items@.take(i as int));
                    i = i + 1;
                }
                assert(items@.take(items@.len() as int) =~= items@);
                FmValue::Sequence(out)
            },
            FmValue::Mapping(entries) => {
                let mut out: Vec<(String, FmValue)> = Vec::new();
                let mut i: usize = 0;
                assert(out@ =~= entries@.take(0));
                while i < entries.len()
                    invariant
                        i <= entries@.len(),
                        *self == FmValue::Mapping(*entries),
                        view_entries(out@) == view_entries(entries@.take(i as int)),
                    decreases entries@.len() - i,
                {
                    assert(decreases_to!(*self => entries@[i as int].1)) by {
                        assert(decreases_to!(*self => self->Mapping_0));
                        assert(decreases_to!(*entries => entries@));
                        assert(decreases_to!(entries@ => entries@[i as int]));
                        assert(decreases_to!(entries@[i as int] => entries@[i as int].1));
                    }
                    let k = entries[i].0.clone();
                    let c = entries[i].1.deep_clone();
                    let ghost before = out@;
                    out.push((k, c));
                    assert(out@.drop_last() =~= before);
                    assert(entries@.take(i + 1).drop_last() =~= entries@.take(i as int));
                    i = i + 1;
                }
                assert(entries@.take(entries@.len() as int) =~= entries@);
                FmValue::Mapping(out)
            },
        }
    }

    /// Flatten any value to a string: scalars are exact; a sequence renders as
    /// `['a', 'b']` and a mapping as `{'k': 'v'}`.
    pub fn to_flat_string(&self) -> (r: String)
        ensures
            r@ == flat_text(self@),
        decreases self,
    {
        match self {
            FmValue::Str(s) => s.clone(),
            FmValue::Sequence(items) => {
                proof {
                    lemma_view_items(items@);
                }
                let ghost vs = view_items(items@);
                let mut out = String::new();
                push_char(&mut out, '[');
                let mut i: usize = 0;
                assert(vs.take(0) =~= Seq::<FmView>::empty());
                while i < items.len()
                    invariant
                        i <= items@.len(),
                        *self == FmValue::Sequence(*items),
                        vs == view_items(items@),
                        vs.len() == items@.len(),
                        forall|j: int| 0 <= j < items@.len() ==> #[trigger] vs[j] == fm_view(items@[j]),
                        out@ == seq!['['] + flat_items(vs.take(i as int)),
                    decreases items@.len() - i,
                {
                    if i > 0 {
                        out.append(", ");
                    }
                    push_char(&mut out, '\'');
                    assert(decreases_to!(*self => items@[i as int])) by {
                        assert(decreases_to!(*self => self->Sequence_0));
                        assert(decreases_to!(*items => items@));
                        assert(decreases_to!(items@ => items@[i as int]));
                    }
                    let inner = items[i].to_flat_string();
                    out.append(inner.as_str());
                    push_char(&mut out, '\'');
                    assert(vs.take(i + 1).drop_last() =~= vs.take(i as int));
                    proof {
                        reveal_strlit(", ");
                    }
                    assert(out@ =~= seq!['['] + flat_items(vs.take(i + 1)));
                    i = i + 1;
                }
                push_char(&mut out, ']');
                assert(vs.take(items@.len() as int) =~= vs);
                out
            },
            FmValue::Mapping(entries) => {
                proof {
                    lemma_view_entries(entries@);
                }
                let ghost es = view_entries(entries@);
                let mut out = String::new();
                push_char(&mut out, '{');
                let mut i: usize = 0;
                assert(es.take(0) =~= Seq::<(Seq<char>, FmView)>::empty());
                while i < entries.len()
                    invariant
                        i <= entries@.len(),
                        *self == FmValue::Mapping(*entries),
                        es == view_entries(entries@),
                        es.len() == entries@.len(),
                        forall|j: int|
                            0 <= j < entries@.len() ==> #[trigger] es[j] == (
                                entries@[j].0@,
                                fm_view(entries@[j].1),
                            ),
                        out@ == seq!['{'] + flat_entries(es.take(i as int)),
                    decreases entries@.len() - i,
                {
                    if i > 0 {
                        out.append(", ");
                    }
                    push_char(&mut out, '\'');
                    out.append(entries[i].0.as_str());
                    push_char(&mut out, '\'');
                    out.append(": ");
                    push_char(&mut out, '\'');
                    assert(decreases_to!(*self => entries@[i as int].1)) by {
                        assert(decreases_to!(*self => self->Mapping_0));
                        assert(decreases_to!(*entries => entries@));
                        assert(decreases_to!(entries@ => entries@[i as int]));
                        assert(decreases_to!(entries@[i as int] => entries@[i as int].1));
                    }
                    let inner = entries[i].1.to_flat_string();
                    out.append(inner.as_str());
                    push_char(&mut out, '\'');
                    assert(es.take(i + 1).drop_last() =~= es.take(i as int));
                    proof {
                        reveal_strlit(", ");
                        reveal_strlit(": ");
                    }
                    assert(out@ =~= seq!['{'] + flat_entries(es.take(i + 1)));
                    i = i + 1;
                }
                push_char(&mut out, '}');
                assert(es.take(entries@.len() as int) =~= es);
                out
            },
        }
    }
}


/// Top-level frontmatter: an ordered mapping of string keys to values.
#[derive(Debug, Clone, Default)]
pub struct Frontmatter {
    entries: Vec<(String, FmValue)>,
}

/// The value of the first entry whose key is `key`.
pub open spec fn lookup(entries: Seq<(Seq<char>, FmView)>, key: Seq<char>) -> Option<FmView>
    decreases entries.len(),
{
    if entries.len() == 0 {
        None
    } else if entries[0].0 == key {
        Some(entries[0].1)
    } else {
        lookup(entries.drop_first(), key)
    }
}

/// The keys of `entries`, in order.
pub open spec fn keys_of(entries: Seq<(Seq<char>, FmView)>) -> Seq<Seq<char>> {
    entries.map_values(|e: (Seq<char>, FmView)| e.0)
}

/// A key is found exactly when some entry carries it.
pub proof fn lemma_lookup_some(entries: Seq<(Seq<char>, FmView)>, key: Seq<char>)
    ensures
        lookup(entries, key) is Some <==> keys_of(entries).contains(key),
    decreases entries.len(),
{
    if entries.len() > 0 {
        lemma_lookup_some(entries.drop_first(), key);
        assert(keys_of(entries)[0] == entries[0].0);
        if keys_of(entries.drop_first()).contains(key) {
            let k = choose|k: int| 0 <= k < keys_of(entries.drop_first()).len()
                && keys_of(entries.drop_first())[k] == key;
            assert(keys_of(entries)[k + 1] == key);
        }
        if keys_of(entries).contains(key) && entries[0].0 != key {
            let k = choose|k: int| 0 <= k < keys_of(entries).len() && keys_of(entries)[k] == key;
            assert(k > 0);
            assert(keys_of(entries.drop_first())[k - 1] == key);
        }
    }
}

/// A field is found exactly when it is among the listed field names.
pub proof fn law_get_agrees_with_keys(fm: Frontmatter, key: Seq<char>)
    ensures
        lookup(fm@, key) is Some <==> keys_of(fm@).to_set().contains(key),
{
    lemma_lookup_some(fm@, key);
}

impl View for Frontmatter {
    type V = Seq<(Seq<char>, FmView)>;

    closed spec fn view(&self) -> Seq<(Seq<char>, FmView)> {
        view_entries(self.entries@)
    }
}

impl Frontmatter {
    /// The frontmatter holding exactly `entries`, in order.
    pub(crate) fn from_entries(entries: Vec<(String, FmValue)>) -> (r: Frontmatter)
        ensures
            r@ == view_entries(entries@),
    {
        Frontmatter { entries }
    }

    /// Look up a field by key: the value of its first entry.
    pub fn get(&self, key: &str) -> (r: Option<&FmValue>)
        ensures
            match r {
                Some(v) => lookup(self@, key@) == Some(v@),
                None => lookup(self@, key@) is None,
            },
    {
        let n = self.entries.len();
        proof {
            lemma_view_entries(self.entries@);
        }
        let mut i: usize = 0;
        assert(self@.subrange(0, n as int) =~= self@);
        while i < n
            invariant
                n == self.entries@.len() == self@.len(),
                i <= n,
                self@ == view_entries(self.entries@),
                forall|j: int|
                    0 <= j < n ==> #[trigger] self@[j] == (
                        self.entries@[j].0@,
                        fm_view(self.entries@[j].1),
                    ),
                lookup(self@, key@) == lookup(self@.subrange(i as int, n as int), key@),
            decreases n - i,
        {
            assert(self@.subrange(i as int, n as int)[0] == self@[i as int]);
            if str_eq(self.entries[i].0.as_str(), key) {
                return Some(&self.entries[i].1);
            }
            assert(self@.subrange(i as int, n as int).drop_first() =~= self@.subrange(
                i + 1,
                n as int,
            ));
            i = i + 1;
        }
        None
    }

    /// Whether a field is present.
    pub fn contains_key(&self, key: &str) -> (r: bool)
        ensures
            r == (lookup(self@, key@) is Some),
            r == keys_of(self@).contains(key@),
    {
        proof {
            lemma_lookup_some(self@, key@);
        }
        self.get(key).is_some()
    }

    /// The top-level field names, sorted and without repeats.
    pub fn keys(&self) -> (r: Vec<String>)
        ensures
            strictly_sorted(texts(r@)),
            texts(r@).to_set() == keys_of(self@).to_set(),
            texts(r@) == sorted_of(keys_of(self@).to_set()),
    {
        let n = self.entries.len();
        proof {
            lemma_view_entries(self.entries@);
        }
        let mut out: Vec<String> = Vec::new();
        let mut i: usize = 0;
        assert(texts(out@).to_set() =~= keys_of(self@).take(0).to_set());
        while i < n
            invariant
                n == self.entries@.len() == self@.len(),
                i <= n,
                self@ == view_entries(self.entries@),
                forall|j: int|
                    0 <= j < n ==> #[trigger] self@[j] == (
                        self.entries@[j].0@,
                        fm_view(self.entries@[j].1),
                    ),
                strictly_sorted(texts(out@)),
                texts(out@).to_set() == keys_of(self@).take(i as int).to_set(),
            decreases n - i,
        {
            let k = self.entries[i].0.clone();
            insert_sorted(&mut out, k);
            assert(keys_of(self@).take(i + 1) =~= keys_of(self@).take(i as int).push(
                self@[i as int].0,
            ));
            proof {
                keys_of(self@).take(i as int).lemma_push_to_set_commute(self@[i as int].0);
            }
            i = i + 1;
        }
        assert(keys_of(self@).take(n as int) =~= keys_of(self@));
        proof {
            lemma_sorted_of(texts(out@));
        }
        out
    }
}

} // verus!
