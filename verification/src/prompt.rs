//! The `<available_skills>` XML block for agent system prompts.

use vstd::prelude::*;
use crate::errors::{Result, SkillError};
use crate::options::Options;
use crate::parser::{frontmatter_result, is_validation_error, properties_result, read_properties_from_content};
use crate::text::{owned, push_char};

verus! {

/// The escape of one character: `&`, `<`, `>`, `"` and `'` become `&amp;`,
/// `&lt;`, `&gt;`, `&quot;` and `&#x27;`; any other character stands for
/// itself.
pub open spec fn escape_char(c: char) -> Seq<char> {
    if c == '&' {
        "&amp;"@
    } else if c == '<' {
        "&lt;"@
    } else if c == '>' {
        "&gt;"@
    } else if c == '"' {
        "&quot;"@
    } else if c == '\'' {
        "&#x27;"@
    } else {
        seq![c]
    }
}

/// `s` with `&`, `<`, `>`, `"` and `'` escaped.
pub open spec fn escape_text(s: Seq<char>) -> Seq<char>
    decreases s.len(),
{
    if s.len() == 0 {
        Seq::empty()
    } else {
        escape_text(s.drop_last()) + escape_char(s.last())
    }
}

/// Escaped text holds no markup: no `<`, `>`, `"` or `'` is left in it.
pub proof fn law_escape_removes_markup(s: Seq<char>)
    ensures
        forall|i: int|
            0 <= i < escape_text(s).len() ==> {
                let c = #[trigger] escape_text(s)[i];
                c != '<' && c != '>' && c != '"' && c != '\''
            },
    decreases s.len(),
{
    reveal_strlit("&amp;");
    reveal_strlit("&lt;");
    reveal_strlit("&gt;");
    reveal_strlit("&quot;");
    reveal_strlit("&#x27;");
    if s.len() > 0 {
        law_escape_removes_markup(s.drop_last());
        let a = escape_text(s.drop_last());
        let b = escape_char(s.last());
        assert forall|i: int| 0 <= i < escape_text(s).len() implies {
            let c = #[trigger] escape_text(s)[i];
            c != '<' && c != '>' && c != '"' && c != '\''
        } by {
            if i >= a.len() {
                assert(escape_text(s)[i] == b[i - a.len()]);
            } else {
                assert(escape_text(s)[i] == a[i]);
            }
        }
    }
}

/// Text without any of `&`, `<`, `>`, `"` and `'` is left as it is.
pub proof fn law_escape_keeps_plain_text(s: Seq<char>)
    requires
        forall|i: int|
            0 <= i < s.len() ==> {
                let c = #[trigger] s[i];
                c != '&' && c != '<' && c != '>' && c != '"' && c != '\''
            },
    ensures
        escape_text(s) == s,
    decreases s.len(),
{
    if s.len() > 0 {
        let t = s.drop_last();
        assert forall|i: int| 0 <= i < t.len() implies {
            let c = #[trigger] t[i];
            c != '&' && c != '<' && c != '>' && c != '"' && c != '\''
        } by {
            assert(t[i] == s[i]);
        }
        law_escape_keeps_plain_text(t);
        assert(s.last() == s[s.len() - 1]);
        assert(escape_text(s) =~= s);
    }
}

/// Escape the XML/HTML special characters `&`, `<`, `>`, `"` and `'`.
pub fn html_escape(s: &str) -> (r: String)
    ensures
        r@ == escape_text(s@),
{
    proof {
        reveal_strlit("&amp;");
        reveal_strlit("&lt;");
        reveal_strlit("&gt;");
        reveal_strlit("&quot;");
        reveal_strlit("&#x27;");
    }
    let n = s.unicode_len();
    let mut out = String::new();
    let mut i: usize = 0;
    assert(s@.take(0) =~= Seq::<char>::empty());
    while i < n
        invariant
            n == s@.len(),
            i <= n,
            out@ == escape_text(s@.take(i as int)),
        decreases n - i,
    {
        let c = s.get_char(i);
        if c == '&' {
            out.append("&amp;");
        } else if c == '<' {
            out.append("&lt;");
        } else if c == '>' {
            out.append("&gt;");
        } else if c == '"' {
            out.append("&quot;");
        } else if c == '\'' {
            out.append("&#x27;");
        } else {
            push_char(&mut out, c);
        }
        assert(s@.take(i + 1).drop_last() =~= s@.take(i as int));
        assert(out@ =~= escape_text(s@.take(i + 1)));
        i = i + 1;
    }
    assert(s@.take(n as int) =~= s@);
    out
}

/// The text of a skill's `SKILL.md` and the location it was read from.
pub struct SkillSource {
    pub content: String,
    pub location: String,
}

/// One skill's `<skill>` element, each of its lines followed by a newline.
pub open spec fn skill_block(name: Seq<char>, description: Seq<char>, location: Seq<char>) -> Seq<char> {
    "<skill>\n<name>\n"@ + escape_text(name) + "\n</name>\n<description>\n"@ + escape_text(description)
        + "\n</description>\n<location>\n"@ + location + "\n</location>\n</skill>\n"@
}

/// What reading one skill gives: a name, a description and a location, or
/// the message of the error it raises.
pub enum SkillOutcome {
    Entry(Seq<char>, Seq<char>, Seq<char>),
    Unreadable(SkillError),
    ParseFailure(Seq<char>),
    ValidationFailure(Seq<char>),
}

/// The outcome of reading one skill source.
pub open spec fn outcome(source: core::result::Result<SkillSource, SkillError>) -> SkillOutcome {
    match source {
        Err(e) => SkillOutcome::Unreadable(e),
        Ok(src) => match frontmatter_result(src.content@) {
            Err(m) => SkillOutcome::ParseFailure(m),
            Ok((entries, _body)) => match properties_result(entries, false) {
                Err(m) => SkillOutcome::ValidationFailure(m),
                Ok(p) => SkillOutcome::Entry(p.name, p.description, src.location@),
            },
        },
    }
}

/// The `<skill>` elements of the first `n` sources, while all of them read.
pub open spec fn blocks(sources: Seq<core::result::Result<SkillSource, SkillError>>) -> Seq<char>
    decreases sources.len(),
{
    if sources.len() == 0 {
        Seq::empty()
    } else {
        blocks(sources.drop_last()) + match outcome(sources.last()) {
            SkillOutcome::Entry(name, description, location) => skill_block(name, description, location),
            _ => Seq::empty(),
        }
    }
}

/// The index of the first source that cannot be read, if any.
pub open spec fn first_failure(sources: Seq<core::result::Result<SkillSource, SkillError>>) -> Option<int> {
    if exists|i: int| 0 <= i < sources.len() && !(#[trigger] outcome(sources[i]) is Entry) {
        Some(
            choose|i: int|
                0 <= i < sources.len() && !(#[trigger] outcome(sources[i]) is Entry) && forall|j: int|
                    0 <= j < i ==> outcome(sources[j]) is Entry,
        )
    } else {
        None
    }
}

/// `r` is the error that an outcome stands for.
pub open spec fn is_error_of(r: SkillError, o: SkillOutcome) -> bool {
    match o {
        SkillOutcome::Unreadable(e) => r == e,
        SkillOutcome::ParseFailure(m) => r matches SkillError::Parse(x) && x@ == m,
        SkillOutcome::ValidationFailure(m) => is_validation_error(r, m),
        SkillOutcome::Entry(..) => false,
    }
}

/// The whole block for sources that all read.
pub open spec fn prompt_text(sources: Seq<core::result::Result<SkillSource, SkillError>>) -> Seq<char> {
    "<available_skills>\n"@ + blocks(sources) + "</available_skills>"@
}


/// Extending the sources read by one that reads appends its element.
proof fn lemma_blocks_step(sources: Seq<core::result::Result<SkillSource, SkillError>>, i: int)
    requires
        0 <= i < sources.len(),
        outcome(sources[i]) is Entry,
    ensures
        blocks(sources.take(i + 1)) == blocks(sources.take(i)) + skill_block(
            outcome(sources[i])->Entry_0,
            outcome(sources[i])->Entry_1,
            outcome(sources[i])->Entry_2,
        ),
{
    assert(sources.take(i + 1).drop_last() =~= sources.take(i));
    assert(sources.take(i + 1).last() == sources[i]);
}

/// The first failing source is the one at `i`.
proof fn lemma_first_failure(sources: Seq<core::result::Result<SkillSource, SkillError>>, i: int)
    requires
        0 <= i < sources.len(),
        !(outcome(sources[i]) is Entry),
        forall|j: int| 0 <= j < i ==> outcome(sources[j]) is Entry,
    ensures
        first_failure(sources) == Some(i),
{
    let k = choose|k: int|
        0 <= k < sources.len() && !(#[trigger] outcome(sources[k]) is Entry) && forall|j: int|
            0 <= j < k ==> outcome(sources[j]) is Entry;
    if k < i {
        assert(outcome(sources[k]) is Entry);
    } else if k > i {
        assert(outcome(sources[i]) is Entry);
    }
}

/// Generate the `<available_skills>` XML block from the skills' sources, in
/// order: each contributes a `<skill>` element with its HTML-escaped `name`
/// and `description` and its `location`. The first source that cannot be read
/// (given as an error, unparsable, or without a non-blank name or
/// description) ends it with that error.
pub fn to_prompt(sources: Vec<Result<SkillSource>>) -> (r: Result<String>)
    ensures
        match first_failure(sources@) {
            Some(i) => r matches Err(e) && is_error_of(e, outcome(sources@[i])),
            None => r matches Ok(t) && t@ == prompt_text(sources@),
        },
{
    let ghost all = sources@;
    let mut rest = sources;
    let mut text = owned("<available_skills>\n");
    let ghost mut i: int = 0;
    assert(all.take(0) =~= Seq::<core::result::Result<SkillSource, SkillError>>::empty());
    assert(rest@ =~= all.skip(0));
    while rest.len() > 0
        invariant
            0 <= i <= all.len(),
            all == sources@,
            rest@ == all.skip(i),
            forall|j: int| 0 <= j < i ==> outcome(all[j]) is Entry,
            text@ == "<available_skills>\n"@ + blocks(all.take(i)),
        decreases rest@.len(),
    {
        assert(all[i] == rest@[0]);
        let source = rest.remove(0);
        assert(rest@ =~= all.skip(i + 1));
        match source {
            Err(e) => {
                proof {
                    lemma_first_failure(all, i);
                }
                return Err(e);
            },
            Ok(src) => {
                match read_properties_from_content(src.content.as_str(), Options { allow_claude_fields: false }) {
                    Err(e) => {
                        proof {
                            lemma_first_failure(all, i);
                        }
                        return Err(e);
                    },
                    Ok(props) => {
                        let ghost t0 = text@;
                        text.append("<skill>\n<name>\n");
                        let name = html_escape(props.name.as_str());
                        text.append(name.as_str());
                        text.append("\n</name>\n<description>\n");
                        let description = html_escape(props.description.as_str());
                        text.append(description.as_str());
                        text.append("\n</description>\n<location>\n");
                        text.append(src.location.as_str());
                        text.append("\n</location>\n</skill>\n");
                        assert(text@ =~= t0 + skill_block(props.name@, props.description@, src.location@));
                        proof {
                            lemma_blocks_step(all, i);
                        }
                        assert(text@ =~= "<available_skills>\n"@ + blocks(all.take(i + 1)));
                        proof {
                            i = i + 1;
                        }
                    },
                }
            },
        }
    }
    assert(i == all.len());
    assert(all.take(i) =~= all);
    assert forall|j: int| 0 <= j < all.len() implies #[trigger] outcome(all[j]) is Entry by {}
    text.append("</available_skills>");
    Ok(text)
}


/// The number of places where `<skill>` starts in `s`.
pub open spec fn tag_count(s: Seq<char>) -> nat
    decreases s.len(),
{
    if s.len() < 7 {
        0
    } else {
        (if s.take(7) == seq!['<', 's', 'k', 'i', 'l', 'l', '>'] {
            1nat
        } else {
            0nat
        }) + tag_count(s.drop_first())
    }
}

/// Text in which no `<` is followed by an `s`.
pub open spec fn no_tag_start(s: Seq<char>) -> bool {
    forall|i: int| 0 <= i < s.len() && #[trigger] s[i] == '<' ==> i + 1 < s.len() && s[i + 1] != 's'
}

/// Text in which no `<` is followed by an `s` holds no `<skill>`.
proof fn lemma_no_tag(s: Seq<char>)
    requires
        no_tag_start(s),
    ensures
        tag_count(s) == 0,
    decreases s.len(),
{
    if s.len() >= 7 {
        let t = s.drop_first();
        assert(no_tag_start(t)) by {
            assert forall|i: int| 0 <= i < t.len() && #[trigger] t[i] == '<' implies i + 1 < t.len()
                && t[i + 1] != 's' by {
                assert(s[i + 1] == t[i]);
            }
        }
        lemma_no_tag(t);
        if s.take(7) == seq!['<', 's', 'k', 'i', 'l', 'l', '>'] {
            assert(s[0] == s.take(7)[0]);
            assert(s[1] == s.take(7)[1]);
        }
    }
}

/// Text that may precede any other without a `<skill>` straddling the seam:
/// it has no `<`, or it ends with a newline.
pub open spec fn clean_end(a: Seq<char>) -> bool {
    (forall|i: int| 0 <= i < a.len() ==> #[trigger] a[i] != '<') || (a.len() > 0 && a.last()
        == '\n')
}

/// Counting `<skill>` adds up over a seam after a clean end.
proof fn lemma_tag_count_concat(a: Seq<char>, b: Seq<char>)
    requires
        clean_end(a),
    ensures
        tag_count(a + b) == tag_count(a) + tag_count(b),
    decreases a.len(),
{
    let tag = seq!['<', 's', 'k', 'i', 'l', 'l', '>'];
    let s = a + b;
    if a.len() == 0 {
        assert(s =~= b);
    } else {
        let a1 = a.drop_first();
        assert(clean_end(a1) || a1.len() == 0) by {
            if a.len() > 1 && a.last() == '\n' {
                assert(a1.last() == a.last());
            }
            if forall|i: int| 0 <= i < a.len() ==> #[trigger] a[i] != '<' {
                assert forall|i: int| 0 <= i < a1.len() implies #[trigger] a1[i] != '<' by {
                    assert(a1[i] == a[i + 1]);
                }
            }
        }
        if a1.len() == 0 {
            assert(a1 + b =~= b);
        } else {
            lemma_tag_count_concat(a1, b);
        }
        assert(s.drop_first() =~= a1 + b);
        if a.len() >= 7 {
            assert(s.take(7) =~= a.take(7));
        } else if s.len() >= 7 {
            if s.take(7) == tag {
                assert(s[0] == tag[0]);
                assert(s[0] == a[0]);
                let k = a.len() - 1;
                assert(s[k] == a.last());
                assert(s[k] == s.take(7)[k]);
            }
            assert(tag_count(a1) == 0);
        } else {
            assert(tag_count(b) == 0);
            assert(tag_count(a1) == 0);
        }
    }
}

/// A `<skill>` element holds one `<skill>` when its location holds no `<`.
proof fn lemma_block_tag_count(name: Seq<char>, description: Seq<char>, location: Seq<char>)
    requires
        forall|i: int| 0 <= i < location.len() ==> #[trigger] location[i] != '<',
    ensures
        tag_count(skill_block(name, description, location)) == 1,
{
    reveal_strlit("<skill>\n<name>\n");
    reveal_strlit("\n</name>\n<description>\n");
    reveal_strlit("\n</description>\n<location>\n");
    reveal_strlit("\n</location>\n</skill>\n");
    let l1 = "<skill>\n<name>\n"@;
    let e1 = escape_text(name);
    let l2 = "\n</name>\n<description>\n"@;
    let e2 = escape_text(description);
    let l3 = "\n</description>\n<location>\n"@;
    let l4 = "\n</location>\n</skill>\n"@;
    law_escape_removes_markup(name);
    law_escape_removes_markup(description);
    assert forall|i: int| 0 <= i < e1.len() implies #[trigger] e1[i] != '<' by {}
    assert forall|i: int| 0 <= i < e2.len() implies #[trigger] e2[i] != '<' by {}
    assert(skill_block(name, description, location) =~= l1 + (e1 + (l2 + (e2 + (l3 + (location + l4))))));
    lemma_tag_count_concat(location, l4);
    lemma_tag_count_concat(l3, location + l4);
    lemma_tag_count_concat(e2, l3 + (location + l4));
    lemma_tag_count_concat(l2, e2 + (l3 + (location + l4)));
    lemma_tag_count_concat(e1, l2 + (e2 + (l3 + (location + l4))));
    lemma_tag_count_concat(l1, e1 + (l2 + (e2 + (l3 + (location + l4)))));
    assert(l2 =~= seq!['\n', '<', '/', 'n', 'a', 'm', 'e', '>', '\n', '<', 'd', 'e', 's', 'c', 'r', 'i', 'p', 't', 'i', 'o', 'n', '>', '\n']);
    lemma_no_tag(l2);
    assert(l3 =~= seq!['\n', '<', '/', 'd', 'e', 's', 'c', 'r', 'i', 'p', 't', 'i', 'o', 'n', '>', '\n', '<', 'l', 'o', 'c', 'a', 't', 'i', 'o', 'n', '>', '\n']);
    lemma_no_tag(l3);
    assert(l4 =~= seq!['\n', '<', '/', 'l', 'o', 'c', 'a', 't', 'i', 'o', 'n', '>', '\n', '<', '/', 's', 'k', 'i', 'l', 'l', '>', '\n']);
    lemma_no_tag(l4);
    assert(no_tag_start(e1));
    lemma_no_tag(e1);
    assert(no_tag_start(e2));
    lemma_no_tag(e2);
    assert(no_tag_start(location));
    lemma_no_tag(location);
    let tail = seq!['s', 'k', 'i', 'l', 'l', '>', '\n', '<', 'n', 'a', 'm', 'e', '>', '\n'];
    assert(l1 =~= seq!['<'] + tail);
    assert(l1.drop_first() =~= tail);
    assert(l1.take(7) =~= seq!['<', 's', 'k', 'i', 'l', 'l', '>']);
    assert(no_tag_start(tail));
    lemma_no_tag(tail);
}

/// The prompt holds one `<skill>` for each skill, when every skill reads and
/// no location holds a `<`.
pub proof fn law_one_skill_element_per_skill(sources: Seq<core::result::Result<SkillSource, SkillError>>)
    requires
        forall|i: int| 0 <= i < sources.len() ==> #[trigger] outcome(sources[i]) is Entry,
        forall|i: int, j: int|
            0 <= i < sources.len() && 0 <= j < outcome(sources[i])->Entry_2.len() ==> outcome(
                sources[i],
            )->Entry_2[j] != '<',
    ensures
        tag_count(prompt_text(sources)) == sources.len(),
    decreases sources.len(),
{
    reveal_strlit("<available_skills>\n");
    reveal_strlit("</available_skills>");
    let open = "<available_skills>\n"@;
    let close = "</available_skills>"@;
    lemma_blocks_tag_count(sources);
    assert(open =~= seq!['<', 'a', 'v', 'a', 'i', 'l', 'a', 'b', 'l', 'e', '_', 's', 'k', 'i', 'l', 'l', 's', '>', '\n']);
    assert(close =~= seq!['<', '/', 'a', 'v', 'a', 'i', 'l', 'a', 'b', 'l', 'e', '_', 's', 'k', 'i', 'l', 'l', 's', '>']);
    lemma_no_tag(open);
    lemma_no_tag(close);
    assert(prompt_text(sources) =~= open + (blocks(sources) + close));
    lemma_blocks_clean_end(sources);
    if blocks(sources).len() > 0 {
        lemma_tag_count_concat(blocks(sources), close);
    } else {
        assert(blocks(sources) + close =~= close);
    }
    lemma_tag_count_concat(open, blocks(sources) + close);
}

/// The elements of sources that all read end with a newline, when any.
proof fn lemma_blocks_clean_end(sources: Seq<core::result::Result<SkillSource, SkillError>>)
    requires
        forall|i: int| 0 <= i < sources.len() ==> #[trigger] outcome(sources[i]) is Entry,
    ensures
        blocks(sources).len() == 0 || clean_end(blocks(sources)),
    decreases sources.len(),
{
    reveal_strlit("\n</location>\n</skill>\n");
    if sources.len() > 0 {
        let o = outcome(sources.last());
        assert(outcome(sources[sources.len() - 1]) is Entry);
        let b = skill_block(o->Entry_0, o->Entry_1, o->Entry_2);
        assert(b.last() == '\n');
        assert((blocks(sources.drop_last()) + b).last() == '\n');
    }
}

/// The elements of sources that all read hold one `<skill>` each, when no
/// location holds a `<`.
proof fn lemma_blocks_tag_count(sources: Seq<core::result::Result<SkillSource, SkillError>>)
    requires
        forall|i: int| 0 <= i < sources.len() ==> #[trigger] outcome(sources[i]) is Entry,
        forall|i: int, j: int|
            0 <= i < sources.len() && 0 <= j < outcome(sources[i])->Entry_2.len() ==> outcome(
                sources[i],
            )->Entry_2[j] != '<',
    ensures
        tag_count(blocks(sources)) == sources.len(),
    decreases sources.len(),
{
    if sources.len() > 0 {
        let rest = sources.drop_last();
        assert forall|i: int| 0 <= i < rest.len() implies #[trigger] outcome(rest[i]) is Entry by {
            assert(rest[i] == sources[i]);
        }
        assert forall|i: int, j: int|
            0 <= i < rest.len() && 0 <= j < outcome(rest[i])->Entry_2.len() implies outcome(
                rest[i],
            )->Entry_2[j] != '<' by {
            assert(rest[i] == sources[i]);
        }
        lemma_blocks_tag_count(rest);
        lemma_blocks_clean_end(rest);
        let last = sources.len() - 1;
        assert(sources.last() == sources[last]);
        let o = outcome(sources[last]);
        assert(o is Entry);
        assert forall|j: int| 0 <= j < o->Entry_2.len() implies #[trigger] o->Entry_2[j] != '<' by {}
        lemma_block_tag_count(o->Entry_0, o->Entry_1, o->Entry_2);
        let b = skill_block(o->Entry_0, o->Entry_1, o->Entry_2);
        if blocks(rest).len() > 0 {
            lemma_tag_count_concat(blocks(rest), b);
        } else {
            assert(blocks(rest) + b =~= b);
        }
    }
}

} // verus!
