//! Character-level string utilities used by the parser and the validator.

use vstd::prelude::*;
use crate::order::texts;

verus! {

/// The Unicode `White_Space` property (PropList.txt), the set that `char::is_whitespace`
/// and `str::trim` use.
pub open spec fn is_white_space(c: char) -> bool {
    ||| ('\u{9}' <= c && c <= '\u{d}')
    ||| c == ' '
    ||| c == '\u{85}'
    ||| c == '\u{a0}'
    ||| c == '\u{1680}'
    ||| ('\u{2000}' <= c && c <= '\u{200a}')
    ||| c == '\u{2028}'
    ||| c == '\u{2029}'
    ||| c == '\u{202f}'
    ||| c == '\u{205f}'
    ||| c == '\u{3000}'
}

/// The characters with the Unicode `White_Space` property, one by one:
/// U+0009 to U+000D, U+0020, U+0085, U+00A0, U+1680, U+2000 to U+200A,
/// U+2028, U+2029, U+202F, U+205F and U+3000.
pub open spec fn unicode_white_space(c: char) -> bool {
    ||| c == '\u{9}'
    ||| c == '\u{a}'
    ||| c == '\u{b}'
    ||| c == '\u{c}'
    ||| c == '\u{d}'
    ||| c == '\u{20}'
    ||| c == '\u{85}'
    ||| c == '\u{a0}'
    ||| c == '\u{1680}'
    ||| c == '\u{2000}'
    ||| c == '\u{2001}'
    ||| c == '\u{2002}'
    ||| c == '\u{2003}'
    ||| c == '\u{2004}'
    ||| c == '\u{2005}'
    ||| c == '\u{2006}'
    ||| c == '\u{2007}'
    ||| c == '\u{2008}'
    ||| c == '\u{2009}'
    ||| c == '\u{200a}'
    ||| c == '\u{2028}'
    ||| c == '\u{2029}'
    ||| c == '\u{202f}'
    ||| c == '\u{205f}'
    ||| c == '\u{3000}'
}

/// A character counts as white space exactly when it has the Unicode
/// `White_Space` property: tab, line feed, vertical tab, form feed and
/// carriage return among them.
pub proof fn law_white_space_is_unicode_white_space(c: char)
    ensures
        is_white_space(c) <==> unicode_white_space(c),
{
}

/// Whether `c` is a Unicode white-space character.
pub fn is_whitespace(c: char) -> (r: bool)
    ensures
        r == is_white_space(c),
{
    ('\u{9}' <= c && c <= '\u{d}') || c == ' ' || c == '\u{85}' || c == '\u{a0}' || c == '\u{1680}'
        || ('\u{2000}' <= c && c <= '\u{200a}') || c == '\u{2028}' || c == '\u{2029}' || c
        == '\u{202f}' || c == '\u{205f}' || c == '\u{3000}'
}


/// `s` without its leading white space.
pub open spec fn trim_start_spec(s: Seq<char>) -> Seq<char>
    decreases s.len(),
{
    if s.len() > 0 && is_white_space(s[0]) {
        trim_start_spec(s.drop_first())
    } else {
        s
    }
}

/// `s` without its trailing white space.
pub open spec fn trim_end_spec(s: Seq<char>) -> Seq<char>
    decreases s.len(),
{
    if s.len() > 0 && is_white_space(s.last()) {
        trim_end_spec(s.drop_last())
    } else {
        s
    }
}

/// `s` without leading and trailing white space, as `str::trim` gives it.
pub open spec fn trim_spec(s: Seq<char>) -> Seq<char> {
    trim_end_spec(trim_start_spec(s))
}

/// Removing leading white space leaves a suffix that is empty or starts
/// with a character that is no white space.
pub proof fn lemma_trim_start_shape(s: Seq<char>)
    ensures
        trim_start_spec(s).len() <= s.len(),
        trim_start_spec(s) == s.skip(s.len() - trim_start_spec(s).len()),
        trim_start_spec(s).len() == 0 || !is_white_space(trim_start_spec(s)[0]),
        forall|k: int| 0 <= k < s.len() - trim_start_spec(s).len() ==> is_white_space(#[trigger] s[k]),
    decreases s.len(),
{
    if s.len() > 0 && is_white_space(s[0]) {
        lemma_trim_start_shape(s.drop_first());
        let t = trim_start_spec(s.drop_first());
        assert forall|k: int| 0 <= k < s.len() - t.len() implies is_white_space(#[trigger] s[k]) by {
            if k > 0 {
                assert(s[k] == s.drop_first()[k - 1]);
            }
        }
        assert(s.drop_first().skip(s.drop_first().len() - t.len()) =~= s.skip(s.len() - t.len()));
    } else {
        assert(s.skip(0) =~= s);
    }
}

/// Removing trailing white space leaves a prefix that is empty or ends with
/// a character that is no white space.
pub proof fn lemma_trim_end_shape(s: Seq<char>)
    ensures
        trim_end_spec(s).len() <= s.len(),
        trim_end_spec(s) == s.take(trim_end_spec(s).len() as int),
        trim_end_spec(s).len() == 0 || !is_white_space(trim_end_spec(s).last()),
        forall|k: int| trim_end_spec(s).len() <= k < s.len() ==> is_white_space(#[trigger] s[k]),
    decreases s.len(),
{
    if s.len() > 0 && is_white_space(s.last()) {
        lemma_trim_end_shape(s.drop_last());
        let t = trim_end_spec(s.drop_last());
        assert forall|k: int| t.len() <= k < s.len() implies is_white_space(#[trigger] s[k]) by {
            if k < s.len() - 1 {
                assert(s[k] == s.drop_last()[k]);
            }
        }
        assert(s.drop_last().take(t.len() as int) =~= s.take(t.len() as int));
    } else {
        assert(s.take(s.len() as int) =~= s);
    }
}

/// Trimmed text has nothing more to trim.
pub proof fn lemma_trim_idempotent(s: Seq<char>)
    ensures
        trim_spec(trim_spec(s)) == trim_spec(s),
        trim_spec(s).len() == 0 || (!is_white_space(trim_spec(s)[0]) && !is_white_space(
            trim_spec(s).last(),
        )),
{
    let t = trim_start_spec(s);
    lemma_trim_start_shape(s);
    lemma_trim_end_shape(t);
    let u = trim_end_spec(t);
    if u.len() > 0 {
        assert(u[0] == t[0]);
    }
    assert(trim_start_spec(u) == u);
    assert(trim_end_spec(u) == u);
}

/// Appends one character to a string (`String::push`).
#[verifier::external_body]
pub(crate) fn push_char(s: &mut String, c: char)
    ensures
        final(s)@ == old(s)@.push(c),
{
    s.push(c);
}

/// The characters after the last `/` of `p` (all of `p` when it has none).
pub closed spec fn last_segment(p: Seq<char>) -> Seq<char>
    decreases p.len(),
{
    if p.len() == 0 || p.last() == '/' {
        Seq::empty()
    } else {
        last_segment(p.drop_last()).push(p.last())
    }
}

/// The final component of a `/`-separated path, as `Path::file_name` gives
/// it on Unix: trailing slashes and `.` components are passed over, and a
/// path that ends in `..` or has no component has none (empty here).
pub closed spec fn file_name_of(p: Seq<char>) -> Seq<char>
    decreases p.len(),
{
    if p.len() == 0 {
        Seq::empty()
    } else if p.last() == '/' {
        file_name_of(p.drop_last())
    } else if last_segment(p) == seq!['.'] {
        file_name_of(p.drop_last())
    } else if last_segment(p) == seq!['.', '.'] {
        Seq::empty()
    } else {
        last_segment(p)
    }
}

/// The final component of a path (empty when it has none).
pub fn file_name(path: &str) -> (r: String)
    ensures
        r@ == file_name_of(path@),
{
    let n = path.unicode_len();
    let mut end: usize = n;
    assert(path@.take(n as int) =~= path@);
    while end > 0
        invariant
            n == path@.len(),
            end <= n,
            file_name_of(path@) == file_name_of(path@.take(end as int)),
        decreases end,
    {
        let ghost p = path@.take(end as int);
        assert(p.drop_last() =~= path@.take(end - 1));
        let c = path.get_char(end - 1);
        if c == '/' {
            end = end - 1;
        } else {
            let mut start: usize = end - 1;
            assert(last_segment(path@.take(start as int)).push(c) =~= last_segment(path@.take(
                start as int,
            )) + path@.subrange(start as int, end as int));
            while start > 0 && path.get_char(start - 1) != '/'
                invariant
                    n == path@.len(),
                    start < end <= n,
                    p == path@.take(end as int),
                    last_segment(p) == last_segment(path@.take(start as int)) + path@.subrange(
                        start as int,
                        end as int,
                    ),
                decreases start,
            {
                let d = path.get_char(start - 1);
                let ghost q = path@.take(start as int);
                assert(q.drop_last() =~= path@.take(start - 1));
                assert(last_segment(q) == last_segment(path@.take(start - 1)).push(d));
                assert(path@.subrange(start - 1, end as int) =~= seq![d] + path@.subrange(
                    start as int,
                    end as int,
                ));
                assert(last_segment(path@.take(start - 1)).push(d) + path@.subrange(
                    start as int,
                    end as int,
                ) =~= last_segment(path@.take(start - 1)) + path@.subrange(start - 1, end as int));
                start = start - 1;
            }
            let ghost seg = path@.subrange(start as int, end as int);
            assert(last_segment(path@.take(start as int)) =~= Seq::<char>::empty());
            assert(last_segment(p) =~= seg);
            let len = end - start;
            if len == 1 && path.get_char(start) == '.' {
                assert(seg =~= seq!['.']);
                end = end - 1;
            } else if len == 2 && path.get_char(start) == '.' && path.get_char(start + 1) == '.' {
                assert(seg =~= seq!['.', '.']);
                return String::new();
            } else {
                assert(seg != seq!['.'] && seg != seq!['.', '.']) by {
                    if seg == seq!['.'] {
                        assert(seg[0] == '.');
                    }
                    if seg == seq!['.', '.'] {
                        assert(seg[0] == '.' && seg[1] == '.');
                    }
                }
                let mut out = String::new();
                let mut k: usize = start;
                while k < end
                    invariant
                        n == path@.len(),
                        start <= k <= end <= n,
                        out@ == path@.subrange(start as int, k as int),
                    decreases end - k,
                {
                    let ch = path.get_char(k);
                    assert(path@.subrange(start as int, k + 1) =~= path@.subrange(
                        start as int,
                        k as int,
                    ).push(ch));
                    push_char(&mut out, ch);
                    k = k + 1;
                }
                return out;
            }
        }
    }
    assert(path@.take(0) =~= Seq::<char>::empty());
    String::new()
}

/// Trimming removes exactly the Unicode white space at both ends: the result
/// is a stretch of `s` with only white space before and after it, and it
/// neither starts nor ends with white space.
pub proof fn law_trim_removes_white_space_at_ends(s: Seq<char>)
    ensures
        exists|i: int, j: int|
            #![trigger s.subrange(i, j)]
            0 <= i <= j <= s.len() && trim_spec(s) == s.subrange(i, j) && (forall|k: int|
                0 <= k < i ==> unicode_white_space(#[trigger] s[k])) && (forall|k: int|
                j <= k < s.len() ==> unicode_white_space(#[trigger] s[k])),
        trim_spec(s).len() > 0 ==> !unicode_white_space(trim_spec(s)[0]) && !unicode_white_space(
            trim_spec(s).last(),
        ),
{
    let t = trim_start_spec(s);
    lemma_trim_start_shape(s);
    lemma_trim_end_shape(t);
    let u = trim_end_spec(t);
    let i = s.len() - t.len();
    let j = i + u.len();
    assert(u =~= s.subrange(i, j));
    assert forall|k: int| 0 <= k < i implies unicode_white_space(#[trigger] s[k]) by {
        law_white_space_is_unicode_white_space(s[k]);
    }
    assert forall|k: int| j <= k < s.len() implies unicode_white_space(#[trigger] s[k]) by {
        assert(s[k] == t[k - i]);
        law_white_space_is_unicode_white_space(s[k]);
    }
    if u.len() > 0 {
        assert(u[0] == t[0]);
        law_white_space_is_unicode_white_space(u[0]);
        law_white_space_is_unicode_white_space(u.last());
    }
}

/// A string holding exactly the characters `s@`.
pub fn owned(s: &str) -> (r: String)
    ensures
        r@ == s@,
{
    String::from_str(s)
}

/// `s` with leading and trailing white space removed.
pub fn trim(s: &str) -> (r: String)
    ensures
        r@ == trim_spec(s@),
{
    let n = s.unicode_len();
    let mut lo: usize = 0;
    assert(s@.subrange(0, n as int) =~= s@);
    while lo < n && is_whitespace(s.get_char(lo))
        invariant
            n == s@.len(),
            lo <= n,
            trim_start_spec(s@) == trim_start_spec(s@.subrange(lo as int, n as int)),
        decreases n - lo,
    {
        assert(s@.subrange(lo as int, n as int).drop_first() =~= s@.subrange(lo + 1, n as int));
        lo = lo + 1;
    }
    let ghost t = s@.subrange(lo as int, n as int);
    assert(trim_start_spec(s@) == t) by {
        if lo < n {
            assert(t[0] == s@[lo as int]);
        }
    }
    let mut hi: usize = n;
    assert(s@.subrange(lo as int, hi as int) == t);
    while hi > lo && is_whitespace(s.get_char(hi - 1))
        invariant
            n == s@.len(),
            lo <= hi <= n,
            t == s@.subrange(lo as int, n as int),
            trim_end_spec(t) == trim_end_spec(s@.subrange(lo as int, hi as int)),
        decreases hi - lo,
    {
        assert(s@.subrange(lo as int, hi as int).drop_last() =~= s@.subrange(lo as int, hi - 1));
        hi = hi - 1;
    }
    assert(trim_end_spec(s@.subrange(lo as int, hi as int)) == s@.subrange(lo as int, hi as int))
        by {
        if hi > lo {
            assert(s@.subrange(lo as int, hi as int).last() == s@[hi - 1]);
        }
    }
    owned(s.substring_char(lo, hi))
}

/// Whether two string slices hold the same characters.
pub fn str_eq(a: &str, b: &str) -> (r: bool)
    ensures
        r == (a@ == b@),
{
    let n = a.unicode_len();
    if n != b.unicode_len() {
        return false;
    }
    let mut i: usize = 0;
    while i < n
        invariant
            n == a@.len() == b@.len(),
            i <= n,
            forall|j: int| 0 <= j < i ==> a@[j] == b@[j],
        decreases n - i,
    {
        if a.get_char(i) != b.get_char(i) {
            return false;
        }
        i = i + 1;
    }
    assert(a@ =~= b@);
    true
}

/// The character of a decimal digit.
pub open spec fn digit_char(d: int) -> char {
    (48 + d) as char
}

/// The decimal rendering of a natural number, as `to_string` gives it.
pub open spec fn decimal(n: nat) -> Seq<char>
    decreases n,
{
    if n < 10 {
        seq![digit_char(n as int)]
    } else {
        decimal(n / 10).push(digit_char((n % 10) as int))
    }
}

/// The decimal rendering of an integer, with a leading `-` when negative.
pub open spec fn signed_decimal(n: int) -> Seq<char> {
    if n < 0 {
        seq!['-'] + decimal((-n) as nat)
    } else {
        decimal(n as nat)
    }
}

fn digit(d: u64) -> (c: char)
    requires
        d < 10,
    ensures
        c == digit_char(d as int),
{
    let b: u8 = 48u8 + (d as u8);
    b as char
}

/// Decimal rendering of an unsigned integer.
pub fn u64_to_decimal(n: u64) -> (r: String)
    ensures
        r@ == decimal(n as nat),
    decreases n,
{
    if n < 10 {
        let mut s = String::new();
        push_char(&mut s, digit(n));
        assert(s@ =~= decimal(n as nat));
        s
    } else {
        let mut s = u64_to_decimal(n / 10);
        push_char(&mut s, digit(n % 10));
        s
    }
}

/// Decimal rendering of a `usize`.
pub fn usize_to_decimal(n: usize) -> (r: String)
    ensures
        r@ == decimal(n as nat),
{
    u64_to_decimal(n as u64)
}

/// Decimal rendering of a signed integer.
pub fn i64_to_decimal(n: i64) -> (r: String)
    ensures
        r@ == signed_decimal(n as int),
{
    if n < 0 {
        let m: i128 = -(n as i128);
        let mut s = String::new();
        push_char(&mut s, '-');
        let d = u64_to_decimal(m as u64);
        s.append(d.as_str());
        assert(s@ =~= seq!['-'] + decimal((-n) as nat));
        s
    } else {
        u64_to_decimal(n as u64)
    }
}


/// The strings of `items` with `sep` between each two.
pub open spec fn join(items: Seq<Seq<char>>, sep: Seq<char>) -> Seq<char>
    decreases items.len(),
{
    if items.len() == 0 {
        Seq::empty()
    } else if items.len() == 1 {
        items[0]
    } else {
        join(items.drop_last(), sep) + sep + items.last()
    }
}

/// Joins `items` with `sep` between each two.
pub fn join_texts(items: &Vec<String>, sep: &str) -> (r: String)
    ensures
        r@ == join(texts(items@), sep@),
{
    let mut out = String::new();
    let mut i: usize = 0;
    assert(texts(items@).take(0) =~= Seq::<Seq<char>>::empty());
    while i < items.len()
        invariant
            i <= items@.len(),
            out@ == join(texts(items@).take(i as int), sep@),
        decreases items@.len() - i,
    {
        if i > 0 {
            out.append(sep);
        }
        out.append(items[i].as_str());
        assert(texts(items@).take(i + 1).drop_last() =~= texts(items@).take(i as int));
        assert(texts(items@).take(i + 1).last() == items@[i as int]@);
        i = i + 1;
    }
    assert(texts(items@).take(items@.len() as int) =~= texts(items@));
    out
}

/// What `str::to_lowercase` gives for a text.
pub uninterp spec fn lowercase_text(s: Seq<char>) -> Seq<char>;

/// Calls `str::to_lowercase` (Unicode-aware lower-casing); the contract names
/// the result, it does not state the case tables.
#[verifier::external_body]
pub(crate) fn to_lowercase(s: &str) -> (r: String)
    ensures
        r@ == lowercase_text(s@),
{
    s.to_lowercase()
}

/// What `char::is_alphanumeric` answers for a character.
pub uninterp spec fn alphanumeric(c: char) -> bool;

/// Calls `char::is_alphanumeric` (Unicode `Alphabetic` or `Numeric`); the
/// contract names the answer, it does not state the Unicode tables.
#[verifier::external_body]
pub(crate) fn is_alphanumeric(c: char) -> (r: bool)
    ensures
        r == alphanumeric(c),
{
    c.is_alphanumeric()
}

} // verus!
