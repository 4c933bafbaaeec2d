//! The lexicographic order of strings (that of `String`'s `Ord`: by code
//! point, a proper prefix first) and sorted, duplicate-free string lists.

use vstd::prelude::*;

verus! {

/// `a` sorts strictly before `b`.
pub open spec fn lex_lt(a: Seq<char>, b: Seq<char>) -> bool
    decreases a.len(),
{
    if a.len() == 0 {
        b.len() > 0
    } else if b.len() == 0 {
        false
    } else if a[0] != b[0] {
        a[0] < b[0]
    } else {
        lex_lt(a.drop_first(), b.drop_first())
    }
}

/// No string sorts before itself.
pub proof fn lemma_lex_irreflexive(a: Seq<char>)
    ensures
        !lex_lt(a, a),
    decreases a.len(),
{
    if a.len() > 0 {
        lemma_lex_irreflexive(a.drop_first());
    }
}

/// Any two distinct strings are ordered one way or the other.
pub proof fn lemma_lex_total(a: Seq<char>, b: Seq<char>)
    ensures
        a == b || lex_lt(a, b) || lex_lt(b, a),
    decreases a.len(),
{
    if a.len() > 0 && b.len() > 0 && a[0] == b[0] {
        lemma_lex_total(a.drop_first(), b.drop_first());
        if a.drop_first() == b.drop_first() {
            assert(a =~= seq![a[0]] + a.drop_first());
            assert(b =~= seq![b[0]] + b.drop_first());
        }
    } else if a.len() == 0 && b.len() == 0 {
        assert(a =~= b);
    }
}

/// The order is asymmetric.
pub proof fn lemma_lex_asymmetric(a: Seq<char>, b: Seq<char>)
    ensures
        lex_lt(a, b) ==> !lex_lt(b, a),
    decreases a.len(),
{
    if a.len() > 0 && b.len() > 0 && a[0] == b[0] {
        lemma_lex_asymmetric(a.drop_first(), b.drop_first());
    }
}

/// The order is transitive.
pub proof fn lemma_lex_transitive(a: Seq<char>, b: Seq<char>, c: Seq<char>)
    requires
        lex_lt(a, b),
        lex_lt(b, c),
    ensures
        lex_lt(a, c),
    decreases a.len(),
{
    if a.len() > 0 && b.len() > 0 && c.len() > 0 && a[0] == b[0] && b[0] == c[0] {
        lemma_lex_transitive(a.drop_first(), b.drop_first(), c.drop_first());
    }
}

/// Whether `a` sorts strictly before `b`.
pub fn str_lt(a: &str, b: &str) -> (r: bool)
    ensures
        r == lex_lt(a@, b@),
{
    let n = a.unicode_len();
    let m = b.unicode_len();
    let mut i: usize = 0;
    assert(a@.skip(0) =~= a@);
    assert(b@.skip(0) =~= b@);
    while i < n && i < m && a.get_char(i) == b.get_char(i)
        invariant
            n == a@.len(),
            m == b@.len(),
            i <= n,
            i <= m,
            lex_lt(a@, b@) == lex_lt(a@.skip(i as int), b@.skip(i as int)),
        decreases n - i,
    {
        assert(a@.skip(i as int).drop_first() =~= a@.skip(i + 1));
        assert(b@.skip(i as int).drop_first() =~= b@.skip(i + 1));
        i = i + 1;
    }
    if i == n {
        i < m
    } else if i == m {
        false
    } else {
        let x = a.get_char(i);
        let y = b.get_char(i);
        assert(a@.skip(i as int)[0] == x);
        assert(b@.skip(i as int)[0] == y);
        x < y
    }
}

/// The characters of each string in `v`.
pub open spec fn texts(v: Seq<String>) -> Seq<Seq<char>> {
    v.map_values(|s: String| s@)
}

/// Each string sorts strictly before every later one (so none repeats).
pub open spec fn strictly_sorted(s: Seq<Seq<char>>) -> bool {
    forall|i: int, j: int| 0 <= i < j < s.len() ==> lex_lt(#[trigger] s[i], #[trigger] s[j])
}

/// Inserts `x` into a sorted, duplicate-free list, unless it is there already.
pub fn insert_sorted(v: &mut Vec<String>, x: String)
    requires
        strictly_sorted(texts(old(v)@)),
    ensures
        strictly_sorted(texts(final(v)@)),
        texts(final(v)@).to_set() == texts(old(v)@).to_set().insert(x@),
{
    let n = v.len();
    let mut i: usize = 0;
    while i < n && str_lt(v[i].as_str(), x.as_str())
        invariant
            n == v@.len(),
            i <= n,
            forall|j: int| 0 <= j < i ==> lex_lt(#[trigger] v@[j]@, x@),
        decreases n - i,
    {
        i = i + 1;
    }
    let ghost old_t = texts(v@);
    if i < n && crate::text::str_eq(v[i].as_str(), x.as_str()) {
        assert(old_t[i as int] == x@);
        assert(old_t.to_set().insert(x@) =~= old_t.to_set());
        return;
    }
    proof {
        if i < n {
            lemma_lex_total(v@[i as int]@, x@);
        }
    }
    let ghost xv = x@;
    v.insert(i, x);
    let ghost new_t = texts(v@);
    assert(new_t =~= old_t.insert(i as int, xv));
    assert forall|a: int, b: int| 0 <= a < b < new_t.len() implies lex_lt(
        #[trigger] new_t[a],
        #[trigger] new_t[b],
    ) by {
        if a < i && b < i {
            assert(lex_lt(old_t[a], old_t[b]));
        } else if a < i && b == i {
        } else if a < i && b > i {
            assert(lex_lt(old_t[a], old_t[b - 1]));
        } else if a == i {
            if b > i + 1 {
                assert(lex_lt(old_t[i as int], old_t[b - 1]));
                lemma_lex_transitive(xv, old_t[i as int], old_t[b - 1]);
            }
        } else {
            assert(lex_lt(old_t[a - 1], old_t[b - 1]));
        }
    }
    assert forall|s: Seq<char>| new_t.to_set().contains(s) <==> old_t.to_set().insert(xv).contains(
        s,
    ) by {
        if new_t.to_set().contains(s) {
            let k = choose|k: int| 0 <= k < new_t.len() && new_t[k] == s;
            if k < i {
                assert(old_t[k] == s);
            } else if k > i {
                assert(old_t[k - 1] == s);
            }
        }
        if old_t.to_set().contains(s) {
            let k = choose|k: int| 0 <= k < old_t.len() && old_t[k] == s;
            if k < i {
                assert(new_t[k] == s);
            } else {
                assert(new_t[k + 1] == s);
            }
        }
        if s == xv {
            assert(new_t[i as int] == s);
        }
    }
    assert(new_t.to_set() =~= old_t.to_set().insert(xv));
}


/// A strictly sorted list is determined by its set of elements.
pub proof fn lemma_sorted_unique(a: Seq<Seq<char>>, b: Seq<Seq<char>>)
    requires
        strictly_sorted(a),
        strictly_sorted(b),
        a.to_set() == b.to_set(),
    ensures
        a == b,
    decreases a.len(),
{
    if a.len() == 0 {
        if b.len() > 0 {
            assert(b.to_set().contains(b[0]));
        }
        assert(a =~= b);
    } else {
        assert(a.to_set().contains(a[0]));
        assert(b.to_set().contains(a[0]));
        let k = choose|k: int| 0 <= k < b.len() && b[k] == a[0];
        assert(b.to_set().contains(b[0]));
        assert(a.to_set().contains(b[0]));
        let m = choose|m: int| 0 <= m < a.len() && a[m] == b[0];
        if k > 0 {
            assert(lex_lt(b[0], b[k]));
            if m == 0 {
                lemma_lex_irreflexive(a[0]);
            } else {
                assert(lex_lt(a[0], a[m]));
                lemma_lex_asymmetric(a[0], b[0]);
            }
        }
        assert(a[0] == b[0]);
        let a1 = a.drop_first();
        let b1 = b.drop_first();
        assert(strictly_sorted(a1)) by {
            assert forall|i: int, j: int| 0 <= i < j < a1.len() implies lex_lt(
                #[trigger] a1[i],
                #[trigger] a1[j],
            ) by {
                assert(lex_lt(a[i + 1], a[j + 1]));
            }
        }
        assert(strictly_sorted(b1)) by {
            assert forall|i: int, j: int| 0 <= i < j < b1.len() implies lex_lt(
                #[trigger] b1[i],
                #[trigger] b1[j],
            ) by {
                assert(lex_lt(b[i + 1], b[j + 1]));
            }
        }
        assert forall|x: Seq<char>| a1.to_set().contains(x) <==> b1.to_set().contains(x) by {
            if a1.to_set().contains(x) {
                let i = choose|i: int| 0 <= i < a1.len() && a1[i] == x;
                assert(lex_lt(a[0], a[i + 1]));
                lemma_lex_irreflexive(a[0]);
                assert(a.to_set().contains(x));
                let j = choose|j: int| 0 <= j < b.len() && b[j] == x;
                assert(j != 0);
                assert(b1[j - 1] == x);
            }
            if b1.to_set().contains(x) {
                let i = choose|i: int| 0 <= i < b1.len() && b1[i] == x;
                assert(lex_lt(b[0], b[i + 1]));
                lemma_lex_irreflexive(b[0]);
                assert(b.to_set().contains(x));
                let j = choose|j: int| 0 <= j < a.len() && a[j] == x;
                assert(j != 0);
                assert(a1[j - 1] == x);
            }
        }
        assert(a1.to_set() =~= b1.to_set());
        lemma_sorted_unique(a1, b1);
        assert(a =~= b) by {
            assert forall|i: int| 0 <= i < a.len() implies a[i] == b[i] by {
                if i > 0 {
                    assert(a[i] == a1[i - 1]);
                    assert(b[i] == b1[i - 1]);
                }
            }
        }
    }
}

/// `ys` with `x` put in its sorted place, unless it is there already.
pub open spec fn sorted_insert(ys: Seq<Seq<char>>, x: Seq<char>) -> Seq<Seq<char>>
    decreases ys.len(),
{
    if ys.len() == 0 {
        seq![x]
    } else if lex_lt(x, ys[0]) {
        seq![x] + ys
    } else if x == ys[0] {
        ys
    } else {
        seq![ys[0]] + sorted_insert(ys.drop_first(), x)
    }
}

/// Putting a string in its sorted place keeps a list sorted and adds it to
/// the list's set.
pub proof fn lemma_sorted_insert(ys: Seq<Seq<char>>, x: Seq<char>)
    requires
        strictly_sorted(ys),
    ensures
        strictly_sorted(sorted_insert(ys, x)),
        sorted_insert(ys, x).to_set() == ys.to_set().insert(x),
        sorted_insert(ys, x).len() > 0,
        sorted_insert(ys, x)[0] == x || (ys.len() > 0 && sorted_insert(ys, x)[0] == ys[0]),
    decreases ys.len(),
{
    let r = sorted_insert(ys, x);
    if ys.len() == 0 {
        assert(r.to_set() =~= ys.to_set().insert(x)) by {
            assert(r[0] == x);
        }
    } else if lex_lt(x, ys[0]) {
        assert forall|i: int, j: int| 0 <= i < j < r.len() implies lex_lt(#[trigger] r[i], #[trigger] r[j]) by {
            if i == 0 {
                if j > 1 {
                    assert(lex_lt(ys[0], ys[j - 1]));
                    lemma_lex_transitive(x, ys[0], ys[j - 1]);
                }
            } else {
                assert(lex_lt(ys[i - 1], ys[j - 1]));
            }
        }
        assert forall|z: Seq<char>| r.to_set().contains(z) <==> ys.to_set().insert(x).contains(z) by {
            if r.to_set().contains(z) {
                let k = choose|k: int| 0 <= k < r.len() && r[k] == z;
                if k > 0 {
                    assert(ys[k - 1] == z);
                }
            }
            if ys.to_set().contains(z) {
                let k = choose|k: int| 0 <= k < ys.len() && ys[k] == z;
                assert(r[k + 1] == z);
            }
            if z == x {
                assert(r[0] == z);
            }
        }
        assert(r.to_set() =~= ys.to_set().insert(x));
    } else if x == ys[0] {
        assert(ys.to_set().contains(ys[0]));
        assert(r.to_set() =~= ys.to_set().insert(x));
    } else {
        lemma_lex_total(x, ys[0]);
        let t = ys.drop_first();
        assert(strictly_sorted(t)) by {
            assert forall|i: int, j: int| 0 <= i < j < t.len() implies lex_lt(#[trigger] t[i], #[trigger] t[j]) by {
                assert(lex_lt(ys[i + 1], ys[j + 1]));
            }
        }
        lemma_sorted_insert(t, x);
        let u = sorted_insert(t, x);
        assert(r == seq![ys[0]] + u);
        assert forall|j: int| 0 <= j < u.len() implies lex_lt(ys[0], #[trigger] u[j]) by {
            assert(u.to_set().contains(u[j]));
            assert(t.to_set().insert(x).contains(u[j]));
            if u[j] != x {
                let k = choose|k: int| 0 <= k < t.len() && t[k] == u[j];
                assert(lex_lt(ys[0], ys[k + 1]));
            }
        }
        assert forall|i: int, j: int| 0 <= i < j < r.len() implies lex_lt(#[trigger] r[i], #[trigger] r[j]) by {
            if i == 0 {
                assert(r[j] == u[j - 1]);
            } else {
                assert(r[i] == u[i - 1]);
                assert(r[j] == u[j - 1]);
            }
        }
        assert forall|z: Seq<char>| r.to_set().contains(z) <==> ys.to_set().insert(x).contains(z) by {
            if r.to_set().contains(z) {
                let k = choose|k: int| 0 <= k < r.len() && r[k] == z;
                if k == 0 {
                    assert(ys[0] == z);
                } else {
                    assert(u[k - 1] == z);
                    assert(u.to_set().contains(z));
                    if z != x {
                        let m = choose|m: int| 0 <= m < t.len() && t[m] == z;
                        assert(ys[m + 1] == z);
                    }
                }
            }
            if ys.to_set().contains(z) {
                let k = choose|k: int| 0 <= k < ys.len() && ys[k] == z;
                if k == 0 {
                    assert(r[0] == z);
                } else {
                    assert(t[k - 1] == z);
                    assert(t.to_set().contains(z));
                    assert(u.to_set().contains(z));
                    let m = choose|m: int| 0 <= m < u.len() && u[m] == z;
                    assert(r[m + 1] == z);
                }
            }
            if z == x {
                assert(u.to_set().contains(x));
                let m = choose|m: int| 0 <= m < u.len() && u[m] == x;
                assert(r[m + 1] == x);
            }
        }
        assert(r.to_set() =~= ys.to_set().insert(x));
    }
}

/// The strings of any list can be listed strictly sorted.
pub proof fn lemma_sorted_exists(xs: Seq<Seq<char>>)
    ensures
        exists|ys: Seq<Seq<char>>| strictly_sorted(ys) && ys.to_set() == xs.to_set(),
    decreases xs.len(),
{
    if xs.len() == 0 {
        let ys = Seq::<Seq<char>>::empty();
        assert(ys.to_set() =~= xs.to_set());
        assert(strictly_sorted(ys) && ys.to_set() == xs.to_set());
    } else {
        lemma_sorted_exists(xs.drop_last());
        let zs = choose|ys: Seq<Seq<char>>| strictly_sorted(ys) && ys.to_set() == xs.drop_last().to_set();
        lemma_sorted_insert(zs, xs.last());
        let ys = sorted_insert(zs, xs.last());
        assert(xs =~= xs.drop_last().push(xs.last()));
        xs.drop_last().lemma_push_to_set_commute(xs.last());
        assert(strictly_sorted(ys) && ys.to_set() == xs.to_set());
    }
}

/// The sorted listing of a list's strings is sorted and lists exactly them.
pub proof fn lemma_sorted_of_list(xs: Seq<Seq<char>>)
    ensures
        strictly_sorted(sorted_of(xs.to_set())),
        sorted_of(xs.to_set()).to_set() == xs.to_set(),
        sorted_of(xs.to_set()).len() == 0 <==> xs.len() == 0,
{
    lemma_sorted_exists(xs);
    let ys = sorted_of(xs.to_set());
    if xs.len() > 0 {
        assert(xs.to_set().contains(xs[0]));
        if ys.len() == 0 {
            assert(ys.to_set() =~= Set::<Seq<char>>::empty());
        }
    } else {
        assert(xs.to_set() =~= Set::<Seq<char>>::empty());
        if ys.len() > 0 {
            assert(ys.to_set().contains(ys[0]));
        }
    }
}

/// The strictly sorted list of the strings in `s`.
pub open spec fn sorted_of(s: Set<Seq<char>>) -> Seq<Seq<char>> {
    choose|xs: Seq<Seq<char>>| strictly_sorted(xs) && xs.to_set() == s
}

/// A sorted list of a set is the list `sorted_of` names.
pub proof fn lemma_sorted_of(xs: Seq<Seq<char>>)
    requires
        strictly_sorted(xs),
    ensures
        sorted_of(xs.to_set()) == xs,
{
    let s = xs.to_set();
    assert(strictly_sorted(xs) && xs.to_set() == s);
    let ys = sorted_of(s);
    lemma_sorted_unique(xs, ys);
}

/// Whether `s` is one of the strings in `v`.
pub fn contains_text(v: &Vec<String>, s: &str) -> (r: bool)
    ensures
        r == texts(v@).contains(s@),
{
    let mut i: usize = 0;
    while i < v.len()
        invariant
            i <= v@.len(),
            forall|j: int| 0 <= j < i ==> v@[j]@ != s@,
        decreases v@.len() - i,
    {
        if crate::text::str_eq(v[i].as_str(), s) {
            assert(texts(v@)[i as int] == s@);
            return true;
        }
        i = i + 1;
    }
    assert forall|j: int| 0 <= j < texts(v@).len() implies texts(v@)[j] != s@ by {
        assert(texts(v@)[j] == v@[j]@);
    }
    false
}

} // verus!
