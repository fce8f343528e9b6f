//! Character-level helpers over `str` and `String`, each stated over the
//! `Seq<char>` view of its arguments.

use vstd::prelude::*;

verus! {

/// Whether `c` separates path segments, in either convention.
pub open spec fn is_sep(c: char) -> bool {
    c == '/' || c == '\\'
}

/// The index of the last element of `s` satisfying `pred`, or -1.
pub open spec fn last_index_where(s: Seq<char>, pred: spec_fn(char) -> bool) -> int
    decreases s.len(),
{
    if s.len() == 0 {
        -1
    } else if pred(s.last()) {
        s.len() - 1
    } else {
        last_index_where(s.drop_last(), pred)
    }
}

/// The index of the last separator in `s`, or -1.
pub open spec fn last_sep(s: Seq<char>) -> int {
    last_index_where(s, |c: char| is_sep(c))
}

/// The index of the last `'.'` in `s`, or -1.
pub open spec fn last_dot(s: Seq<char>) -> int {
    last_index_where(s, |c: char| c == '.')
}

/// `s` from just after its last separator: its last path segment.
pub open spec fn last_segment(s: Seq<char>) -> Seq<char> {
    s.subrange(last_sep(s) + 1, s.len() as int)
}

pub proof fn lemma_last_index_where(s: Seq<char>, pred: spec_fn(char) -> bool)
    ensures
        -1 <= last_index_where(s, pred) < s.len(),
        last_index_where(s, pred) >= 0 ==> pred(s[last_index_where(s, pred)]),
        forall|j: int| last_index_where(s, pred) < j < s.len() ==> !pred(#[trigger] s[j]),
    decreases s.len(),
{
    if s.len() > 0 && !pred(s.last()) {
        lemma_last_index_where(s.drop_last(), pred);
        assert forall|j: int| last_index_where(s, pred) < j < s.len() implies !pred(
            #[trigger] s[j],
        ) by {
            if j < s.len() - 1 {
                assert(s[j] == s.drop_last()[j]);
            }
        }
    }
}

/// The characters of `s`, in order.
pub fn chars_of(s: &str) -> (v: Vec<char>)
    ensures
        v@ == s@,
{
    let mut v: Vec<char> = Vec::new();
    for c in it: s.chars()
        invariant
            v@ == it.seq().take(it.index() as int),
            it.seq() == s@,
    {
        v.push(c);
    }
    v
}

/// Where the last separator among the first `end` characters of `v`
/// stands, if there is one.
pub fn find_last_sep(v: &Vec<char>, end: usize) -> (r: Option<usize>)
    requires
        end <= v.len(),
    ensures
        match r {
            Some(i) => i < end && i == last_sep(v@.subrange(0, end as int)),
            None => last_sep(v@.subrange(0, end as int)) == -1,
        },
{
    let mut i: usize = end;
    while i > 0
        invariant
            i <= end <= v.len(),
            last_sep(v@.subrange(0, end as int)) == last_sep(v@.subrange(0, i as int)),
        decreases i,
    {
        let c = v[i - 1];
        assert(v@.subrange(0, i as int).last() == c);
        if c == '/' || c == '\\' {
            return Some(i - 1);
        }
        assert(v@.subrange(0, i as int).drop_last() =~= v@.subrange(0, i - 1));
        i = i - 1;
    }
    None
}

/// Where the last `'.'` in `v` stands, if it has one.
pub fn find_last_dot(v: &Vec<char>) -> (r: Option<usize>)
    ensures
        match r {
            Some(i) => i < v.len() && i == last_dot(v@),
            None => last_dot(v@) == -1,
        },
{
    let mut i: usize = v.len();
    assert(v@.subrange(0, v.len() as int) =~= v@);
    while i > 0
        invariant
            i <= v.len(),
            last_dot(v@) == last_dot(v@.subrange(0, i as int)),
        decreases i,
    {
        let c = v[i - 1];
        assert(v@.subrange(0, i as int).last() == c);
        if c == '.' {
            return Some(i - 1);
        }
        assert(v@.subrange(0, i as int).drop_last() =~= v@.subrange(0, i - 1));
        i = i - 1;
    }
    None
}

/// `s[from..to]`, counted in characters, as an owned string.
pub fn slice(s: &str, from: usize, to: usize) -> (r: String)
    requires
        from <= to <= s@.len(),
    ensures
        r@ == s@.subrange(from as int, to as int),
{
    String::from_str(s.substring_char(from, to))
}

/// `a` followed by `b`.
pub fn concat(a: &str, b: &str) -> (r: String)
    ensures
        r@ == a@ + b@,
{
    String::from_str(a).concat(b)
}

/// `a`, then `b`, then `c`.
pub fn concat3(a: &str, b: &str, c: &str) -> (r: String)
    ensures
        r@ == a@ + b@ + c@,
{
    String::from_str(a).concat(b).concat(c)
}

/// Whether `a` and `b` hold the same characters.
pub fn str_eq(a: &str, b: &str) -> (r: bool)
    ensures
        r == (a@ == b@),
{
    let x = chars_of(a);
    let y = chars_of(b);
    if x.len() != y.len() {
        return false;
    }
    let mut i: usize = 0;
    while i < x.len()
        invariant
            x@ == a@,
            y@ == b@,
            x.len() == y.len(),
            i <= x.len(),
            forall|j: int| 0 <= j < i ==> x@[j] == y@[j],
        decreases x.len() - i,
    {
        if x[i] != y[i] {
            return false;
        }
        i = i + 1;
    }
    assert(x@ =~= y@);
    true
}

/// Whether `s` begins with `prefix`.
pub fn starts_with(s: &str, prefix: &str) -> (r: bool)
    ensures
        r == (prefix@.len() <= s@.len() && s@.subrange(0, prefix@.len() as int) == prefix@),
{
    let x = chars_of(s);
    let y = chars_of(prefix);
    if y.len() > x.len() {
        return false;
    }
    let mut i: usize = 0;
    while i < y.len()
        invariant
            x@ == s@,
            y@ == prefix@,
            y.len() <= x.len(),
            i <= y.len(),
            forall|j: int| 0 <= j < i ==> x@[j] == y@[j],
        decreases y.len() - i,
    {
        if x[i] != y[i] {
            assert(s@.subrange(0, prefix@.len() as int)[i as int] != prefix@[i as int]);
            return false;
        }
        i = i + 1;
    }
    assert(s@.subrange(0, prefix@.len() as int) =~= prefix@);
    true
}

/// Whether `s` ends with `suffix`.
pub fn ends_with(s: &str, suffix: &str) -> (r: bool)
    ensures
        r == (suffix@.len() <= s@.len() && s@.subrange(
            s@.len() - suffix@.len(),
            s@.len() as int,
        ) == suffix@),
{
    let x = chars_of(s);
    let y = chars_of(suffix);
    if y.len() > x.len() {
        return false;
    }
    let off = x.len() - y.len();
    let mut i: usize = 0;
    while i < y.len()
        invariant
            x@ == s@,
            y@ == suffix@,
            y.len() <= x.len(),
            off == x.len() - y.len(),
            i <= y.len(),
            forall|j: int| 0 <= j < i ==> x@[off + j] == y@[j],
        decreases y.len() - i,
    {
        if x[off + i] != y[i] {
            assert(s@.subrange(off as int, s@.len() as int)[i as int] != suffix@[i as int]);
            return false;
        }
        i = i + 1;
    }
    assert(s@.subrange(off as int, s@.len() as int) =~= suffix@);
    true
}

/// Append `s` to `v`.
pub fn push_string(v: &mut Vec<String>, s: String)
    ensures
        final(v).deep_view() == old(v).deep_view().push(s@),
{
    let ghost before = v.deep_view();
    v.push(s);
    assert(v.deep_view() =~= before.push(s@)) by {
        assert forall|j: int| 0 <= j < v.len() implies #[trigger] v.deep_view()[j] == before.push(
            s@,
        )[j] by {
            if j < v.len() - 1 {
                assert(v@[j] == old(v)@[j]);
            }
        }
    }
}

/// The index of the first element of `s` satisfying `pred`, or -1.
pub open spec fn first_index_where(s: Seq<char>, pred: spec_fn(char) -> bool) -> int
    decreases s.len(),
{
    if s.len() == 0 {
        -1
    } else if pred(s[0]) {
        0
    } else if first_index_where(s.drop_first(), pred) < 0 {
        -1
    } else {
        first_index_where(s.drop_first(), pred) + 1
    }
}

/// The index of the last `'/'` in `s`, or -1.
pub open spec fn last_slash(s: Seq<char>) -> int {
    last_index_where(s, |c: char| c == '/')
}

/// The index of the first `'/'` in `s`, or -1.
pub open spec fn first_slash(s: Seq<char>) -> int {
    first_index_where(s, |c: char| c == '/')
}

pub proof fn lemma_first_index_where(s: Seq<char>, pred: spec_fn(char) -> bool)
    ensures
        -1 <= first_index_where(s, pred) < s.len(),
        first_index_where(s, pred) >= 0 ==> pred(s[first_index_where(s, pred)]),
        forall|j: int|
            0 <= j < s.len() && (first_index_where(s, pred) < 0 || j < first_index_where(s, pred))
                ==> !pred(#[trigger] s[j]),
    decreases s.len(),
{
    if s.len() > 0 && !pred(s[0]) {
        lemma_first_index_where(s.drop_first(), pred);
        assert forall|j: int|
            0 <= j < s.len() && (first_index_where(s, pred) < 0 || j < first_index_where(s, pred))
                implies !pred(#[trigger] s[j]) by {
            if j > 0 {
                assert(s[j] == s.drop_first()[j - 1]);
            }
        }
    }
}

/// Where the last `'/'` in `v` stands, if it has one.
pub fn find_last_slash(v: &Vec<char>) -> (r: Option<usize>)
    ensures
        match r {
            Some(i) => i < v.len() && i == last_slash(v@),
            None => last_slash(v@) == -1,
        },
{
    let mut i: usize = v.len();
    assert(v@.subrange(0, v.len() as int) =~= v@);
    while i > 0
        invariant
            i <= v.len(),
            last_slash(v@) == last_slash(v@.subrange(0, i as int)),
        decreases i,
    {
        let c = v[i - 1];
        assert(v@.subrange(0, i as int).last() == c);
        if c == '/' {
            return Some(i - 1);
        }
        assert(v@.subrange(0, i as int).drop_last() =~= v@.subrange(0, i - 1));
        i = i - 1;
    }
    None
}

/// Where the first `'/'` in `v` stands, if it has one.
pub fn find_first_slash(v: &Vec<char>) -> (r: Option<usize>)
    ensures
        match r {
            Some(i) => i < v.len() && i == first_slash(v@),
            None => first_slash(v@) == -1,
        },
{
    let mut i: usize = 0;
    assert(v@.skip(0) =~= v@);
    while i < v.len()
        invariant
            i <= v.len(),
            first_slash(v@) == if first_slash(v@.skip(i as int)) < 0 {
                -1
            } else {
                first_slash(v@.skip(i as int)) + i
            },
        decreases v.len() - i,
    {
        assert(v@.skip(i as int)[0] == v[i as int]);
        if v[i] == '/' {
            return Some(i);
        }
        assert(v@.skip(i as int).drop_first() =~= v@.skip(i + 1));
        i = i + 1;
    }
    assert(v@.skip(i as int).len() == 0);
    None
}

/// The strings of `parts` joined with `/` between each two.
pub fn join_with_slash(parts: &[&str]) -> (r: String)
    ensures
        r@ == crate::lexical::join_slash(parts.deep_view()),
{
    let mut out = String::new();
    let ghost ps = parts.deep_view();
    let mut i: usize = 0;
    proof {
        reveal_strlit("/");
        assert(ps.take(0) =~= Seq::<Seq<char>>::empty());
    }
    while i < parts.len()
        invariant
            i <= parts.len(),
            ps == parts.deep_view(),
            "/"@ == seq!['/'],
            out@ == crate::lexical::join_slash(ps.take(i as int)),
        decreases parts.len() - i,
    {
        let ghost before = ps.take(i as int);
        assert(ps.take(i + 1) =~= before.push(ps[i as int]));
        assert(ps.take(i + 1).drop_last() =~= before);
        if i == 0 {
            out = String::from_str(parts[i]);
        } else {
            out = concat(concat(out.as_str(), "/").as_str(), parts[i]);
        }
        i = i + 1;
    }
    assert(ps.take(i as int) =~= ps);
    out
}

pub proof fn lemma_push_to_set<A>(s: Seq<A>, x: A)
    ensures
        s.push(x).to_set() == s.to_set().insert(x),
{
    assert forall|a: A| #[trigger] s.push(x).to_set().contains(a) <==> s.to_set().insert(
        x,
    ).contains(a) by {
        if s.contains(a) {
            let j = s.index_of(a);
            s.index_of_first_ensures(a);
            assert(s.push(x)[j] == a);
        }
        if a == x {
            assert(s.push(x)[s.len() as int] == x);
        }
        if s.push(x).contains(a) && a != x {
            let j = choose|j: int| 0 <= j < s.push(x).len() && s.push(x)[j] == a;
            assert(s[j] == a);
        }
    }
    assert(s.push(x).to_set() =~= s.to_set().insert(x));
}

} // verus!
