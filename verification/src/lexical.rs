//! Lexical path normalisation: resolving `.` and `..` without touching a
//! filesystem, and comparing a candidate path against a confining root.

use vstd::prelude::*;

use crate::text::{
    chars_of, concat, ends_with, is_sep, last_index_where, slice, starts_with, str_eq,
};

verus! {

/// The separator test of a map key: `/` or `\`.
pub open spec fn key_pred() -> spec_fn(char) -> bool {
    |c: char| is_sep(c)
}

/// The separator test of a native path: `/`, and the platform's own
/// separator `sep`.
pub open spec fn native_pred(sep: char) -> spec_fn(char) -> bool {
    |c: char| c == '/' || c == sep
}

/// The segments kept by the fold for a native path (climbs kept) or a map
/// key (climbs dropped).
pub open spec fn fold_parts(native: bool, segments: Seq<Seq<char>>) -> Seq<Seq<char>> {
    if native {
        lexical_parts(segments)
    } else {
        clean_parts(segments)
    }
}

/// `s` split at every character satisfying `pred`, as `str::split` does:
/// one more piece than there are separators, empty pieces included.
pub open spec fn split_by(s: Seq<char>, pred: spec_fn(char) -> bool) -> Seq<Seq<char>>
    decreases s.len(),
{
    let i = last_index_where(s, pred);
    if i < 0 {
        seq![s]
    } else {
        proof {
            crate::text::lemma_last_index_where(s, pred);
        }
        split_by(s.subrange(0, i), pred).push(s.subrange(i + 1, s.len() as int))
    }
}

/// `.` as a segment.
pub open spec fn dot() -> Seq<char> {
    seq!['.']
}

/// `..` as a segment.
pub open spec fn dot_dot() -> Seq<char> {
    seq!['.', '.']
}

/// One step of [`clean`]: an empty or `.` segment is dropped, `..` drops
/// the last kept segment (if any), anything else is kept.
pub open spec fn clean_step(parts: Seq<Seq<char>>, segment: Seq<char>) -> Seq<Seq<char>> {
    if segment.len() == 0 || segment == dot() {
        parts
    } else if segment == dot_dot() {
        if parts.len() > 0 {
            parts.drop_last()
        } else {
            parts
        }
    } else {
        parts.push(segment)
    }
}

/// One step of [`lexical`]: like [`clean_step`], except that a `..` with
/// nothing left to drop is kept.
pub open spec fn lexical_step(parts: Seq<Seq<char>>, segment: Seq<char>) -> Seq<Seq<char>> {
    if segment.len() == 0 || segment == dot() {
        parts
    } else if segment == dot_dot() {
        if parts.len() > 0 {
            parts.drop_last()
        } else {
            parts.push(segment)
        }
    } else {
        parts.push(segment)
    }
}

/// The segments [`clean`] keeps, folding [`clean_step`] from the left.
pub open spec fn clean_parts(segments: Seq<Seq<char>>) -> Seq<Seq<char>>
    decreases segments.len(),
{
    if segments.len() == 0 {
        Seq::empty()
    } else {
        clean_step(clean_parts(segments.drop_last()), segments.last())
    }
}

/// The segments [`lexical`] keeps, folding [`lexical_step`] from the left.
pub open spec fn lexical_parts(segments: Seq<Seq<char>>) -> Seq<Seq<char>>
    decreases segments.len(),
{
    if segments.len() == 0 {
        Seq::empty()
    } else {
        lexical_step(lexical_parts(segments.drop_last()), segments.last())
    }
}

/// `parts` joined with `/` between each two.
pub open spec fn join_slash(parts: Seq<Seq<char>>) -> Seq<char>
    decreases parts.len(),
{
    if parts.len() == 0 {
        Seq::empty()
    } else if parts.len() == 1 {
        parts[0]
    } else {
        join_slash(parts.drop_last()) + seq!['/'] + parts.last()
    }
}

/// A path as a map key: separators of either kind unified, `.` and `..`
/// resolved, no leading slash, and `.` for the root.
pub open spec fn spec_clean(path: Seq<char>) -> Seq<char> {
    let parts = clean_parts(split_by(path, key_pred()));
    if parts.len() == 0 {
        dot()
    } else {
        join_slash(parts)
    }
}

/// A native path with `.` and `..` resolved lexically, its segments
/// separated by `/` or by the platform's separator `sep`: a leading
/// separator is kept as `/`, a `..` that cannot climb is kept, and an
/// empty result is `.`.
pub open spec fn spec_lexical(path: Seq<char>, sep: char) -> Seq<char> {
    let parts = lexical_parts(split_by(path, native_pred(sep)));
    if path.len() > 0 && (path[0] == '/' || path[0] == sep) {
        seq!['/'] + join_slash(parts)
    } else if parts.len() == 0 {
        dot()
    } else {
        join_slash(parts)
    }
}

/// Whether `candidate` is `root` or lies below it, comparing whole
/// segments of the normalized forms; an empty or `.` root confines
/// nothing.
pub open spec fn spec_within_root(
    candidate: Seq<char>,
    root: Seq<char>,
    os_paths: bool,
    sep: char,
) -> bool {
    let c = if os_paths {
        spec_lexical(candidate, sep)
    } else {
        spec_clean(candidate)
    };
    let r = if os_paths {
        spec_lexical(root, sep)
    } else {
        spec_clean(root)
    };
    let prefix = if r.len() > 0 && r.last() == '/' {
        r
    } else {
        r.push('/')
    };
    ||| r.len() == 0
    ||| r == dot()
    ||| c == r
    ||| (prefix.len() <= c.len() && c.subrange(0, prefix.len() as int) == prefix)
}

/// Whether `segment` holds no separator of either kind.
pub open spec fn no_sep(segment: Seq<char>) -> bool {
    forall|i: int| 0 <= i < segment.len() ==> !is_sep(#[trigger] segment[i])
}

/// Whether `segment` is one that [`clean`] keeps as it is: not empty,
/// not `.` or `..`, and free of separators.
pub open spec fn kept_segment(segment: Seq<char>) -> bool {
    &&& segment.len() > 0
    &&& segment != dot()
    &&& segment != dot_dot()
    &&& no_sep(segment)
}

proof fn lemma_no_sep_means_one_piece(s: Seq<char>)
    requires
        no_sep(s),
    ensures
        split_by(s, key_pred()) == seq![s],
{
    crate::text::lemma_last_index_where(s, key_pred());
    let i = last_index_where(s, key_pred());
    if i >= 0 {
        assert(key_pred()(s[i]));
        assert(!is_sep(s[i]));
    }
}

proof fn lemma_split_pieces_have_no_sep(s: Seq<char>)
    ensures
        forall|k: int|
            0 <= k < split_by(s, key_pred()).len() ==> no_sep(
                #[trigger] split_by(s, key_pred())[k],
            ),
    decreases s.len(),
{
    let pred = key_pred();
    crate::text::lemma_last_index_where(s, pred);
    let i = last_index_where(s, pred);
    if i < 0 {
        assert forall|j: int| 0 <= j < s.len() implies !is_sep(#[trigger] s[j]) by {
            assert(!pred(s[j]));
        }
        assert(split_by(s, pred) == seq![s]);
    } else {
        lemma_split_pieces_have_no_sep(s.subrange(0, i));
        let tail = s.subrange(i + 1, s.len() as int);
        assert forall|j: int| 0 <= j < tail.len() implies !is_sep(#[trigger] tail[j]) by {
            assert(tail[j] == s[i + 1 + j]);
            assert(!pred(s[i + 1 + j]));
        }
        let pieces = split_by(s, pred);
        let front = split_by(s.subrange(0, i), pred);
        assert(pieces == front.push(tail));
        assert forall|k: int| 0 <= k < pieces.len() implies no_sep(#[trigger] pieces[k]) by {
            if k < front.len() {
                assert(pieces[k] == front[k]);
            } else {
                assert(pieces[k] == tail);
            }
        }
    }
}

proof fn lemma_clean_parts_kept(segments: Seq<Seq<char>>)
    requires
        forall|k: int| 0 <= k < segments.len() ==> no_sep(#[trigger] segments[k]),
    ensures
        forall|k: int|
            0 <= k < clean_parts(segments).len() ==> kept_segment(#[trigger] clean_parts(segments)[k]),
    decreases segments.len(),
{
    if segments.len() > 0 {
        let front = segments.drop_last();
        assert forall|k: int| 0 <= k < front.len() implies no_sep(#[trigger] front[k]) by {
            assert(front[k] == segments[k]);
        }
        lemma_clean_parts_kept(front);
        let kept = clean_parts(front);
        let last = segments.last();
        assert(no_sep(segments[segments.len() - 1]));
        let result = clean_parts(segments);
        assert forall|k: int| 0 <= k < result.len() implies kept_segment(#[trigger] result[k]) by {
            if last.len() == 0 || last == dot() {
                assert(result == kept);
            } else if last == dot_dot() {
                if kept.len() > 0 {
                    assert(result[k] == kept[k]);
                }
            } else {
                if k < kept.len() {
                    assert(result[k] == kept[k]);
                } else {
                    assert(result[k] == last);
                }
            }
        }
    }
}

proof fn lemma_clean_parts_fixed(parts: Seq<Seq<char>>)
    requires
        forall|k: int| 0 <= k < parts.len() ==> kept_segment(#[trigger] parts[k]),
    ensures
        clean_parts(parts) == parts,
    decreases parts.len(),
{
    if parts.len() > 0 {
        let front = parts.drop_last();
        assert forall|k: int| 0 <= k < front.len() implies kept_segment(#[trigger] front[k]) by {
            assert(front[k] == parts[k]);
        }
        lemma_clean_parts_fixed(front);
        assert(kept_segment(parts[parts.len() - 1]));
        assert(front.push(parts.last()) =~= parts);
    }
}

proof fn lemma_split_of_join(parts: Seq<Seq<char>>)
    requires
        parts.len() > 0,
        forall|k: int| 0 <= k < parts.len() ==> kept_segment(#[trigger] parts[k]),
    ensures
        split_by(join_slash(parts), key_pred()) == parts,
    decreases parts.len(),
{
    let pred = key_pred();
    if parts.len() == 1 {
        assert(kept_segment(parts[0]));
        lemma_no_sep_means_one_piece(parts[0]);
        assert(seq![parts[0]] =~= parts);
    } else {
        let front = parts.drop_last();
        assert forall|k: int| 0 <= k < front.len() implies kept_segment(#[trigger] front[k]) by {
            assert(front[k] == parts[k]);
        }
        lemma_split_of_join(front);
        let head = join_slash(front);
        let last = parts.last();
        assert(kept_segment(parts[parts.len() - 1]));
        let whole = join_slash(parts);
        assert(whole == head + seq!['/'] + last);
        let i = head.len() as int;
        crate::text::lemma_last_index_where(whole, pred);
        assert(whole[i] == '/');
        assert(pred(whole[i]));
        assert forall|j: int| i < j < whole.len() implies !pred(#[trigger] whole[j]) by {
            assert(whole[j] == last[j - i - 1]);
            assert(!is_sep(last[j - i - 1]));
        }
        let found = last_index_where(whole, pred);
        assert(found == i) by {
            if found < i {
                assert(pred(whole[i]));
            }
        }
        assert(whole.subrange(0, i) =~= head);
        assert(whole.subrange(i + 1, whole.len() as int) =~= last);
        assert(front.push(last) =~= parts);
    }
}

proof fn lemma_join_ends_in_last(parts: Seq<Seq<char>>)
    requires
        parts.len() > 0,
        parts.last().len() > 0,
    ensures
        join_slash(parts).len() > 0,
        join_slash(parts).last() == parts.last().last(),
{
    if parts.len() > 1 {
        let whole = join_slash(parts);
        assert(whole == join_slash(parts.drop_last()) + seq!['/'] + parts.last());
    }
}

/// A cleaned path is `.` or ends in something other than a separator.
proof fn lemma_clean_shape(path: Seq<char>)
    ensures
        spec_clean(path) == dot() || (spec_clean(path).len() > 0 && !is_sep(
            spec_clean(path).last(),
        )),
{
    let pieces = split_by(path, key_pred());
    lemma_split_pieces_have_no_sep(path);
    lemma_clean_parts_kept(pieces);
    let parts = clean_parts(pieces);
    if parts.len() > 0 {
        assert(kept_segment(parts[parts.len() - 1]));
        lemma_join_ends_in_last(parts);
        let last = parts.last();
        assert(!is_sep(last[last.len() - 1]));
    }
}

/// A root confines by whole segments of cleaned paths: what it admits is
/// the root itself or lies below it, never a sibling whose name merely
/// begins with the root's.
pub proof fn law_root_compares_whole_segments(candidate: Seq<char>, root: Seq<char>)
    requires
        spec_within_root(candidate, root, false, '/'),
        spec_clean(root) != dot(),
    ensures
        spec_clean(candidate) == spec_clean(root) || {
            let prefix = spec_clean(root).push('/');
            &&& prefix.len() <= spec_clean(candidate).len()
            &&& spec_clean(candidate).subrange(0, prefix.len() as int) == prefix
        },
{
    lemma_clean_shape(root);
}

/// The segments a cleaned path is made of.
pub open spec fn clean_segments(path: Seq<char>) -> Seq<Seq<char>> {
    clean_parts(split_by(path, key_pred()))
}

proof fn lemma_join_of_kept(parts: Seq<Seq<char>>)
    requires
        parts.len() > 0,
        forall|k: int| 0 <= k < parts.len() ==> kept_segment(#[trigger] parts[k]),
    ensures
        join_slash(parts).len() > 0,
        !is_sep(join_slash(parts)[0]),
        forall|i: int| 0 <= i < join_slash(parts).len() ==> #[trigger] join_slash(parts)[i] != '\\',
    decreases parts.len(),
{
    let whole = join_slash(parts);
    if parts.len() == 1 {
        assert(kept_segment(parts[0]));
        assert forall|i: int| 0 <= i < whole.len() implies #[trigger] whole[i] != '\\' by {
            assert(!is_sep(parts[0][i]));
        }
    } else {
        let front = parts.drop_last();
        assert forall|k: int| 0 <= k < front.len() implies kept_segment(#[trigger] front[k]) by {
            assert(front[k] == parts[k]);
        }
        lemma_join_of_kept(front);
        let head = join_slash(front);
        let last = parts.last();
        assert(kept_segment(parts[parts.len() - 1]));
        assert(whole == head + seq!['/'] + last);
        assert(whole[0] == head[0]);
        assert forall|i: int| 0 <= i < whole.len() implies #[trigger] whole[i] != '\\' by {
            if i < head.len() {
                assert(whole[i] == head[i]);
            } else if i > head.len() {
                assert(whole[i] == last[i - head.len() - 1]);
                assert(!is_sep(last[i - head.len() - 1]));
            }
        }
    }
}

/// The shape of a cleaned path: `.` when nothing is left, else its
/// segments joined by `/`, each non-empty, none `.` or `..`, none holding
/// a separator; so it never begins or ends with `/`, holds no backslash, and
/// reads back into the same segments.
pub proof fn law_clean_shape(path: Seq<char>)
    ensures
        forall|k: int|
            0 <= k < clean_segments(path).len() ==> kept_segment(#[trigger] clean_segments(path)[k]),
        clean_segments(path).len() == 0 ==> spec_clean(path) == dot(),
        clean_segments(path).len() > 0 ==> spec_clean(path) == join_slash(clean_segments(path)),
        clean_segments(path).len() > 0 ==> split_by(spec_clean(path), key_pred())
            == clean_segments(path),
        spec_clean(path).len() > 0,
        spec_clean(path)[0] != '/',
        spec_clean(path).last() != '/',
        forall|i: int| 0 <= i < spec_clean(path).len() ==> #[trigger] spec_clean(path)[i] != '\\',
{
    let pieces = split_by(path, key_pred());
    lemma_split_pieces_have_no_sep(path);
    lemma_clean_parts_kept(pieces);
    let parts = clean_parts(pieces);
    lemma_clean_shape(path);
    if parts.len() > 0 {
        lemma_join_of_kept(parts);
        lemma_split_of_join(parts);
    } else {
        assert(spec_clean(path) == dot());
        assert forall|i: int| 0 <= i < dot().len() implies #[trigger] dot()[i] != '\\' by {}
    }
}

proof fn lemma_last_index_at(s: Seq<char>, pred: spec_fn(char) -> bool, i: int)
    requires
        0 <= i < s.len(),
        pred(s[i]),
        forall|j: int| i < j < s.len() ==> !pred(#[trigger] s[j]),
    ensures
        last_index_where(s, pred) == i,
{
    crate::text::lemma_last_index_where(s, pred);
    let found = last_index_where(s, pred);
    if found < i {
        assert(!pred(s[i]));
    }
}

proof fn lemma_split_at_slash(x: Seq<char>, y: Seq<char>)
    ensures
        split_by(x + seq!['/'] + y, key_pred()) == split_by(x, key_pred()) + split_by(
            y,
            key_pred(),
        ),
    decreases y.len(),
{
    let pred = key_pred();
    let whole = x + seq!['/'] + y;
    crate::text::lemma_last_index_where(y, pred);
    let j = last_index_where(y, pred);
    if j < 0 {
        assert forall|k: int| 0 <= k < y.len() implies !is_sep(#[trigger] y[k]) by {
            assert(!pred(y[k]));
        }
        lemma_no_sep_means_one_piece(y);
        assert forall|k: int| x.len() < k < whole.len() implies !pred(#[trigger] whole[k]) by {
            assert(whole[k] == y[k - x.len() - 1]);
        }
        assert(pred(whole[x.len() as int]));
        lemma_last_index_at(whole, pred, x.len() as int);
        assert(whole.subrange(0, x.len() as int) =~= x);
        assert(whole.subrange(x.len() as int + 1, whole.len() as int) =~= y);
        assert(split_by(x, pred).push(y) =~= split_by(x, pred) + seq![y]);
    } else {
        let at = x.len() as int + 1 + j;
        assert(whole[at] == y[j]);
        assert forall|k: int| at < k < whole.len() implies !pred(#[trigger] whole[k]) by {
            assert(whole[k] == y[k - x.len() - 1]);
        }
        lemma_last_index_at(whole, pred, at);
        let y0 = y.subrange(0, j);
        let tail = y.subrange(j + 1, y.len() as int);
        assert(whole.subrange(0, at) =~= x + seq!['/'] + y0);
        assert(whole.subrange(at + 1, whole.len() as int) =~= tail);
        lemma_split_at_slash(x, y0);
        assert(split_by(y, pred) == split_by(y0, pred).push(tail));
        assert((split_by(x, pred) + split_by(y0, pred)).push(tail) =~= split_by(x, pred) + split_by(
            y0,
            pred,
        ).push(tail));
    }
}

proof fn lemma_join_append(a: Seq<Seq<char>>, b: Seq<Seq<char>>)
    requires
        a.len() > 0,
        b.len() > 0,
    ensures
        join_slash(a + b) == join_slash(a) + seq!['/'] + join_slash(b),
    decreases b.len(),
{
    if b.len() == 1 {
        assert((a + b).drop_last() =~= a);
        assert((a + b).last() == b[0]);
    } else {
        let front = b.drop_last();
        lemma_join_append(a, front);
        assert((a + b).drop_last() =~= a + front);
        assert((a + b).last() == b.last());
    }
}

/// Whether the segments `a` begin the segments `b`.
pub open spec fn segments_begin(a: Seq<Seq<char>>, b: Seq<Seq<char>>) -> bool {
    a.len() <= b.len() && b.subrange(0, a.len() as int) == a
}

proof fn lemma_dot_has_no_segments(path: Seq<char>)
    ensures
        (spec_clean(path) == dot()) == (clean_segments(path).len() == 0),
{
    law_clean_shape(path);
    let parts = clean_segments(path);
    if parts.len() > 0 {
        if parts.len() == 1 {
            assert(kept_segment(parts[0]));
        } else {
            let whole = join_slash(parts);
            assert(whole == join_slash(parts.drop_last()) + seq!['/'] + parts.last());
            assert forall|k: int| 0 <= k < parts.drop_last().len() implies kept_segment(
                #[trigger] parts.drop_last()[k],
            ) by {
                assert(parts.drop_last()[k] == parts[k]);
            }
            lemma_join_of_kept(parts.drop_last());
            assert(whole.len() > 1);
        }
    }
}

/// A root that confines anything admits exactly what lies at or below
/// it by whole segments: on slash-keyed paths, `candidate` is within
/// `root` exactly when the root cleans to `.` or the segments of the
/// cleaned root begin the segments of the cleaned candidate. A shared
/// string prefix alone never passes.
pub proof fn law_within_root_by_segments(candidate: Seq<char>, root: Seq<char>)
    ensures
        spec_within_root(candidate, root, false, '/') <==> (clean_segments(root).len() == 0
            || segments_begin(clean_segments(root), clean_segments(candidate))),
{
    let c = spec_clean(candidate);
    let r = spec_clean(root);
    let pc = clean_segments(candidate);
    let pr = clean_segments(root);
    law_clean_shape(candidate);
    law_clean_shape(root);
    lemma_dot_has_no_segments(candidate);
    lemma_dot_has_no_segments(root);
    let pred = key_pred();
    if pr.len() > 0 {
        assert(r.len() > 0 && r.last() == r[r.len() - 1]);
        let prefix = r.push('/');
        if spec_within_root(candidate, root, false, '/') {
            if c == r {
                assert(pc == pr);
                assert(pc.subrange(0, pr.len() as int) =~= pr);
            } else {
                assert(prefix.len() <= c.len() && c.subrange(0, prefix.len() as int) == prefix);
                let y = c.subrange(prefix.len() as int, c.len() as int);
                assert(c =~= c.subrange(0, prefix.len() as int) + y);
                assert(prefix =~= r + seq!['/']);
                assert(c =~= r + seq!['/'] + y);
                lemma_split_at_slash(r, y);
                assert(c != dot()) by {
                    if c == dot() {
                        assert(c.len() == 1);
                    }
                }
                assert(pc == pr + split_by(y, pred));
                assert(pc.subrange(0, pr.len() as int) =~= pr);
            }
        }
        if segments_begin(pr, pc) {
            if pc.len() == pr.len() {
                assert(pc =~= pr);
            } else {
                let rest = pc.subrange(pr.len() as int, pc.len() as int);
                assert(pc =~= pr + rest);
                lemma_join_append(pr, rest);
                assert(c == r + seq!['/'] + join_slash(rest));
                assert(c.subrange(0, prefix.len() as int) =~= prefix);
            }
        }
    }
}

/// Cleaning a path twice gives what cleaning it once gives: a cleaned
/// path is already a map key.
pub proof fn law_clean_is_idempotent(path: Seq<char>)
    ensures
        spec_clean(spec_clean(path)) == spec_clean(path),
{
    let pieces = split_by(path, key_pred());
    lemma_split_pieces_have_no_sep(path);
    lemma_clean_parts_kept(pieces);
    let parts = clean_parts(pieces);
    if parts.len() == 0 {
        assert(no_sep(dot()));
        lemma_no_sep_means_one_piece(dot());
        assert(clean_parts(seq![dot()]) == clean_step(clean_parts(Seq::<Seq<char>>::empty()), dot()))
            by {
            assert(seq![dot()].drop_last() =~= Seq::<Seq<char>>::empty());
        }
    } else {
        lemma_split_of_join(parts);
        lemma_clean_parts_fixed(parts);
    }
}

proof fn lemma_split_extend(s: Seq<char>, start: int, end: int, pred: spec_fn(char) -> bool)
    requires
        0 <= start <= end <= s.len(),
        start == 0 || pred(s[start - 1]),
        forall|j: int| start <= j < end ==> !pred(#[trigger] s[j]),
    ensures
        start == 0 ==> split_by(s.subrange(0, end), pred) == seq![s.subrange(0, end)],
        start > 0 ==> split_by(s.subrange(0, end), pred) == split_by(
            s.subrange(0, start - 1),
            pred,
        ).push(s.subrange(start, end)),
{
    let prefix = s.subrange(0, end);
    crate::text::lemma_last_index_where(prefix, pred);
    let i = last_index_where(prefix, pred);
    if start == 0 {
        assert(i < 0) by {
            if i >= 0 {
                assert(prefix[i] == s[i]);
            }
        }
    } else {
        assert(prefix[start - 1] == s[start - 1]);
        assert(i == start - 1) by {
            if i > start - 1 {
                assert(prefix[i] == s[i]);
            }
        }
        assert(prefix.subrange(0, i) =~= s.subrange(0, start - 1));
        assert(prefix.subrange(i + 1, prefix.len() as int) =~= s.subrange(start, end));
    }
}

/// Which of the three special segments `segment` is: 0 for empty or `.`,
/// 1 for `..`, 2 for anything else.
fn segment_class(segment: &Vec<char>) -> (r: u8)
    ensures
        r == 0 <==> (segment@.len() == 0 || segment@ == dot()),
        r == 1 <==> segment@ == dot_dot(),
        r == 2 <==> !(segment@.len() == 0 || segment@ == dot() || segment@ == dot_dot()),
{
    if segment.len() == 0 {
        0
    } else if segment.len() == 1 && segment[0] == '.' {
        assert(segment@ =~= dot());
        0
    } else if segment.len() == 2 && segment[0] == '.' && segment[1] == '.' {
        assert(segment@ =~= dot_dot());
        1
    } else {
        assert(segment@ != dot()) by {
            if segment@ == dot() {
                assert(segment@[0] == '.');
            }
        }
        assert(segment@ != dot_dot()) by {
            if segment@ == dot_dot() {
                assert(segment@[0] == '.' && segment@[1] == '.');
            }
        }
        2
    }
}

/// `parts` joined with `/`.
fn join_parts(parts: &Vec<String>) -> (r: String)
    ensures
        r@ == join_slash(parts.deep_view()),
{
    let mut out = String::new();
    let ghost ps = parts.deep_view();
    let mut i: usize = 0;
    proof {
        reveal_strlit("/");
        assert(ps.take(0) =~= Seq::<Seq<char>>::empty());
    }
    while i < parts.len()
        invariant
            i <= parts.len(),
            ps == parts.deep_view(),
            "/"@ == seq!['/'],
            out@ == join_slash(ps.take(i as int)),
        decreases parts.len() - i,
    {
        let ghost before = ps.take(i as int);
        assert(ps.take(i + 1) =~= before.push(ps[i as int]));
        assert(ps.take(i + 1).drop_last() =~= before);
        if i == 0 {
            out = String::from_str(parts[i].as_str());
        } else {
            out = concat(concat(out.as_str(), "/").as_str(), parts[i].as_str());
        }
        i = i + 1;
    }
    assert(ps.take(i as int) =~= ps);
    out
}

/// Split `path` at each separator chosen by `native` (`/` or `sep` when
/// true, `/` or `\` when false) and fold the segments with the step for
/// `native` (lexical when true, clean when false).
fn fold_segments(path: &str, native: bool, sep: char) -> (parts: Vec<String>)
    ensures
        parts.deep_view() == fold_parts(
            native,
            split_by(
                path@,
                if native {
                    native_pred(sep)
                } else {
                    key_pred()
                },
            ),
        ),
{
    let chars = chars_of(path);
    let ghost pred = if native {
        native_pred(sep)
    } else {
        key_pred()
    };
    let mut parts: Vec<String> = Vec::new();
    let mut start: usize = 0;
    let mut j: usize = 0;
    loop
        invariant
            chars@ == path@,
            pred == (if native {
                native_pred(sep)
            } else {
                key_pred()
            }),
            start <= j <= chars.len(),
            start == 0 || pred(chars@[start - 1]),
            forall|k: int| start <= k < j && k < chars.len() ==> !pred(#[trigger] chars@[k]),
            start == 0 ==> parts.deep_view() == Seq::<Seq<char>>::empty(),
            start > 0 ==> parts.deep_view() == fold_parts(
                native,
                split_by(chars@.subrange(0, start - 1), pred),
            ),
        decreases chars.len() - j,
    {
        let at_end = j == chars.len();
        let is_break = at_end || chars[j] == '/' || (native && chars[j] == sep) || (!native && chars[j] == '\\');
        if is_break {
            let segment_text = slice(path, start, j);
            let segment = chars_of(segment_text.as_str());
            let ghost before = parts.deep_view();
            let ghost segs = split_by(chars@.subrange(0, j as int), pred);
            proof {
                lemma_split_extend(chars@, start as int, j as int, pred);
                if start == 0 {
                    assert(segs.drop_last() =~= Seq::<Seq<char>>::empty());
                } else {
                    assert(segs.drop_last() =~= split_by(chars@.subrange(0, start - 1), pred));
                }
                assert(segs.last() == segment@);
                assert(segs.len() > 0);
                if start == 0 {
                    assert(fold_parts(native, segs.drop_last()) =~= before);
                } else {
                    assert(fold_parts(native, segs.drop_last()) == before);
                }
                assert(fold_parts(native, segs) == if native {
                    lexical_step(before, segment@)
                } else {
                    clean_step(before, segment@)
                });
            }
            let class = segment_class(&segment);
            if class == 1 {
                if parts.len() > 0 {
                    parts.pop();
                    assert(parts.deep_view() =~= before.drop_last());
                } else if native {
                    crate::text::push_string(&mut parts, segment_text);
                }
            } else if class == 2 {
                crate::text::push_string(&mut parts, segment_text);
            }
            if at_end {
                assert(chars@.subrange(0, j as int) =~= chars@);
                return parts;
            }
            start = j + 1;
        } else {
            assert(!pred(chars@[j as int]));
        }
        j = j + 1;
    }
}

/// Normalize a path into a map key: slash separated, `.` and `..`
/// resolved, no leading slash, and `.` for the root. A `..` that would
/// climb above the root is dropped, so a reference can never name a
/// parent of the filesystem root.
pub fn clean(path: &str) -> (r: String)
    ensures
        r@ == spec_clean(path@),
{
    let parts = fold_segments(path, false, '/');
    if parts.len() == 0 {
        proof {
            reveal_strlit(".");
        }
        String::from_str(".")
    } else {
        join_parts(&parts)
    }
}

/// Resolve `.` and `..` in a native path, whose segments `/` or the
/// platform's separator `sep` divide, without touching the filesystem.
pub fn lexical(path: &str, sep: char) -> (r: String)
    ensures
        r@ == spec_lexical(path@, sep),
{
    let parts = fold_segments(path, true, sep);
    let chars = chars_of(path);
    let joined = join_parts(&parts);
    proof {
        reveal_strlit("/");
        reveal_strlit(".");
    }
    if chars.len() > 0 && (chars[0] == '/' || chars[0] == sep) {
        concat("/", joined.as_str())
    } else if parts.len() == 0 {
        String::from_str(".")
    } else {
        joined
    }
}

/// Is `candidate` at or below `root`, comparing whole path segments?
///
/// Both are compared after lexical resolution, so `root/../etc` is
/// rejected rather than accepted on the strength of its prefix. Segment
/// comparison is what stops `/srv/appdata` passing for `/srv/app`. Native
/// paths (`os_paths`) are split at `/` and at the platform's separator
/// `sep`; map keys at `/` and `\`.
pub fn within_root(candidate: &str, root: &str, os_paths: bool, sep: char) -> (r: bool)
    ensures
        r == spec_within_root(candidate@, root@, os_paths, sep),
{
    let (c, r) = if os_paths {
        (lexical(candidate, sep), lexical(root, sep))
    } else {
        (clean(candidate), clean(root))
    };
    proof {
        reveal_strlit(".");
        reveal_strlit("/");
        assert("."@ =~= dot());
        assert("/"@ =~= seq!['/']);
    }
    if r.as_str().is_empty() || str_eq(r.as_str(), ".") {
        return true;
    }
    if str_eq(c.as_str(), r.as_str()) {
        return true;
    }
    let ghost rv = r@;
    proof {
        if rv.len() > 0 {
            assert(rv.subrange(rv.len() - 1, rv.len() as int) =~= seq![rv.last()]);
        }
    }
    let slash_ended = ends_with(r.as_str(), "/");
    proof {
        if slash_ended {
            let tail = rv.subrange(rv.len() - 1, rv.len() as int);
            assert(tail == seq!['/']);
            assert(tail[0] == rv.last());
        } else if rv.len() > 0 && rv.last() == '/' {
            assert(rv.subrange(rv.len() - 1, rv.len() as int) =~= seq!['/']);
        }
    }
    assert(slash_ended == (rv.len() > 0 && rv.last() == '/'));
    let prefix = if slash_ended {
        r
    } else {
        concat(r.as_str(), "/")
    };
    proof {
        assert(rv + seq!['/'] =~= rv.push('/'));
        let want = if rv.len() > 0 && rv.last() == '/' {
            rv
        } else {
            rv.push('/')
        };
        assert(prefix@ == want);
    }
    starts_with(c.as_str(), prefix.as_str())
}

} // verus!
