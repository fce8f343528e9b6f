//! Path specs: how a reference becomes a full path, what kind of source
//! it names, and every path it could name.

use vstd::prelude::*;

use crate::text::{
    chars_of, concat, concat3, find_last_dot, find_last_sep, is_sep, last_dot, last_sep,
    last_segment, push_string, slice,
};

verus! {

/// An unknown or missing source-reference extension.
pub const NONE: &'static str = "";

/// The path to a source, including the base prefix when there is one.
#[derive(Clone, Debug, Default, PartialEq, Eq)]
pub struct PathSpec {
    /// The source kind, normally the extension of the last path segment.
    pub kind: String,
    /// The reference exactly as written, which may be relative.
    pub path: Option<String>,
    /// The normalized full path.
    pub full: Option<String>,
    /// The base the reference resolved against.
    pub base: String,
    /// Whether the reference was absolute.
    pub abs: bool,
}

/// The mathematical content of a [`PathSpec`].
pub struct PathSpecView {
    pub kind: Seq<char>,
    pub path: Option<Seq<char>>,
    pub full: Option<Seq<char>>,
    pub base: Seq<char>,
    pub abs: bool,
}

impl View for PathSpec {
    type V = PathSpecView;

    open spec fn view(&self) -> PathSpecView {
        PathSpecView {
            kind: self.kind@,
            path: self.path.deep_view(),
            full: self.full.deep_view(),
            base: self.base@,
            abs: self.abs,
        }
    }
}

/// The extension of the last path segment of `full`, without its dot;
/// empty when that segment has no dot.
pub open spec fn spec_ext_kind(full: Seq<char>) -> Seq<char> {
    let segment = last_segment(full);
    if last_dot(segment) >= 0 {
        segment.subrange(last_dot(segment) + 1, segment.len() as int)
    } else {
        Seq::empty()
    }
}

/// The kind of an optional full path: none at all is [`NONE`].
pub open spec fn kind_of(full: Option<Seq<char>>) -> Seq<char> {
    match full {
        Some(f) => spec_ext_kind(f),
        None => Seq::empty(),
    }
}

/// Whether a reference is absolute: it starts with a separator.
pub open spec fn is_abs_ref(path: Seq<char>) -> bool {
    path.len() > 0 && is_sep(path[0])
}

/// The full path a reference names against `base`: an absolute
/// reference as written, a relative one prefixed by the base and a
/// slash (when there is a base), and nothing for an absent or empty
/// reference.
pub open spec fn spec_full(reference: Option<Seq<char>>, base: Seq<char>) -> Option<Seq<char>> {
    match reference {
        Some(path) => if is_abs_ref(path) {
            Some(path)
        } else if path.len() > 0 {
            if base.len() == 0 {
                Some(path)
            } else {
                Some(base + seq!['/'] + path)
            }
        } else {
            None
        },
        None => None,
    }
}

/// The [`PathSpec`] of `reference` against `base`.
pub open spec fn spec_path_spec(reference: Option<Seq<char>>, base: Seq<char>) -> PathSpecView {
    PathSpecView {
        kind: kind_of(spec_full(reference, base)),
        path: reference,
        full: spec_full(reference, base),
        base: base,
        abs: match reference {
            Some(path) => is_abs_ref(path),
            None => false,
        },
    }
}

/// `seq!['/', 'i', 'n', 'd', 'e', 'x']`.
pub open spec fn index_stem() -> Seq<char> {
    seq!['/', 'i', 'n', 'd', 'e', 'x']
}

/// Every path `full` could name: itself; then, when its last segment has
/// no dot, `full` plus each implicit extension, `full/index` plus each,
/// and `full/index.<segment>` plus each.
pub open spec fn spec_potentials(full: Seq<char>, exts: Seq<Seq<char>>) -> Seq<Seq<char>> {
    let segment = last_segment(full);
    if full.len() == 0 {
        Seq::empty()
    } else if segment.contains('.') {
        seq![full]
    } else {
        seq![full] + exts.map_values(|e: Seq<char>| full + e) + exts.map_values(
            |e: Seq<char>| full + index_stem() + e,
        ) + if segment.len() > 0 {
            exts.map_values(|e: Seq<char>| full + index_stem() + seq!['.'] + segment + e)
        } else {
            Seq::empty()
        }
    }
}

/// `s` with every trailing separator removed.
pub open spec fn trim_trailing_seps(s: Seq<char>) -> Seq<char>
    decreases s.len(),
{
    if s.len() > 0 && is_sep(s.last()) {
        trim_trailing_seps(s.drop_last())
    } else {
        s
    }
}

/// The directory a relative reference inside `path` resolves against:
/// everything before the last separator once trailing separators are
/// trimmed; empty when there is none; the root separator itself when it
/// stands first.
pub open spec fn spec_source_dir(path: Seq<char>) -> Seq<char> {
    let trimmed = trim_trailing_seps(path);
    let index = last_sep(trimmed);
    if index < 0 {
        Seq::empty()
    } else if index == 0 {
        trimmed.subrange(0, 1)
    } else {
        trimmed.subrange(0, index)
    }
}

/// `ext` with a leading dot, adding one when it is missing.
pub open spec fn spec_dotted(ext: Seq<char>) -> Seq<char> {
    if ext.len() > 0 && ext[0] == '.' {
        ext
    } else {
        seq!['.'] + ext
    }
}

/// `.jsonic`, `.jsc` and `.json`, in that order.
pub open spec fn spec_default_implicit_ext() -> Seq<Seq<char>> {
    seq![
        seq!['.', 'j', 's', 'o', 'n', 'i', 'c'],
        seq!['.', 'j', 's', 'c'],
        seq!['.', 'j', 's', 'o', 'n'],
    ]
}

/// The source kind: the extension of the LAST path segment, without the
/// dot, or [`NONE`] when that segment has no dot.
///
/// It is segment-scoped, so a dot in a parent folder (`a.d/foo`) does not
/// make an extensionless reference look like it has a kind.
pub fn ext_kind(full: Option<&str>) -> (kind: String)
    ensures
        kind@ == kind_of(full.deep_view()),
{
    match full {
        None => {
            proof {
                reveal_strlit("");
            }
            String::from_str(NONE)
        },
        Some(full) => {
            let chars = chars_of(full);
            let start = match find_last_sep(&chars, chars.len()) {
                Some(index) => index + 1,
                None => 0,
            };
            assert(chars@.subrange(0, chars.len() as int) =~= chars@);
            let segment = slice(full, start, chars.len());
            let seg_chars = chars_of(segment.as_str());
            match find_last_dot(&seg_chars) {
                Some(index) => slice(segment.as_str(), index + 1, seg_chars.len()),
                None => {
                    proof {
                        reveal_strlit("");
                    }
                    String::from_str(NONE)
                },
            }
        },
    }
}

/// Normalize a reference into a [`PathSpec`] against `base`.
///
/// An absolute reference ignores the base; an empty or absent one has no
/// full path.
pub fn resolve_path_spec(reference: Option<&str>, base: &str) -> (spec: PathSpec)
    ensures
        spec@ == spec_path_spec(reference.deep_view(), base@),
{
    let ghost r_view = reference.deep_view();
    let (path, abs, full): (Option<String>, bool, Option<String>) = match reference {
        None => (None, false, None),
        Some(r) => {
            assert(r_view == Some(r@));
            let chars = chars_of(r);
            let abs = chars.len() > 0 && (chars[0] == '/' || chars[0] == '\\');
            let full = if abs {
                Some(String::from_str(r))
            } else if chars.len() > 0 {
                if base.is_empty() {
                    Some(String::from_str(r))
                } else {
                    proof {
                        reveal_strlit("/");
                    }
                    let joined = concat3(base, "/", r);
                    assert(joined@ == base@ + seq!['/'] + r@);
                    Some(joined)
                }
            } else {
                None
            };
            assert(full.deep_view() == spec_full(r_view, base@));
            assert(abs == is_abs_ref(r@));
            (Some(String::from_str(r)), abs, full)
        },
    };
    assert(full.deep_view() == spec_full(r_view, base@));
    assert(path.deep_view() == r_view);
    let kind = match &full {
        Some(f) => ext_kind(Some(f.as_str())),
        None => ext_kind(None),
    };
    assert(kind@ == kind_of(spec_full(r_view, base@)));
    PathSpec { kind, path, full, base: String::from_str(base), abs }
}

/// Every path a reference could name: the path itself, then the implicit
/// extensions, then a folder index file, then a folder index file that
/// repeats the folder name.
///
/// Whether a reference already has an extension is a property of its LAST
/// segment, not of the whole path, for the reason [`ext_kind`] gives.
pub fn build_potentials(full: &str, implicit_ext: &[String]) -> (potentials: Vec<String>)
    ensures
        potentials.deep_view() == spec_potentials(full@, implicit_ext.deep_view()),
{
    let mut potentials: Vec<String> = Vec::new();
    let chars = chars_of(full);
    if chars.len() == 0 {
        assert(potentials.deep_view() =~= Seq::<Seq<char>>::empty());
        return potentials;
    }
    push_string(&mut potentials, String::from_str(full));
    let start = match find_last_sep(&chars, chars.len()) {
        Some(index) => index + 1,
        None => 0,
    };
    assert(chars@.subrange(0, chars.len() as int) =~= chars@);
    let segment = slice(full, start, chars.len());
    let seg_chars = chars_of(segment.as_str());
    let ghost exts = implicit_ext.deep_view();
    let ghost f = full@;
    let ghost seg = last_segment(full@);
    assert(segment@ == seg);
    if let Some(index) = find_last_dot(&seg_chars) {
        proof {
            crate::text::lemma_last_index_where(seg, |c: char| c == '.');
            assert(seg[index as int] == '.');
        }
        assert(potentials.deep_view() =~= seq![f]);
        return potentials;
    }
    proof {
        crate::text::lemma_last_index_where(seg, |c: char| c == '.');
        assert(!seg.contains('.'));
    }
    proof {
        reveal_strlit("/index");
        reveal_strlit("/index.");
        assert("/index"@ =~= index_stem());
        assert("/index."@ =~= index_stem() + seq!['.']);
    }
    let mut i: usize = 0;
    while i < implicit_ext.len()
        invariant
            i <= implicit_ext.len(),
            exts == implicit_ext.deep_view(),
            f == full@,
            potentials.deep_view() =~= seq![f] + exts.take(i as int).map_values(
                |e: Seq<char>| f + e,
            ),
        decreases implicit_ext.len() - i,
    {
        let next = concat(full, implicit_ext[i].as_str());
        push_string(&mut potentials, next);
        assert(exts.take(i + 1) =~= exts.take(i as int).push(exts[i as int]));
        i = i + 1;
    }
    assert(exts.take(i as int) =~= exts);
    let ghost first = potentials.deep_view();
    let mut i: usize = 0;
    while i < implicit_ext.len()
        invariant
            i <= implicit_ext.len(),
            exts == implicit_ext.deep_view(),
            f == full@,
            "/index"@ == index_stem(),
            potentials.deep_view() =~= first + exts.take(i as int).map_values(
                |e: Seq<char>| f + index_stem() + e,
            ),
        decreases implicit_ext.len() - i,
    {
        let next = concat3(full, "/index", implicit_ext[i].as_str());
        push_string(&mut potentials, next);
        assert(exts.take(i + 1) =~= exts.take(i as int).push(exts[i as int]));
        i = i + 1;
    }
    assert(exts.take(i as int) =~= exts);
    let ghost second = potentials.deep_view();
    if seg_chars.len() > 0 && !(seg_chars.len() == 1 && seg_chars[0] == '.') {
        let stem = concat3(full, "/index.", segment.as_str());
        assert(stem@ == f + index_stem() + seq!['.'] + seg);
        let mut i: usize = 0;
        while i < implicit_ext.len()
            invariant
                i <= implicit_ext.len(),
                exts == implicit_ext.deep_view(),
                f == full@,
                stem@ == f + index_stem() + seq!['.'] + seg,
                potentials.deep_view() =~= second + exts.take(i as int).map_values(
                    |e: Seq<char>| f + index_stem() + seq!['.'] + seg + e,
                ),
            decreases implicit_ext.len() - i,
        {
            let next = concat(stem.as_str(), implicit_ext[i].as_str());
            push_string(&mut potentials, next);
            assert(exts.take(i + 1) =~= exts.take(i as int).push(exts[i as int]));
            i = i + 1;
        }
        assert(exts.take(i as int) =~= exts);
    } else {
        assert(potentials.deep_view() =~= second + Seq::<Seq<char>>::empty());
    }
    potentials
}

/// The directory a relative reference inside `path` resolves against.
///
/// A path with no separator (an in-memory key such as `a.jsonic`) yields
/// the empty string, so a bare nested reference resolves plainly; a
/// separator at index zero yields the root separator.
pub fn source_dir(path: &str) -> (dir: String)
    ensures
        dir@ == spec_source_dir(path@),
{
    let chars = chars_of(path);
    let mut end: usize = chars.len();
    assert(chars@.subrange(0, end as int) =~= chars@);
    while end > 0 && (chars[end - 1] == '/' || chars[end - 1] == '\\')
        invariant
            end <= chars.len(),
            chars@ == path@,
            trim_trailing_seps(path@) == trim_trailing_seps(chars@.subrange(0, end as int)),
        decreases end,
    {
        assert(chars@.subrange(0, end as int).drop_last() =~= chars@.subrange(0, end - 1));
        end = end - 1;
    }
    let ghost trimmed = chars@.subrange(0, end as int);
    assert(trim_trailing_seps(trimmed) == trimmed);
    assert(trimmed == trim_trailing_seps(path@));
    match find_last_sep(&chars, end) {
        None => {
            proof {
                reveal_strlit("");
            }
            String::from_str("")
        },
        Some(0) => slice(path, 0, 1),
        Some(index) => slice(path, 0, index),
    }
}

/// `ext` with a leading dot, adding one when it is missing.
pub fn dotted(ext: &str) -> (r: String)
    ensures
        r@ == spec_dotted(ext@),
{
    let chars = chars_of(ext);
    if chars.len() > 0 && chars[0] == '.' {
        String::from_str(ext)
    } else {
        proof {
            reveal_strlit(".");
        }
        concat(".", ext)
    }
}

/// The default implicit extensions: `.jsonic`, `.jsc` and `.json`.
///
/// `.js` is deliberately absent: a `js` source is code, and loading one
/// would mean executing it.
pub fn default_implicit_ext() -> (exts: Vec<String>)
    ensures
        exts.deep_view() == spec_default_implicit_ext(),
{
    proof {
        reveal_strlit(".jsonic");
        reveal_strlit(".jsc");
        reveal_strlit(".json");
    }
    let mut exts: Vec<String> = Vec::new();
    let a = String::from_str(".jsonic");
    let b = String::from_str(".jsc");
    let c = String::from_str(".json");
    assert(a@ =~= seq!['.', 'j', 's', 'o', 'n', 'i', 'c']);
    assert(b@ =~= seq!['.', 'j', 's', 'c']);
    assert(c@ =~= seq!['.', 'j', 's', 'o', 'n']);
    push_string(&mut exts, a);
    push_string(&mut exts, b);
    push_string(&mut exts, c);
    assert(exts.deep_view() =~= spec_default_implicit_ext());
    exts
}

/// The candidates for a path begin with the path itself and each of them
/// extends it; a path whose last segment has an extension, and so a
/// kind, names nothing but itself.
pub proof fn law_potentials_extend_the_path(full: Seq<char>, exts: Seq<Seq<char>>)
    ensures
        full.len() > 0 ==> spec_potentials(full, exts)[0] == full,
        forall|i: int|
            0 <= i < spec_potentials(full, exts).len() ==> full.len() <= (
            #[trigger] spec_potentials(full, exts)[i]).len() && spec_potentials(full, exts)[i].subrange(
                0,
                full.len() as int,
            ) == full,
        spec_ext_kind(full).len() > 0 ==> spec_potentials(full, exts) == seq![full],
{
    let segment = last_segment(full);
    let all = spec_potentials(full, exts);
    if full.len() > 0 && !segment.contains('.') {
        let a = exts.map_values(|e: Seq<char>| full + e);
        let b = exts.map_values(|e: Seq<char>| full + index_stem() + e);
        let c = if segment.len() > 0 {
            exts.map_values(|e: Seq<char>| full + index_stem() + seq!['.'] + segment + e)
        } else {
            Seq::empty()
        };
        assert(all == seq![full] + a + b + c);
        assert forall|i: int| 0 <= i < all.len() implies full.len() <= (#[trigger] all[i]).len()
            && all[i].subrange(0, full.len() as int) == full by {
            if i == 0 {
                assert(all[i] == full);
                assert(full.subrange(0, full.len() as int) =~= full);
            } else if i < 1 + a.len() {
                assert(all[i] == a[i - 1]);
                assert(a[i - 1] == full + exts[i - 1]);
                assert((full + exts[i - 1]).subrange(0, full.len() as int) =~= full);
            } else if i < 1 + a.len() + b.len() {
                let k = i - 1 - a.len();
                assert(all[i] == b[k]);
                assert(b[k] == full + index_stem() + exts[k]);
                assert((full + index_stem() + exts[k]).subrange(0, full.len() as int) =~= full);
            } else {
                let k = i - 1 - a.len() - b.len();
                assert(all[i] == c[k]);
                assert(c[k] == full + index_stem() + seq!['.'] + segment + exts[k]);
                assert((full + index_stem() + seq!['.'] + segment + exts[k]).subrange(
                    0,
                    full.len() as int,
                ) =~= full);
            }
        }
    } else if full.len() > 0 {
        assert(full.subrange(0, full.len() as int) =~= full);
    }
    if spec_ext_kind(full).len() > 0 {
        crate::text::lemma_last_index_where(segment, |c: char| c == '.');
        let d = last_dot(segment);
        assert(d >= 0);
        assert(segment[d] == '.');
        assert(segment.contains('.'));
        assert(full.len() > 0) by {
            crate::text::lemma_last_index_where(full, |c: char| is_sep(c));
        }
    }
}

/// The kind of a path is read from its last segment alone: a dot in a
/// folder above it gives no kind.
pub proof fn law_kind_reads_the_last_segment_only(folders: Seq<char>, name: Seq<char>)
    requires
        forall|i: int| 0 <= i < name.len() ==> #[trigger] name[i] != '.' && !is_sep(name[i]),
    ensures
        spec_ext_kind(folders + seq!['/'] + name).len() == 0,
{
    let full = folders + seq!['/'] + name;
    crate::text::lemma_last_index_where(full, |c: char| is_sep(c));
    let i = last_sep(full);
    let at = folders.len() as int;
    assert(is_sep(full[at]));
    assert(i >= at);
    assert(i == at) by {
        if i > at {
            assert(full[i] == name[i - at - 1]);
        }
    }
    let segment = last_segment(full);
    assert(segment =~= name);
    crate::text::lemma_last_index_where(segment, |c: char| c == '.');
    if last_dot(segment) >= 0 {
        assert(segment[last_dot(segment)] == '.');
    }
}

} // verus!
