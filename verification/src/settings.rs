//! The plain settings of the plugin, and how they are normalized before
//! a parse can use them.

use vstd::prelude::*;

use crate::directive::{DEFAULT_MARKCHAR, DEFAULT_MAX_DEPTH};
use crate::paths::{default_implicit_ext, dotted, spec_default_implicit_ext, spec_dotted};
use crate::text::push_string;

verus! {

/// How many levels of nesting share one stack: every `SEGMENT` levels a
/// nested parse moves to a fresh thread with a stack of its own.
pub const SEGMENT: usize = 2;

/// Whether the nested parse at `depth` starts a new stack segment.
pub fn starts_segment(depth: usize) -> (r: bool)
    ensures
        r == (depth % SEGMENT == 1),
{
    depth % SEGMENT == 1
}

/// `@` as text.
pub open spec fn default_markchar() -> Seq<char> {
    seq!['@']
}

/// The directive character a parse uses for `markchar`: `@` when it is
/// empty.
pub open spec fn norm_markchar(markchar: Seq<char>) -> Seq<char> {
    if markchar.len() == 0 {
        default_markchar()
    } else {
        markchar
    }
}

/// The nesting cap a parse uses for `max_depth`: the default when it is
/// zero.
pub open spec fn norm_max_depth(max_depth: usize) -> usize {
    if max_depth == 0 {
        DEFAULT_MAX_DEPTH
    } else {
        max_depth
    }
}

/// Each of `exts` with a leading dot.
pub open spec fn all_dotted(exts: Seq<Seq<char>>) -> Seq<Seq<char>> {
    exts.map_values(|e: Seq<char>| spec_dotted(e))
}

/// Each of `exts` with a leading dot, adding one where it is missing.
pub fn dotted_all(exts: &Vec<String>) -> (r: Vec<String>)
    ensures
        r.deep_view() == all_dotted(exts.deep_view()),
{
    let ghost source = exts.deep_view();
    let mut out: Vec<String> = Vec::new();
    let mut j: usize = 0;
    while j < exts.len()
        invariant
            j <= exts.len(),
            source == exts.deep_view(),
            out.deep_view() == all_dotted(source.take(j as int)),
        decreases exts.len() - j,
    {
        let d = dotted(exts[j].as_str());
        push_string(&mut out, d);
        assert(all_dotted(source.take(j + 1)) =~= all_dotted(source.take(j as int)).push(
            spec_dotted(source[j as int]),
        ));
        j = j + 1;
    }
    assert(source.take(j as int) =~= source);
    out
}

/// The plain settings of the plugin: the base path, the directive
/// character, the implicit extensions and the nesting cap.
#[derive(Clone, Debug)]
pub struct PluginSettings {
    /// The base path references resolve against at the top level.
    pub path: String,
    /// The character that starts a reference.
    pub markchar: String,
    /// Extensions tried for a reference with none, in order.
    pub implicit_ext: Vec<String>,
    /// How deep a chain of sources may nest.
    pub max_depth: usize,
}

impl PluginSettings {
    /// The defaults: no base path, `@`, `.jsonic`, `.jsc` and `.json`,
    /// and [`DEFAULT_MAX_DEPTH`].
    pub fn new() -> (r: Self)
        ensures
            r.path@.len() == 0,
            r.markchar@ == default_markchar(),
            r.implicit_ext.deep_view() == spec_default_implicit_ext(),
            r.max_depth == DEFAULT_MAX_DEPTH,
    {
        proof {
            reveal_strlit("@");
            assert(DEFAULT_MARKCHAR@ =~= default_markchar());
        }
        PluginSettings {
            path: String::new(),
            markchar: String::from_str(DEFAULT_MARKCHAR),
            implicit_ext: default_implicit_ext(),
            max_depth: DEFAULT_MAX_DEPTH,
        }
    }

    /// Fill in what a parse would otherwise have to guess at: an empty
    /// directive character becomes `@`, every implicit extension gets its
    /// leading dot, and a cap of zero becomes [`DEFAULT_MAX_DEPTH`].
    pub fn normalized(self) -> (r: Self)
        ensures
            r.path@ == self.path@,
            r.markchar@ == norm_markchar(self.markchar@),
            r.implicit_ext.deep_view() == all_dotted(self.implicit_ext.deep_view()),
            r.max_depth == norm_max_depth(self.max_depth),
    {
        let markchar = if self.markchar.as_str().is_empty() {
            proof {
                reveal_strlit("@");
                assert(DEFAULT_MARKCHAR@ =~= default_markchar());
            }
            String::from_str(DEFAULT_MARKCHAR)
        } else {
            self.markchar
        };
        let implicit_ext = dotted_all(&self.implicit_ext);
        let max_depth = if self.max_depth == 0 {
            DEFAULT_MAX_DEPTH
        } else {
            self.max_depth
        };
        PluginSettings { path: self.path, markchar, implicit_ext, max_depth }
    }
}

/// Normalizing twice changes nothing more than normalizing once, and a
/// normalized cap is never zero.
pub proof fn law_normalize_idempotent(markchar: Seq<char>, exts: Seq<Seq<char>>, max_depth: usize)
    ensures
        norm_markchar(norm_markchar(markchar)) == norm_markchar(markchar),
        norm_markchar(markchar).len() > 0,
        all_dotted(all_dotted(exts)) == all_dotted(exts),
        norm_max_depth(norm_max_depth(max_depth)) == norm_max_depth(max_depth),
        norm_max_depth(max_depth) > 0,
{
    assert(all_dotted(all_dotted(exts)) =~= all_dotted(exts)) by {
        assert forall|i: int| 0 <= i < exts.len() implies #[trigger] all_dotted(all_dotted(exts))[i]
            == all_dotted(exts)[i] by {
            let d = spec_dotted(exts[i]);
            assert(d.len() > 0 && d[0] == '.');
        }
    }
}

/// A registration failure: a host grammar without the rules the plugin
/// modifies, a directive character already taken, or a grammar the
/// engine refused.
#[derive(Clone, Debug, PartialEq, Eq)]
pub struct MultiSourceError(pub String);

impl MultiSourceError {
    /// The message.
    pub fn message(&self) -> (r: &str)
        ensures
            r@ == self.0@,
    {
        self.0.as_str()
    }
}

/// The rules the plugin modifies, which the host grammar must supply:
/// the first of `val`, `map` and `pair` that `rules` lacks.
pub open spec fn first_missing_rule(rules: Seq<Seq<char>>) -> Option<Seq<char>> {
    if !rules.contains(seq!['v', 'a', 'l']) {
        Some(seq!['v', 'a', 'l'])
    } else if !rules.contains(seq!['m', 'a', 'p']) {
        Some(seq!['m', 'a', 'p'])
    } else if !rules.contains(seq!['p', 'a', 'i', 'r']) {
        Some(seq!['p', 'a', 'i', 'r'])
    } else {
        None
    }
}

/// The message refusing a host grammar that lacks `rule`.
pub open spec fn missing_rule_message(rule: Seq<char>) -> Seq<char> {
    seq![
        'M', 'u', 'l', 't', 'i', 'S', 'o', 'u', 'r', 'c', 'e', ' ', 'n', 'e', 'e', 'd', 's', ' ',
        'a', ' ', 'h', 'o', 's', 't', ' ', 'g', 'r', 'a', 'm', 'm', 'a', 'r', ' ', 's', 'u', 'p',
        'p', 'l', 'y', 'i', 'n', 'g', ' ', 't', 'h', 'e', ' ', '"',
    ] + rule + seq![
        '"', ' ', 'r', 'u', 'l', 'e', ':', ' ', 'i', 'n', 's', 't', 'a', 'l', 'l', ' ', 't', 'a',
        'b', 'n', 'a', 's', '_', 'j', 's', 'o', 'n', 'i', 'c', ' ', 'f', 'i', 'r', 's', 't', ',',
        ' ', 'o', 'r', ' ', 'u', 's', 'e', ' ', 'm', 'a', 'k', 'e', '_', 'w', 'i', 't', 'h',
    ]
}

/// Whether `rules` holds `name`.
fn has_rule(rules: &Vec<String>, name: &str) -> (r: bool)
    ensures
        r == rules.deep_view().contains(name@),
{
    let mut i: usize = 0;
    while i < rules.len()
        invariant
            i <= rules.len(),
            forall|j: int| 0 <= j < i ==> rules.deep_view()[j] != name@,
        decreases rules.len() - i,
    {
        if crate::text::str_eq(rules[i].as_str(), name) {
            assert(rules.deep_view()[i as int] == name@);
            return true;
        }
        i = i + 1;
    }
    false
}

/// Check that the host grammar, whose rules are `rules`, supplies every
/// rule the plugin modifies: the plugin defines no value grammar of its
/// own, so on a bare engine its directive could never match.
pub fn check_host_rules(rules: &Vec<String>) -> (r: Result<(), MultiSourceError>)
    ensures
        match first_missing_rule(rules.deep_view()) {
            None => r is Ok,
            Some(rule) => r is Err && r->Err_0.0@ == missing_rule_message(rule),
        },
{
    proof {
        reveal_strlit("val");
        reveal_strlit("map");
        reveal_strlit("pair");
    }
    let names: [&str; 3] = ["val", "map", "pair"];
    assert("val"@ =~= seq!['v', 'a', 'l']);
    assert("map"@ =~= seq!['m', 'a', 'p']);
    assert("pair"@ =~= seq!['p', 'a', 'i', 'r']);
    let mut i: usize = 0;
    while i < 3
        invariant
            i <= 3,
            names@ == seq!["val", "map", "pair"],
            "val"@ =~= seq!['v', 'a', 'l'],
            "map"@ =~= seq!['m', 'a', 'p'],
            "pair"@ =~= seq!['p', 'a', 'i', 'r'],
            i >= 1 ==> rules.deep_view().contains(seq!['v', 'a', 'l']),
            i >= 2 ==> rules.deep_view().contains(seq!['m', 'a', 'p']),
            i >= 3 ==> rules.deep_view().contains(seq!['p', 'a', 'i', 'r']),
        decreases 3 - i,
    {
        let name = names[i];
        if !has_rule(rules, name) {
            proof {
                reveal_strlit("MultiSource needs a host grammar supplying the \"");
                reveal_strlit("\" rule: install tabnas_jsonic first, or use make_with");
            }
            let message = crate::text::concat3(
                "MultiSource needs a host grammar supplying the \"",
                name,
                "\" rule: install tabnas_jsonic first, or use make_with",
            );
            assert(message@ =~= missing_rule_message(name@));
            return Err(MultiSourceError(message));
        }
        i = i + 1;
    }
    Ok(())
}

} // verus!
