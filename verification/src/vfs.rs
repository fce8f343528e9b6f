//! The read-only filesystem seam the `file` and `pkg` resolvers reach
//! through, and the in-memory filesystem that implements it.
//!
//! A parse metadata value cannot carry a filesystem, so the seam is a
//! typed option: [`SourceFs`] on the plugin options, or on one resolver.
//! That is what lets a test resolve from a map with no disk at all and a
//! caller confine resolution to a directory it chooses.

use vstd::prelude::*;

use crate::lexical::{clean, dot, join_slash, spec_clean};
use crate::sorted::{strictly_sorted, SortedMap};
use crate::text::{
    chars_of, concat, find_first_slash, find_last_slash, first_slash, join_with_slash, last_slash,
    slice, starts_with, str_eq,
};

verus! {

/// One entry of a directory listing.
#[derive(Clone, Debug, PartialEq, Eq)]
pub struct DirEntry {
    /// The entry's own name, without any directory part.
    pub name: String,
    /// Whether the entry is a directory.
    pub is_dir: bool,
}

/// The names of a listing, in order.
pub open spec fn entry_names(entries: Seq<DirEntry>) -> Seq<Seq<char>> {
    entries.map_values(|e: DirEntry| e.name@)
}

/// A listing as a map from name to whether it is a directory.
pub open spec fn entry_map(entries: Seq<DirEntry>) -> Map<Seq<char>, bool> {
    Map::new(
        |name: Seq<char>| entry_names(entries).contains(name),
        |name: Seq<char>| entries[entry_names(entries).index_of(name)].is_dir,
    )
}

/// A read-only view of a filesystem.
///
/// Every path a resolver touches goes through one of these, so a caller
/// decides what a document can reach. [`MapFs`] reads an in-memory map
/// with relative, slash-separated paths.
///
/// Each method is described by a spec function of the filesystem it is
/// called on: an implementation promises that the method answers what
/// the spec function says, so that the resolvers above it can be proved
/// against that description. Each description has a default, that of a
/// filesystem holding nothing, with lexical, slash-separated paths, so
/// that a filesystem written outside verified code, such as the real
/// disk, can implement the trait at all; for such a filesystem the
/// defaults describe nothing, and what the resolvers are proved to do
/// over it holds as far as its answers agree with some description of
/// this kind. Such an implementation is not held to the defaults either:
/// Verus checks only the implementations written in verified code.
///
/// A description is a function of the filesystem value alone, so every
/// read of one path is taken to give the same answer during a resolution.
/// A filesystem that another process writes to meanwhile, such as the
/// real disk, is described only as far as that holds.
pub trait SourceFs: Send + Sync {
    /// The content at a path, if a file is there.
    open spec fn spec_read_file(&self, path: Seq<char>) -> Option<Seq<char>> {
        None
    }

    /// The listing of a directory, as name to whether it is a directory.
    open spec fn spec_read_dir(&self, path: Seq<char>) -> Option<Map<Seq<char>, bool>> {
        None
    }

    /// The path that joining `parts` makes.
    open spec fn spec_join(&self, parts: Seq<Seq<char>>) -> Seq<char> {
        spec_clean(join_slash(parts))
    }

    /// The parent directory of a path.
    open spec fn spec_dir(&self, path: Seq<char>) -> Seq<char> {
        map_dir(spec_clean(path))
    }

    /// The canonical lookup form of a path.
    open spec fn spec_canon(&self, path: Seq<char>) -> Seq<char> {
        spec_clean(path)
    }

    /// The path a path names once every link on the way has been
    /// followed, or nothing when it cannot be reduced to a real one.
    open spec fn spec_real_path(&self, path: Seq<char>) -> Option<Seq<char>> {
        Some(self.spec_canon(path))
    }

    /// Whether paths are native absolute ones rather than relative,
    /// slash-separated keys.
    open spec fn spec_native_paths(&self) -> bool {
        false
    }

    /// The separator of this filesystem's native paths besides `/`.
    open spec fn spec_separator(&self) -> char {
        '/'
    }

    /// Read the file at a canonical path. `None` means it is not there,
    /// or cannot be read, which resolution treats the same way.
    fn read_file(&self, path: &str) -> (r: Option<String>)
        ensures
            r.deep_view() == self.spec_read_file(path@),
    ;

    /// List a directory, sorted by name with no name twice. `None` means
    /// it is not there or is unreadable.
    fn read_dir(&self, path: &str) -> (r: Option<Vec<DirEntry>>)
        ensures
            match r {
                Some(entries) => self.spec_read_dir(path@) == Some(entry_map(entries@))
                    && strictly_sorted(entry_names(entries@)),
                None => self.spec_read_dir(path@) is None,
            },
    ;

    /// Join path elements in this filesystem's convention.
    fn join(&self, parts: &[&str]) -> (r: String)
        ensures
            r@ == self.spec_join(parts.deep_view()),
    ;

    /// The parent directory of `path`.
    fn dir(&self, path: &str) -> (r: String)
        ensures
            r@ == self.spec_dir(path@),
    ;

    /// The canonical lookup form of a possibly relative path.
    fn canon(&self, path: &str) -> (r: String)
        ensures
            r@ == self.spec_canon(path@),
    ;

    /// The path `path` names once every link on the way to it has been
    /// followed, which is what a sandbox root has to be compared against.
    /// `None` means the path cannot be reduced to a real one and must be
    /// refused rather than guessed at.
    fn real_path(&self, path: &str) -> (r: Option<String>)
        ensures
            r.deep_view() == self.spec_real_path(path@),
    ;

    /// Whether this filesystem addresses files by native absolute paths,
    /// rather than by relative, slash-separated ones.
    fn native_paths(&self) -> (r: bool)
        ensures
            r == self.spec_native_paths(),
    ;

    /// The character that separates the segments of a native path on
    /// this filesystem, besides `/`.
    fn separator(&self) -> (r: char)
        ensures
            r == self.spec_separator(),
    ;
}

/// What a filesystem answers, as plain spec functions: the description
/// of a [`SourceFs`] that the resolvers are proved against.
#[verifier::ext_equal]
pub struct FsModel {
    pub read_file: spec_fn(Seq<char>) -> Option<Seq<char>>,
    pub read_dir: spec_fn(Seq<char>) -> Option<Map<Seq<char>, bool>>,
    pub join: spec_fn(Seq<Seq<char>>) -> Seq<char>,
    pub dir: spec_fn(Seq<char>) -> Seq<char>,
    pub canon: spec_fn(Seq<char>) -> Seq<char>,
    pub real_path: spec_fn(Seq<char>) -> Option<Seq<char>>,
    pub native: bool,
    pub separator: char,
}

/// The model of a filesystem.
pub open spec fn fs_model<F: SourceFs + ?Sized>(fs: &F) -> FsModel {
    FsModel {
        read_file: |p: Seq<char>| fs.spec_read_file(p),
        read_dir: |p: Seq<char>| fs.spec_read_dir(p),
        join: |parts: Seq<Seq<char>>| fs.spec_join(parts),
        dir: |p: Seq<char>| fs.spec_dir(p),
        canon: |p: Seq<char>| fs.spec_canon(p),
        real_path: |p: Seq<char>| fs.spec_real_path(p),
        native: fs.spec_native_paths(),
        separator: fs.spec_separator(),
    }
}

/// Whether `key` lies strictly below the folder whose key prefix is
/// `prefix`.
pub open spec fn lies_under(key: Seq<char>, prefix: Seq<char>) -> bool {
    prefix.len() < key.len() && key.subrange(0, prefix.len() as int) == prefix
}

/// What is left of `key` once `prefix` is taken off.
pub open spec fn rest_of(key: Seq<char>, prefix: Seq<char>) -> Seq<char> {
    key.subrange(prefix.len() as int, key.len() as int)
}

/// The first segment of a relative key.
pub open spec fn head_of(rest: Seq<char>) -> Seq<char> {
    if first_slash(rest) >= 0 {
        rest.subrange(0, first_slash(rest))
    } else {
        rest
    }
}

/// The listing of the folder with key prefix `prefix` in a set of file
/// keys: each name that heads a key below it, and whether some key goes
/// on below that name (a directory) rather than ending there.
pub open spec fn listing(keys: Set<Seq<char>>, prefix: Seq<char>) -> Map<Seq<char>, bool> {
    Map::new(
        |name: Seq<char>|
            exists|k: Seq<char>|
                #![trigger keys.contains(k)]
                keys.contains(k) && lies_under(k, prefix) && head_of(rest_of(k, prefix)) == name,
        |name: Seq<char>|
            exists|k: Seq<char>|
                #![trigger keys.contains(k)]
                keys.contains(k) && lies_under(k, prefix) && head_of(rest_of(k, prefix)) == name
                    && first_slash(rest_of(k, prefix)) >= 0,
    )
}

/// The key prefix of the folder at a cleaned path: nothing for the root,
/// the folder and a slash otherwise.
pub open spec fn folder_prefix(folder: Seq<char>) -> Seq<char> {
    if folder == dot() {
        Seq::empty()
    } else {
        folder.push('/')
    }
}

/// The parent of a cleaned key: everything before its last slash, or
/// `.` when that would be nothing.
pub open spec fn map_dir(cleaned: Seq<char>) -> Seq<char> {
    if last_slash(cleaned) > 0 {
        cleaned.subrange(0, last_slash(cleaned))
    } else {
        dot()
    }
}

/// An in-memory filesystem: relative, slash-separated paths to content.
///
/// Directories are implied by the keys, so a file at `a/b.jsonic` makes
/// a directory `a`. Every key is stored in its cleaned form.
#[derive(Debug)]
pub struct MapFs {
    files: SortedMap<String>,
}

impl View for MapFs {
    type V = Map<Seq<char>, Seq<char>>;

    closed spec fn view(&self) -> Map<Seq<char>, Seq<char>> {
        self.files.as_map().map_values(|s: String| s@)
    }
}

impl MapFs {
    /// Every stored key, in order.
    pub closed spec fn keys(&self) -> Seq<Seq<char>> {
        self.files.keys()
    }

    /// An empty filesystem.
    pub fn new() -> (fs: Self)
        ensures
            fs@ == Map::<Seq<char>, Seq<char>>::empty(),
    {
        let fs = MapFs { files: SortedMap::new() };
        assert(fs@ =~= Map::<Seq<char>, Seq<char>>::empty());
        fs
    }

    /// Add one file, replacing any file already at that path.
    pub fn insert(&mut self, path: &str, content: &str) -> (r: &mut Self)
        ensures
            r@ == old(self)@.insert(spec_clean(path@), content@),
            *final(self) == *final(r),
    {
        let key = clean(path);
        let value = String::from_str(content);
        let ghost before = self.files.as_map();
        let ghost v = value;
        self.files.insert(key, value);
        assert(self@ =~= old(self)@.insert(spec_clean(path@), content@)) by {
            assert(self.files.as_map() == before.insert(spec_clean(path@), v));
        }
        self
    }

    /// Add one file, by value, so a filesystem can be built in an
    /// expression.
    pub fn with(self, path: &str, content: &str) -> (fs: Self)
        ensures
            fs@ == self@.insert(spec_clean(path@), content@),
    {
        let mut fs = self;
        fs.insert(path, content);
        fs
    }

    /// Every path this filesystem holds, in sorted order.
    pub fn paths(&self) -> (paths: Vec<&str>)
        ensures
            paths.deep_view().to_set() == self@.dom(),
            strictly_sorted(paths.deep_view()),
    {
        let n = self.files.len();
        let paths = self.files.keys_in_order();
        assert(self@.dom() =~= self.files.as_map().dom());
        assert(self.files.as_map().dom() == self.files.keys().to_set());
        paths
    }
}

/// The contract of [`SourceFs`] for a [`MapFs`]: reads look up the cleaned
/// path, listings are derived from the keys, joins and parents are
/// lexical, and nothing is native or linked.
impl SourceFs for MapFs {
    open spec fn spec_read_file(&self, path: Seq<char>) -> Option<Seq<char>> {
        if self@.contains_key(spec_clean(path)) {
            Some(self@[spec_clean(path)])
        } else {
            None
        }
    }

    open spec fn spec_read_dir(&self, path: Seq<char>) -> Option<Map<Seq<char>, bool>> {
        let folder = spec_clean(path);
        let entries = listing(self@.dom(), folder_prefix(folder));
        if entries == Map::<Seq<char>, bool>::empty() && folder != dot() {
            None
        } else {
            Some(entries)
        }
    }

    open spec fn spec_join(&self, parts: Seq<Seq<char>>) -> Seq<char> {
        spec_clean(join_slash(parts))
    }

    open spec fn spec_dir(&self, path: Seq<char>) -> Seq<char> {
        map_dir(spec_clean(path))
    }

    open spec fn spec_canon(&self, path: Seq<char>) -> Seq<char> {
        spec_clean(path)
    }

    open spec fn spec_real_path(&self, path: Seq<char>) -> Option<Seq<char>> {
        Some(spec_clean(path))
    }

    open spec fn spec_native_paths(&self) -> bool {
        false
    }

    open spec fn spec_separator(&self) -> char {
        '/'
    }

    fn read_file(&self, path: &str) -> (r: Option<String>) {
        let key = clean(path);
        match self.files.get(key.as_str()) {
            Some(content) => Some(content.clone()),
            None => None,
        }
    }

    fn read_dir(&self, path: &str) -> (r: Option<Vec<DirEntry>>) {
        assert(self@.dom() =~= self.files.as_map().dom());
        read_map_dir(&self.files, path)
    }

    fn join(&self, parts: &[&str]) -> (r: String) {
        clean(join_with_slash(parts).as_str())
    }

    fn dir(&self, path: &str) -> (r: String) {
        let cleaned = clean(path);
        let chars = chars_of(cleaned.as_str());
        match find_last_slash(&chars) {
            Some(index) if index > 0 => slice(cleaned.as_str(), 0, index),
            _ => {
                proof {
                    reveal_strlit(".");
                    assert("."@ =~= dot());
                }
                String::from_str(".")
            },
        }
    }

    fn canon(&self, path: &str) -> (r: String) {
        clean(path)
    }

    fn real_path(&self, path: &str) -> (r: Option<String>) {
        Some(clean(path))
    }

    fn native_paths(&self) -> (r: bool) {
        false
    }

    fn separator(&self) -> (r: char) {
        '/'
    }
}

proof fn lemma_listing_add(keys: Set<Seq<char>>, k: Seq<char>, prefix: Seq<char>)
    ensures
        lies_under(k, prefix) ==> listing(keys.insert(k), prefix) == listing(keys, prefix).insert(
            head_of(rest_of(k, prefix)),
            (listing(keys, prefix).contains_key(head_of(rest_of(k, prefix))) && listing(
                keys,
                prefix,
            )[head_of(rest_of(k, prefix))]) || first_slash(rest_of(k, prefix)) >= 0,
        ),
        !lies_under(k, prefix) ==> listing(keys.insert(k), prefix) == listing(keys, prefix),
{
    let before = listing(keys, prefix);
    let after = listing(keys.insert(k), prefix);
    let name = head_of(rest_of(k, prefix));
    let under = lies_under(k, prefix);
    let dir = first_slash(rest_of(k, prefix)) >= 0;
    let want = if under {
        before.insert(name, (before.contains_key(name) && before[name]) || dir)
    } else {
        before
    };
    assert forall|n: Seq<char>| #[trigger] after.contains_key(n) <==> want.contains_key(n) by {
        if before.contains_key(n) {
            let w = choose|w: Seq<char>|
                #![trigger keys.contains(w)]
                keys.contains(w) && lies_under(w, prefix) && head_of(rest_of(w, prefix)) == n;
            assert(keys.insert(k).contains(w));
        }
        if under && n == name {
            assert(keys.insert(k).contains(k));
        }
        if after.contains_key(n) && !(under && n == name) {
            let w = choose|w: Seq<char>|
                #![trigger keys.insert(k).contains(w)]
                keys.insert(k).contains(w) && lies_under(w, prefix) && head_of(rest_of(w, prefix))
                    == n;
            assert(w != k);
            assert(keys.contains(w));
        }
    }
    assert forall|n: Seq<char>| #[trigger] after.contains_key(n) implies after[n] == want[n] by {
        if before.contains_key(n) && before[n] {
            let w = choose|w: Seq<char>|
                #![trigger keys.contains(w)]
                keys.contains(w) && lies_under(w, prefix) && head_of(rest_of(w, prefix)) == n
                    && first_slash(rest_of(w, prefix)) >= 0;
            assert(keys.insert(k).contains(w));
        }
        if under && n == name && dir {
            assert(keys.insert(k).contains(k));
        }
        if after[n] {
            let w = choose|w: Seq<char>|
                #![trigger keys.insert(k).contains(w)]
                keys.insert(k).contains(w) && lies_under(w, prefix) && head_of(rest_of(w, prefix))
                    == n && first_slash(rest_of(w, prefix)) >= 0;
            if w != k {
                assert(keys.contains(w));
            }
        }
    }
    assert(after =~= want);
}

/// A sorted map of names as a directory listing, in order.
fn entries_of(names: &SortedMap<bool>) -> (entries: Vec<DirEntry>)
    ensures
        entry_map(entries@) == names.as_map(),
        entry_names(entries@) == names.keys(),
        strictly_sorted(entry_names(entries@)),
{
    let n = names.len();
    let mut entries: Vec<DirEntry> = Vec::new();
    let mut i: usize = 0;
    while i < n
        invariant
            i <= n,
            n == names.keys().len(),
            n == names.values().len(),
            strictly_sorted(names.keys()),
            entries.len() == i,
            forall|j: int|
                0 <= j < i ==> (#[trigger] entries@[j]).name@ == names.keys()[j]
                    && entries@[j].is_dir == names.values()[j],
        decreases n - i,
    {
        let key = names.key_at(i);
        let name = key.clone();
        assert(name@ == names.keys()[i as int]);
        let is_dir = *names.value_at(i);
        let ghost before = entries@;
        entries.push(DirEntry { name, is_dir });
        assert forall|j: int| 0 <= j < i + 1 implies (#[trigger] entries@[j]).name@ == names.keys()[j]
            && entries@[j].is_dir == names.values()[j] by {
            if j < i {
                assert(entries@[j] == before[j]);
            }
        }
        i = i + 1;
    }
    assert(entry_names(entries@) =~= names.keys());
    proof {
        let ks = names.keys();
        assert(ks.no_duplicates());
        assert(entry_map(entries@) =~= names.as_map()) by {
            assert forall|q: Seq<char>| #[trigger] entry_map(entries@).contains_key(q) <==> names.as_map().contains_key(q) by {
                assert(names.as_map().dom() == ks.to_set());
            }
            assert forall|q: Seq<char>| #[trigger] entry_map(entries@).contains_key(q) implies entry_map(entries@)[q]
                == names.as_map()[q] by {
                let j = ks.index_of(q);
                ks.index_of_first_ensures(q);
                assert(names.as_map()[ks[j]] == names.values()[j]);
            }
        }
    }
    entries
}

/// List the folder at `path` in a map of cleaned file keys.
fn read_map_dir(files: &SortedMap<String>, path: &str) -> (r: Option<Vec<DirEntry>>)
    ensures
        ({
            let folder = spec_clean(path@);
            let entries = listing(files.as_map().dom(), folder_prefix(folder));
            match r {
                Some(es) => !(entries == Map::<Seq<char>, bool>::empty() && folder != dot())
                    && entries == entry_map(es@) && strictly_sorted(entry_names(es@)),
                None => entries == Map::<Seq<char>, bool>::empty() && folder != dot(),
            }
        }),
{
    let folder = clean(path);
    proof {
        reveal_strlit(".");
        reveal_strlit("");
        reveal_strlit("/");
        assert("."@ =~= dot());
    }
    let is_root = str_eq(folder.as_str(), ".");
    let prefix = if is_root {
        String::from_str("")
    } else {
        concat(folder.as_str(), "/")
    };
    assert(prefix@ =~= folder_prefix(folder@));
    let plen = chars_of(prefix.as_str()).len();
    let n = files.len();
    let ghost keys = files.keys();
    let mut names: SortedMap<bool> = SortedMap::new();
    let mut i: usize = 0;
    assert(keys.take(0).to_set() =~= Set::<Seq<char>>::empty());
    assert(listing(Set::<Seq<char>>::empty(), prefix@) =~= Map::<Seq<char>, bool>::empty());
    while i < n
        invariant
            i <= n,
            n == keys.len(),
            keys == files.keys(),
            plen == prefix@.len(),
            names.as_map() == listing(keys.take(i as int).to_set(), prefix@),
        decreases n - i,
    {
        let key = files.key_at(i);
        let kchars = chars_of(key.as_str());
        proof {
            assert(keys.take(i + 1) =~= keys.take(i as int).push(keys[i as int]));
            crate::text::lemma_push_to_set(keys.take(i as int), keys[i as int]);
            lemma_listing_add(keys.take(i as int).to_set(), keys[i as int], prefix@);
        }
        if kchars.len() > plen && starts_with(key.as_str(), prefix.as_str()) {
            let rest = slice(key.as_str(), plen, kchars.len());
            let rchars = chars_of(rest.as_str());
            let (name, is_dir) = match find_first_slash(&rchars) {
                Some(index) => (slice(rest.as_str(), 0, index), true),
                None => (rest, false),
            };
            let prior = match names.get(name.as_str()) {
                Some(value) => *value,
                None => false,
            };
            names.insert(name, prior || is_dir);
        }
        i = i + 1;
    }
    assert(keys.take(n as int) =~= keys);
    proof {
        assert(files.as_map().dom() == keys.to_set());
    }
    let count = names.len();
    if count == 0 && !is_root {
        assert(names.as_map() =~= Map::<Seq<char>, bool>::empty()) by {
            assert(names.as_map().dom() == names.keys().to_set());
        }
        return None;
    }
    let entries = entries_of(&names);
    proof {
        if count > 0 {
            assert(names.as_map().contains_key(names.keys()[0]));
        }
    }
    Some(entries)
}

/// Every spelling of a path reaches the same file of a map filesystem:
/// reading a path reads its cleaned form, and cleaning that changes
/// nothing more.
pub proof fn law_map_read_by_any_spelling(fs: MapFs, path: Seq<char>)
    ensures
        fs.spec_read_file(spec_clean(path)) == fs.spec_read_file(path),
{
    crate::lexical::law_clean_is_idempotent(path);
}

/// A read gives back what the last insert of that path wrote, and an
/// insert leaves every other file as it was.
pub proof fn law_map_read_after_insert(
    before: MapFs,
    after: MapFs,
    path: Seq<char>,
    content: Seq<char>,
    other: Seq<char>,
)
    requires
        after@ == before@.insert(spec_clean(path), content),
    ensures
        after.spec_read_file(path) == Some(content),
        spec_clean(other) != spec_clean(path) ==> after.spec_read_file(other)
            == before.spec_read_file(other),
{
}

} // verus!
