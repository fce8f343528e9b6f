//! Reading folders into memory before a parse starts.
//!
//! A preload turns per-reference filesystem reads into map lookups, and
//! is also how a caller vets what a parse may reach: scan once, inspect
//! the map, and give the resolver nothing else.

use vstd::prelude::*;

use crate::paths::{dotted, spec_dotted};
use crate::sorted::{lemma_text_lt_asymmetric, strictly_sorted, SortedMap};
use crate::text::{ends_with, push_string};
use crate::vfs::{entry_map, entry_names, fs_model, DirEntry, FsModel, SourceFs};

verus! {

/// How deep a recursive scan descends.
pub const MAX_SCAN_DEPTH: usize = 64;

/// Which folders to scan, and for what.
#[derive(Clone, Debug)]
pub struct PreloadOptions {
    /// Folders to scan.
    pub folders: Vec<String>,
    /// Extensions to load. Empty selects `.jsonic` and `.json`. A
    /// missing leading dot is added.
    pub ext: Vec<String>,
    /// Descend into subfolders.
    pub recursive: bool,
}

/// `.jsonic` and `.json`, the extensions a preload loads by default.
pub open spec fn preload_default_ext() -> Seq<Seq<char>> {
    seq![seq!['.', 'j', 's', 'o', 'n', 'i', 'c'], seq!['.', 'j', 's', 'o', 'n']]
}

/// The extensions a preload with `ext` loads: the default when `ext` is
/// empty, and each with a leading dot.
pub open spec fn spec_extensions(ext: Seq<Seq<char>>) -> Seq<Seq<char>> {
    let raw = if ext.len() == 0 {
        preload_default_ext()
    } else {
        ext
    };
    raw.map_values(|e: Seq<char>| spec_dotted(e))
}

/// Whether `name` ends with one of `exts`.
pub open spec fn has_ext(name: Seq<char>, exts: Seq<Seq<char>>) -> bool {
    exists|i: int|
        0 <= i < exts.len() && #[trigger] exts[i].len() <= name.len() && name.subrange(
            name.len() - exts[i].len(),
            name.len() as int,
        ) == exts[i]
}

/// Whether the entry `name` of `folder`, a directory when `is_dir`,
/// brings the file `k` into a scan at `depth`: a file with one of the
/// extensions that can be read, or, in a recursive scan, a file that the
/// scan of the subfolder brings in.
pub open spec fn entry_yields(
    m: FsModel,
    folder: Seq<char>,
    name: Seq<char>,
    is_dir: bool,
    exts: Seq<Seq<char>>,
    recursive: bool,
    depth: nat,
    k: Seq<char>,
) -> bool
    decreases MAX_SCAN_DEPTH - depth, 0int,
{
    let full = (m.join)(seq![folder, name]);
    if is_dir {
        recursive && depth < MAX_SCAN_DEPTH && scanned(
            m,
            full,
            exts,
            recursive,
            depth + 1,
            k,
        )
    } else {
        has_ext(name, exts) && k == full && (m.read_file)(k) is Some
    }
}

/// Whether the scan of `folder` at `depth` brings in the file `k`: the
/// folder can be listed, the depth is at most [`MAX_SCAN_DEPTH`], and one
/// of its entries brings `k` in.
pub open spec fn scanned(
    m: FsModel,
    folder: Seq<char>,
    exts: Seq<Seq<char>>,
    recursive: bool,
    depth: nat,
    k: Seq<char>,
) -> bool
    decreases MAX_SCAN_DEPTH - depth, 1int,
{
    depth <= MAX_SCAN_DEPTH && match (m.read_dir)(folder) {
        None => false,
        Some(listing) => exists|name: Seq<char>|
            #![trigger listing.contains_key(name)]
            listing.contains_key(name) && entry_yields(
                m,
                folder,
                name,
                listing[name],
                exts,
                recursive,
                depth,
                k,
            ),
    }
}

/// Whether a preload of `folders` brings in the file `k`.
pub open spec fn preloaded(
    m: FsModel,
    folders: Seq<Seq<char>>,
    exts: Seq<Seq<char>>,
    recursive: bool,
    k: Seq<char>,
) -> bool {
    exists|i: int|
        0 <= i < folders.len() && #[trigger] scanned(
            m,
            (m.canon)(folders[i]),
            exts,
            recursive,
            0,
            k,
        )
}

impl PreloadOptions {
    /// A scan of `folders`, non-recursive, with the default extensions.
    pub fn new(folders: Vec<String>) -> (r: Self)
        ensures
            r.folders.deep_view() == folders.deep_view(),
            r.ext.len() == 0,
            !r.recursive,
    {
        PreloadOptions { folders, ext: Vec::new(), recursive: false }
    }

    /// Load only files with these extensions.
    pub fn with_ext(self, ext: Vec<String>) -> (r: Self)
        ensures
            r.folders.deep_view() == self.folders.deep_view(),
            r.ext.deep_view() == ext.deep_view(),
            r.recursive == self.recursive,
    {
        PreloadOptions { ext, ..self }
    }

    /// Descend into subfolders, or not.
    pub fn with_recursive(self, recursive: bool) -> (r: Self)
        ensures
            r.folders.deep_view() == self.folders.deep_view(),
            r.ext.deep_view() == self.ext.deep_view(),
            r.recursive == recursive,
    {
        PreloadOptions { recursive, ..self }
    }

    /// The extension list with a leading dot on every entry, and the
    /// default when none was given.
    pub fn extensions(&self) -> (r: Vec<String>)
        ensures
            r.deep_view() == spec_extensions(self.ext.deep_view()),
    {
        let mut raw: Vec<String> = Vec::new();
        if self.ext.len() == 0 {
            proof {
                reveal_strlit(".jsonic");
                reveal_strlit(".json");
            }
            let a = String::from_str(".jsonic");
            let b = String::from_str(".json");
            assert(a@ =~= seq!['.', 'j', 's', 'o', 'n', 'i', 'c']);
            assert(b@ =~= seq!['.', 'j', 's', 'o', 'n']);
            push_string(&mut raw, a);
            push_string(&mut raw, b);
            assert(raw.deep_view() =~= preload_default_ext());
        } else {
            let mut i: usize = 0;
            while i < self.ext.len()
                invariant
                    i <= self.ext.len(),
                    raw.deep_view() == self.ext.deep_view().take(i as int),
                decreases self.ext.len() - i,
            {
                push_string(&mut raw, self.ext[i].clone());
                assert(self.ext.deep_view().take(i + 1) =~= self.ext.deep_view().take(
                    i as int,
                ).push(self.ext.deep_view()[i as int]));
                i = i + 1;
            }
            assert(self.ext.deep_view().take(i as int) =~= self.ext.deep_view());
        }
        let ghost source = raw.deep_view();
        let mut out: Vec<String> = Vec::new();
        let mut j: usize = 0;
        while j < raw.len()
            invariant
                j <= raw.len(),
                source == raw.deep_view(),
                out.deep_view() == source.take(j as int).map_values(|e: Seq<char>| spec_dotted(e)),
            decreases raw.len() - j,
        {
            let d = dotted(raw[j].as_str());
            push_string(&mut out, d);
            assert(source.take(j + 1).map_values(|e: Seq<char>| spec_dotted(e)) =~= source.take(
                j as int,
            ).map_values(|e: Seq<char>| spec_dotted(e)).push(spec_dotted(source[j as int])));
            j = j + 1;
        }
        assert(source.take(j as int) =~= source);
        out
    }
}

/// Whether `name` ends with one of `extensions`.
fn matches_ext(name: &str, extensions: &Vec<String>) -> (r: bool)
    ensures
        r == has_ext(name@, extensions.deep_view()),
{
    let ghost exts = extensions.deep_view();
    let mut i: usize = 0;
    while i < extensions.len()
        invariant
            i <= extensions.len(),
            exts == extensions.deep_view(),
            forall|j: int|
                0 <= j < i ==> !(#[trigger] exts[j].len() <= name@.len() && name@.subrange(
                    name@.len() - exts[j].len(),
                    name@.len() as int,
                ) == exts[j]),
        decreases extensions.len() - i,
    {
        if ends_with(name, extensions[i].as_str()) {
            assert(exts[i as int] == extensions[i as int]@);
            return true;
        }
        i = i + 1;
    }
    false
}

/// A listing whose names are strictly sorted pairs each of its names
/// with that entry's kind, and holds no other name.
proof fn lemma_entry_map(entries: Seq<DirEntry>)
    requires
        strictly_sorted(entry_names(entries)),
    ensures
        forall|j: int|
            0 <= j < entries.len() ==> entry_map(entries).contains_key(#[trigger] entries[j].name@)
                && entry_map(entries)[entries[j].name@] == entries[j].is_dir,
        forall|name: Seq<char>|
            #[trigger] entry_map(entries).contains_key(name) ==> exists|j: int|
                0 <= j < entries.len() && #[trigger] entries[j].name@ == name,
{
    let names = entry_names(entries);
    assert forall|j: int| 0 <= j < entries.len() implies entry_map(entries).contains_key(
        #[trigger] entries[j].name@,
    ) && entry_map(entries)[entries[j].name@] == entries[j].is_dir by {
        assert(names[j] == entries[j].name@);
        names.index_of_first_ensures(entries[j].name@);
        let k = names.index_of(entries[j].name@);
        if k != j {
            if k < j {
                lemma_text_lt_asymmetric(names[k], names[j]);
            } else {
                lemma_text_lt_asymmetric(names[j], names[k]);
            }
        }
    }
    assert forall|name: Seq<char>| #[trigger] entry_map(entries).contains_key(name) implies exists|
        j: int,
    | 0 <= j < entries.len() && #[trigger] entries[j].name@ == name by {
        let j = names.index_of(name);
        names.index_of_first_ensures(name);
        assert(entries[j].name@ == name);
    }
}

/// Scan `folder` at `depth` into `filemap`.
fn scan<F: SourceFs + ?Sized>(
    filesystem: &F,
    folder: &str,
    extensions: &Vec<String>,
    recursive: bool,
    filemap: &mut SortedMap<String>,
    depth: usize,
)
    requires
        depth <= MAX_SCAN_DEPTH + 1,
        forall|k: Seq<char>|
            #[trigger] old(filemap).as_map().contains_key(k) ==> (fs_model(filesystem).read_file)(k)
                == Some(old(filemap).as_map()[k]@),
    ensures
        forall|k: Seq<char>|
            #[trigger] final(filemap).as_map().contains_key(k) <==> (old(filemap).as_map().contains_key(k)
                || scanned(
                fs_model(filesystem),
                folder@,
                extensions.deep_view(),
                recursive,
                depth as nat,
                k,
            )),
        forall|k: Seq<char>|
            #[trigger] final(filemap).as_map().contains_key(k) ==> (fs_model(filesystem).read_file)(k)
                == Some(final(filemap).as_map()[k]@),
    decreases MAX_SCAN_DEPTH + 1 - depth,
{
    let ghost m = fs_model(filesystem);
    let ghost exts = extensions.deep_view();
    let ghost start = filemap.as_map();
    if depth > MAX_SCAN_DEPTH {
        return;
    }
    let entries = match filesystem.read_dir(folder) {
        Some(entries) => entries,
        None => {
            return;
        },
    };
    proof {
        lemma_entry_map(entries@);
    }
    let ghost listing = entry_map(entries@);
    assert((m.read_dir)(folder@) == Some(listing));
    let mut i: usize = 0;
    while i < entries.len()
        invariant
            i <= entries.len(),
            depth <= MAX_SCAN_DEPTH,
            m == fs_model(filesystem),
            exts == extensions.deep_view(),
            forall|k: Seq<char>|
                #[trigger] filemap.as_map().contains_key(k) <==> (start.contains_key(k) || exists|
                    j: int,
                |
                    0 <= j < i && #[trigger] entry_yields(
                        m,
                        folder@,
                        entries@[j].name@,
                        entries@[j].is_dir,
                        exts,
                        recursive,
                        depth as nat,
                        k,
                    )),
            forall|k: Seq<char>|
                #[trigger] filemap.as_map().contains_key(k) ==> (m.read_file)(k) == Some(
                    filemap.as_map()[k]@,
                ),
        decreases entries.len() - i,
    {
        let entry = &entries[i];
        let parts: [&str; 2] = [folder, entry.name.as_str()];
        assert(parts.deep_view() =~= seq![folder@, entry.name@]);
        let full = filesystem.join(&parts);
        let ghost before = filemap.as_map();
        if entry.is_dir {
            if recursive {
                scan(filesystem, full.as_str(), extensions, recursive, filemap, depth + 1);
            }
            assert forall|k: Seq<char>| #[trigger]
                filemap.as_map().contains_key(k) <==> (start.contains_key(k) || exists|j: int|
                    0 <= j < i + 1 && #[trigger] entry_yields(
                        m,
                        folder@,
                        entries@[j].name@,
                        entries@[j].is_dir,
                        exts,
                        recursive,
                        depth as nat,
                        k,
                    )) by {
                if entry_yields(
                    m,
                    folder@,
                    entries@[i as int].name@,
                    entries@[i as int].is_dir,
                    exts,
                    recursive,
                    depth as nat,
                    k,
                ) {
                    assert(recursive);
                }
            }
        } else {
            let hit = matches_ext(entry.name.as_str(), extensions);
            if hit {
                match filesystem.read_file(full.as_str()) {
                    Some(src) => {
                        filemap.insert(full, src);
                    },
                    None => {},
                }
            }
            assert forall|k: Seq<char>| #[trigger]
                filemap.as_map().contains_key(k) <==> (start.contains_key(k) || exists|j: int|
                    0 <= j < i + 1 && #[trigger] entry_yields(
                        m,
                        folder@,
                        entries@[j].name@,
                        entries@[j].is_dir,
                        exts,
                        recursive,
                        depth as nat,
                        k,
                    )) by {
                if entry_yields(
                    m,
                    folder@,
                    entries@[i as int].name@,
                    entries@[i as int].is_dir,
                    exts,
                    recursive,
                    depth as nat,
                    k,
                ) {
                    assert(filemap.as_map().contains_key(k));
                }
            }
        }
        i = i + 1;
    }
    assert forall|k: Seq<char>| #[trigger]
        filemap.as_map().contains_key(k) <==> (start.contains_key(k) || scanned(
            m,
            folder@,
            exts,
            recursive,
            depth as nat,
            k,
        )) by {
        lemma_entry_map(entries@);
        assert((m.read_dir)(folder@) == Some(listing));
        let yields = exists|j: int|
            0 <= j < entries@.len() && #[trigger] entry_yields(
                m,
                folder@,
                entries@[j].name@,
                entries@[j].is_dir,
                exts,
                recursive,
                depth as nat,
                k,
            );
        assert(filemap.as_map().contains_key(k) <==> (start.contains_key(k) || yields));
        if scanned(m, folder@, exts, recursive, depth as nat, k) {
            let name = choose|name: Seq<char>|
                #![trigger listing.contains_key(name)]
                listing.contains_key(name) && entry_yields(
                    m,
                    folder@,
                    name,
                    listing[name],
                    exts,
                    recursive,
                    depth as nat,
                    k,
                );
            assert(listing.contains_key(name));
            let j = choose|j: int| 0 <= j < entries@.len() && #[trigger] entries@[j].name@ == name;
            assert(listing[entries@[j].name@] == entries@[j].is_dir);
            assert(entry_yields(
                m,
                folder@,
                entries@[j].name@,
                entries@[j].is_dir,
                exts,
                recursive,
                depth as nat,
                k,
            ));
            assert(yields);
        }
        if yields {
            let j = choose|j: int|
                0 <= j < entries@.len() && #[trigger] entry_yields(
                    m,
                    folder@,
                    entries@[j].name@,
                    entries@[j].is_dir,
                    exts,
                    recursive,
                    depth as nat,
                    k,
                );
            assert(listing.contains_key(entries@[j].name@));
            assert(listing[entries@[j].name@] == entries@[j].is_dir);
            assert(depth <= MAX_SCAN_DEPTH);
            let l2 = (m.read_dir)(folder@)->0;
            assert(l2 == listing);
            assert(l2.contains_key(entries@[j].name@) && entry_yields(m, folder@, entries@[j].name@, l2[entries@[j].name@], exts, recursive, depth as nat, k));
            assert(scanned(m, folder@, exts, recursive, depth as nat, k));
        }
    }
}

/// Scan the folders in `options` on `filesystem`, returning full path to
/// content for every file matching one of the extensions.
///
/// Folders that do not exist, and files that cannot be read, are
/// skipped. The result feeds
/// [`crate::file_resolver::FileResolver::with_preload`].
pub fn preload_files_with<F: SourceFs + ?Sized>(options: &PreloadOptions, filesystem: &F) -> (r:
    SortedMap<String>)
    ensures
        forall|k: Seq<char>|
            #[trigger] r.as_map().contains_key(k) <==> preloaded(
                fs_model(filesystem),
                options.folders.deep_view(),
                spec_extensions(options.ext.deep_view()),
                options.recursive,
                k,
            ),
        forall|k: Seq<char>|
            #[trigger] r.as_map().contains_key(k) ==> (fs_model(filesystem).read_file)(k) == Some(
                r.as_map()[k]@,
            ),
{
    let ghost m = fs_model(filesystem);
    let extensions = options.extensions();
    let ghost exts = extensions.deep_view();
    let ghost folders = options.folders.deep_view();
    let mut filemap: SortedMap<String> = SortedMap::new();
    let mut i: usize = 0;
    while i < options.folders.len()
        invariant
            i <= options.folders.len(),
            m == fs_model(filesystem),
            exts == extensions.deep_view(),
            exts == spec_extensions(options.ext.deep_view()),
            folders == options.folders.deep_view(),
            forall|k: Seq<char>|
                #[trigger] filemap.as_map().contains_key(k) <==> exists|j: int|
                    0 <= j < i && #[trigger] scanned(
                        m,
                        (m.canon)(folders[j]),
                        exts,
                        options.recursive,
                        0,
                        k,
                    ),
            forall|k: Seq<char>|
                #[trigger] filemap.as_map().contains_key(k) ==> (m.read_file)(k) == Some(
                    filemap.as_map()[k]@,
                ),
        decreases options.folders.len() - i,
    {
        let folder = filesystem.canon(options.folders[i].as_str());
        assert(folder@ == (m.canon)(folders[i as int]));
        scan(filesystem, folder.as_str(), &extensions, options.recursive, &mut filemap, 0);
        i = i + 1;
    }
    filemap
}

proof fn lemma_scanned_file(
    m: FsModel,
    folder: Seq<char>,
    exts: Seq<Seq<char>>,
    recursive: bool,
    depth: nat,
    k: Seq<char>,
)
    requires
        scanned(m, folder, exts, recursive, depth, k),
    ensures
        exists|dir: Seq<char>, name: Seq<char>|
            has_ext(name, exts) && k == (m.join)(seq![dir, name]) && (m.read_file)(k) is Some,
    decreases MAX_SCAN_DEPTH - depth,
{
    let listing = (m.read_dir)(folder)->0;
    let name = choose|name: Seq<char>|
        #![trigger listing.contains_key(name)]
        listing.contains_key(name) && entry_yields(
            m,
            folder,
            name,
            listing[name],
            exts,
            recursive,
            depth,
            k,
        );
    if listing[name] {
        lemma_scanned_file(m, (m.join)(seq![folder, name]), exts, recursive, depth + 1, k);
    } else {
        assert(has_ext(name, exts) && k == (m.join)(seq![folder, name]));
    }
}

/// A preload holds only readable files whose names end with one of the
/// extensions, whatever folders it scans and however deep.
pub proof fn law_preload_loads_only_the_listed_kinds(
    m: FsModel,
    folders: Seq<Seq<char>>,
    exts: Seq<Seq<char>>,
    recursive: bool,
    k: Seq<char>,
)
    requires
        preloaded(m, folders, exts, recursive, k),
    ensures
        exists|dir: Seq<char>, name: Seq<char>|
            has_ext(name, exts) && k == (m.join)(seq![dir, name]) && (m.read_file)(k) is Some,
{
    let i = choose|i: int|
        0 <= i < folders.len() && #[trigger] scanned(m, (m.canon)(folders[i]), exts, recursive, 0, k);
    lemma_scanned_file(m, (m.canon)(folders[i]), exts, recursive, 0, k);
}

/// A scan that does not descend reads only the files listed in the folder
/// itself.
pub proof fn law_flat_scan_stays_in_the_folder(
    m: FsModel,
    folder: Seq<char>,
    exts: Seq<Seq<char>>,
    depth: nat,
    k: Seq<char>,
)
    requires
        scanned(m, folder, exts, false, depth, k),
    ensures
        (m.read_dir)(folder) is Some,
        exists|name: Seq<char>|
            #![trigger (m.read_dir)(folder)->0.contains_key(name)]
            (m.read_dir)(folder)->0.contains_key(name) && !(m.read_dir)(folder)->0[name] && k == (
            m.join)(seq![folder, name]),
{
    let listing = (m.read_dir)(folder)->0;
    let name = choose|name: Seq<char>|
        #![trigger listing.contains_key(name)]
        listing.contains_key(name) && entry_yields(m, folder, name, listing[name], exts, false, depth, k);
    assert(listing.contains_key(name) && !listing[name] && k == (m.join)(seq![folder, name]));
}

/// Scanning several folders brings in exactly what scanning each of them
/// brings in.
pub proof fn law_preload_of_folders_is_the_union(
    m: FsModel,
    first: Seq<Seq<char>>,
    second: Seq<Seq<char>>,
    exts: Seq<Seq<char>>,
    recursive: bool,
    k: Seq<char>,
)
    ensures
        preloaded(m, first + second, exts, recursive, k) <==> (preloaded(m, first, exts, recursive, k)
            || preloaded(m, second, exts, recursive, k)),
{
    let all = first + second;
    if preloaded(m, all, exts, recursive, k) {
        let i = choose|i: int|
            0 <= i < all.len() && #[trigger] scanned(m, (m.canon)(all[i]), exts, recursive, 0, k);
        if i < first.len() {
            assert(all[i] == first[i]);
            assert(scanned(m, (m.canon)(first[i]), exts, recursive, 0, k));
        } else {
            assert(all[i] == second[i - first.len()]);
            assert(scanned(m, (m.canon)(second[i - first.len()]), exts, recursive, 0, k));
        }
    }
    if preloaded(m, first, exts, recursive, k) {
        let i = choose|i: int|
            0 <= i < first.len() && #[trigger] scanned(m, (m.canon)(first[i]), exts, recursive, 0, k);
        assert(all[i] == first[i]);
        assert(scanned(m, (m.canon)(all[i]), exts, recursive, 0, k));
    }
    if preloaded(m, second, exts, recursive, k) {
        let i = choose|i: int|
            0 <= i < second.len() && #[trigger] scanned(m, (m.canon)(second[i]), exts, recursive, 0, k);
        assert(all[first.len() + i] == second[i]);
        assert(scanned(m, (m.canon)(all[first.len() + i]), exts, recursive, 0, k));
    }
}

/// Whether `child` is a subfolder that `parent` lists.
pub open spec fn subfolder_of(m: FsModel, parent: Seq<char>, child: Seq<char>) -> bool {
    exists|name: Seq<char>|
        #![trigger (m.read_dir)(parent)->0.contains_key(name)]
        (m.read_dir)(parent) is Some && (m.read_dir)(parent)->0.contains_key(name) && (m.read_dir)(
            parent,
        )->0[name] && child == (m.join)(seq![parent, name])
}

/// Whether each folder of `dirs` is a listed subfolder of the one before.
pub open spec fn descends(m: FsModel, dirs: Seq<Seq<char>>) -> bool {
    forall|i: int| 0 <= i < dirs.len() - 1 ==> #[trigger] subfolder_of(m, dirs[i], dirs[i + 1])
}

/// Whether `k` is a readable file that `folder` lists, with a name ending
/// in one of `exts`.
pub open spec fn file_of(m: FsModel, folder: Seq<char>, exts: Seq<Seq<char>>, k: Seq<char>) -> bool {
    exists|name: Seq<char>|
        #![trigger (m.read_dir)(folder)->0.contains_key(name)]
        (m.read_dir)(folder) is Some && (m.read_dir)(folder)->0.contains_key(name) && !(m.read_dir)(
            folder,
        )->0[name] && has_ext(name, exts) && k == (m.join)(seq![folder, name]) && (m.read_file)(
            k,
        ) is Some
}

proof fn lemma_scanned_path(
    m: FsModel,
    folder: Seq<char>,
    exts: Seq<Seq<char>>,
    recursive: bool,
    depth: nat,
    k: Seq<char>,
) -> (dirs: Seq<Seq<char>>)
    requires
        scanned(m, folder, exts, recursive, depth, k),
    ensures
        dirs.len() >= 1,
        dirs[0] == folder,
        dirs.len() + depth <= MAX_SCAN_DEPTH + 1,
        descends(m, dirs),
        file_of(m, dirs.last(), exts, k),
        !recursive ==> dirs.len() == 1,
    decreases MAX_SCAN_DEPTH - depth,
{
    let listing = (m.read_dir)(folder)->0;
    let name = choose|name: Seq<char>|
        #![trigger listing.contains_key(name)]
        listing.contains_key(name) && entry_yields(
            m,
            folder,
            name,
            listing[name],
            exts,
            recursive,
            depth,
            k,
        );
    if listing[name] {
        let child = (m.join)(seq![folder, name]);
        let sub = lemma_scanned_path(m, child, exts, recursive, depth + 1, k);
        let dirs = seq![folder] + sub;
        assert(subfolder_of(m, folder, child));
        assert forall|i: int| 0 <= i < dirs.len() - 1 implies #[trigger] subfolder_of(
            m,
            dirs[i],
            dirs[i + 1],
        ) by {
            if i == 0 {
                assert(dirs[1] == sub[0]);
            } else {
                let j = i - 1;
                assert(dirs[i] == sub[j]);
                assert(dirs[i + 1] == sub[j + 1]);
                assert(0 <= j < sub.len() - 1);
                assert(subfolder_of(m, sub[j], sub[j + 1]));
            }
        }
        assert(dirs.last() == sub.last());
        dirs
    } else {
        assert(file_of(m, folder, exts, k));
        seq![folder]
    }
}

/// Everything a preload holds is a readable file with a listed extension,
/// listed in a folder that is one of the scanned folders itself or is
/// reached from one through listed subfolders, at most
/// [`MAX_SCAN_DEPTH`] levels down, and only in the folder itself when the
/// scan does not descend.
pub proof fn law_preload_reads_within_its_folders(
    m: FsModel,
    folders: Seq<Seq<char>>,
    exts: Seq<Seq<char>>,
    recursive: bool,
    k: Seq<char>,
)
    requires
        preloaded(m, folders, exts, recursive, k),
    ensures
        exists|i: int, dirs: Seq<Seq<char>>|
            0 <= i < folders.len() && dirs.len() >= 1 && #[trigger] dirs[0] == (m.canon)(
                #[trigger] folders[i],
            ) && dirs.len() <= MAX_SCAN_DEPTH + 1 && descends(m, dirs) && file_of(
                m,
                dirs.last(),
                exts,
                k,
            ) && (!recursive ==> dirs.len() == 1),
{
    let i = choose|i: int|
        0 <= i < folders.len() && #[trigger] scanned(m, (m.canon)(folders[i]), exts, recursive, 0, k);
    let dirs = lemma_scanned_path(m, (m.canon)(folders[i]), exts, recursive, 0, k);
    assert(dirs[0] == (m.canon)(folders[i]));
}

/// A preload takes every readable file with a listed extension that one
/// of its folders lists directly.
pub proof fn law_preload_takes_every_matching_file(
    m: FsModel,
    folders: Seq<Seq<char>>,
    exts: Seq<Seq<char>>,
    recursive: bool,
    i: int,
    name: Seq<char>,
)
    requires
        0 <= i < folders.len(),
        (m.read_dir)((m.canon)(folders[i])) is Some,
        (m.read_dir)((m.canon)(folders[i]))->0.contains_key(name),
        !(m.read_dir)((m.canon)(folders[i]))->0[name],
        has_ext(name, exts),
        (m.read_file)((m.join)(seq![(m.canon)(folders[i]), name])) is Some,
    ensures
        preloaded(m, folders, exts, recursive, (m.join)(seq![(m.canon)(folders[i]), name])),
{
    let folder = (m.canon)(folders[i]);
    let k = (m.join)(seq![folder, name]);
    let listing = (m.read_dir)(folder)->0;
    assert(entry_yields(m, folder, name, listing[name], exts, recursive, 0, k));
    assert(scanned(m, folder, exts, recursive, 0, k));
}

/// A folder that cannot be listed adds nothing to a scan.
pub proof fn law_unlistable_folder_adds_nothing(
    m: FsModel,
    folder: Seq<char>,
    exts: Seq<Seq<char>>,
    recursive: bool,
    depth: nat,
    k: Seq<char>,
)
    requires
        (m.read_dir)(folder) is None,
    ensures
        !scanned(m, folder, exts, recursive, depth, k),
{
}

proof fn lemma_reached_file_is_scanned(
    m: FsModel,
    dirs: Seq<Seq<char>>,
    exts: Seq<Seq<char>>,
    depth: nat,
    k: Seq<char>,
)
    requires
        dirs.len() >= 1,
        depth + dirs.len() <= MAX_SCAN_DEPTH + 1,
        descends(m, dirs),
        file_of(m, dirs.last(), exts, k),
    ensures
        scanned(m, dirs[0], exts, true, depth, k),
    decreases dirs.len(),
{
    let folder = dirs[0];
    if dirs.len() == 1 {
        let listing = (m.read_dir)(folder)->0;
        let name = choose|name: Seq<char>|
            #![trigger (m.read_dir)(folder)->0.contains_key(name)]
            (m.read_dir)(folder) is Some && (m.read_dir)(folder)->0.contains_key(name) && !(
            m.read_dir)(folder)->0[name] && has_ext(name, exts) && k == (m.join)(seq![folder, name])
                && (m.read_file)(k) is Some;
        assert(listing.contains_key(name) && entry_yields(m, folder, name, listing[name], exts, true, depth, k));
    } else {
        let rest = dirs.drop_first();
        assert forall|i: int| 0 <= i < rest.len() - 1 implies #[trigger] subfolder_of(
            m,
            rest[i],
            rest[i + 1],
        ) by {
            assert(rest[i] == dirs[i + 1]);
            assert(rest[i + 1] == dirs[i + 2]);
            assert(subfolder_of(m, dirs[i + 1], dirs[i + 2]));
        }
        assert(rest.last() == dirs.last());
        lemma_reached_file_is_scanned(m, rest, exts, depth + 1, k);
        assert(subfolder_of(m, dirs[0], dirs[1]));
        let listing = (m.read_dir)(folder)->0;
        let name = choose|name: Seq<char>|
            #![trigger (m.read_dir)(folder)->0.contains_key(name)]
            (m.read_dir)(folder) is Some && (m.read_dir)(folder)->0.contains_key(name) && (
            m.read_dir)(folder)->0[name] && dirs[1] == (m.join)(seq![folder, name]);
        assert(rest[0] == dirs[1]);
        assert(listing.contains_key(name) && entry_yields(m, folder, name, listing[name], exts, true, depth, k));
    }
}

/// A recursive preload takes every readable file with a listed extension
/// that one of its folders reaches through listed subfolders, at any
/// depth up to [`MAX_SCAN_DEPTH`] levels below it: a matching file two or
/// more folders down is preloaded as surely as one in the folder itself.
pub proof fn law_recursive_preload_takes_every_reachable_file(
    m: FsModel,
    folders: Seq<Seq<char>>,
    exts: Seq<Seq<char>>,
    i: int,
    dirs: Seq<Seq<char>>,
    k: Seq<char>,
)
    requires
        0 <= i < folders.len(),
        dirs.len() >= 1,
        dirs[0] == (m.canon)(folders[i]),
        dirs.len() <= MAX_SCAN_DEPTH + 1,
        descends(m, dirs),
        file_of(m, dirs.last(), exts, k),
    ensures
        preloaded(m, folders, exts, true, k),
{
    lemma_reached_file_is_scanned(m, dirs, exts, 0, k);
    assert(scanned(m, (m.canon)(folders[i]), exts, true, 0, k));
}

} // verus!
