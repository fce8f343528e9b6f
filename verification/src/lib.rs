//! Load partial values from multiple external sources into one parse
//! result: the path, filesystem, resolution, preload and dependency logic
//! of the multisource plugin.
//!
//! A directive character (`@` by default) marks a reference in the input.
//! The plugin resolves the reference to a source, processes that source
//! into a value, and splices the value into the output, recursively. This
//! library holds everything in that cycle that is decided rather than
//! done: what a reference names ([`paths`]), where the resolvers look for
//! it ([`map_resolver`], [`file_resolver`], [`pkg_resolver`]) and through
//! which filesystem ([`vfs`]), what a directive does with what was found
//! ([`directive`]), and what is recorded along the way ([`deps`],
//! [`report`]).

pub mod text;
pub mod paths;
pub mod sorted;
pub mod lexical;
pub mod vfs;
pub mod shared;
pub mod resolution;
pub mod map_resolver;
pub mod file_resolver;
pub mod json;
pub mod pkg_resolver;
pub mod preload;
pub mod directive;
pub mod deps;
pub mod report;
pub mod processors;
pub mod settings;

pub use deps::{Dependency, DependencyMap};
pub use directive::{
    directive_outcome, Directive, DEFAULT_MARKCHAR, DEFAULT_MAX_DEPTH, PLUGIN_NAME, RULE_NAME, TOP,
    VERSION,
};
pub use file_resolver::FileResolver;
pub use map_resolver::MapResolver;
pub use paths::{
    build_potentials, default_implicit_ext, ext_kind, resolve_path_spec, source_dir, PathSpec, NONE,
};
pub use pkg_resolver::PkgResolver;
pub use preload::{preload_files_with, PreloadOptions};
pub use processors::{ProcessorEntry, ProcessorTable};
pub use report::LastReport;
pub use resolution::{Resolution, ResolverInput};
pub use settings::{MultiSourceError, PluginSettings};
pub use shared::{
    share_fs, share_path_finder, IntoSharedFs, IntoSharedPathFinder, PathFinder, SharedFs,
    SharedPathFinder,
};
pub use sorted::SortedMap;
pub use vfs::{DirEntry, MapFs, SourceFs};
