//! Shared handles: a filesystem or a path finder behind an `Arc`, so one
//! value can serve many resolvers and parses.

use std::sync::Arc;

use vstd::prelude::*;

use crate::vfs::{fs_model, FsModel, MapFs, SourceFs};

verus! {

/// A shared filesystem handle.
pub type SharedFs = Arc<Box<dyn SourceFs>>;

/// The model of the filesystem a shared handle holds.
pub open spec fn model_of(fs: SharedFs) -> FsModel {
    fs_model(&**fs)
}

/// Transform a raw reference before it is resolved.
///
/// The counterpart of a `Fn(&str) -> String` callback: a type of the
/// caller's that rewrites each reference, for example into a folder of
/// its choosing.
///
/// [`PathFinder::spec_find`] describes the rewrite, and `find` promises to
/// answer what it says. The description defaults to rewriting nothing, so
/// that a path finder written outside verified code can implement the
/// trait at all; for such a path finder the default describes nothing,
/// and what the file resolver is proved to do with it holds as far as its
/// answers agree with some description of this kind. Such an
/// implementation is not held to the default either: Verus checks only
/// the implementations written in verified code.
pub trait PathFinder: Send + Sync {
    /// The reference resolved in place of `reference`.
    open spec fn spec_find(&self, reference: Seq<char>) -> Seq<char> {
        reference
    }

    /// The reference to resolve in place of `reference`.
    fn find(&self, reference: &str) -> (r: String)
        ensures
            r@ == self.spec_find(reference@),
    ;
}

/// A shared path finder handle.
pub type SharedPathFinder = Arc<Box<dyn PathFinder>>;

/// A filesystem that can be turned into a shared handle which answers
/// exactly as it does.
///
/// Verus relates a handle to the value put into it only for a concrete
/// type, so each filesystem states this for itself: [`MapFs`] does, and is
/// proved to; an implementation outside verified code makes the same
/// promise, with the body `Arc::new(Box::new(self))`, unchecked.
pub trait IntoSharedFs: SourceFs + Sized + 'static {
    /// This filesystem as a shared handle.
    fn into_shared(self) -> (r: SharedFs)
        ensures
            model_of(r) == fs_model(&self),
    ;
}

impl IntoSharedFs for MapFs {
    fn into_shared(self) -> (r: SharedFs) {
        let boxed: Box<dyn SourceFs> = Box::new(self);
        let r = Arc::new(boxed);
        assert(*r == boxed);
        assert(model_of(r) =~= fs_model(&self));
        r
    }
}

/// `filesystem` as a shared handle, which answers exactly as it does.
pub fn share_fs<F: IntoSharedFs>(filesystem: F) -> (r: SharedFs)
    ensures
        model_of(r) == fs_model(&filesystem),
{
    filesystem.into_shared()
}

/// A path finder that can be turned into a shared handle which rewrites
/// exactly as it does.
///
/// Verus relates a handle to the value put into it only for a concrete
/// type, and path finders are the caller's own types, so each states this
/// for itself, with the body `Arc::new(Box::new(self))`; as with
/// [`PathFinder::find`], the promise is the implementation's.
pub trait IntoSharedPathFinder: PathFinder + Sized + 'static {
    /// This path finder as a shared handle.
    fn into_shared(self) -> (r: SharedPathFinder)
        ensures
            forall|reference: Seq<char>| #[trigger] (**r).spec_find(reference) == self.spec_find(reference),
    ;
}

/// `pathfinder` as a shared handle, which rewrites exactly as it does.
pub fn share_path_finder<P: IntoSharedPathFinder>(pathfinder: P) -> (r: SharedPathFinder)
    ensures
        forall|reference: Seq<char>| #[trigger] (**r).spec_find(reference) == pathfinder.spec_find(reference),
{
    pathfinder.into_shared()
}

} // verus!
