//! Process-wide shared state: the current gallery tree behind a
//! reader-writer lock, plus the filesystem locations the catalog works on.
//!
//! Readers take a snapshot reference of the current root and never hold the
//! lock while traversing; writers swap in a whole new root built beforehand.
//! Two writers racing from the same snapshot keep the last install — the
//! accepted weak-consistency behaviour of this design.

use crate::gallery::ImageGallery;
use std::sync::Arc;
use vstd::prelude::*;
use vstd::rwlock::RwLock;

verus! {

/// Failure of the shared-slot accessors: the tree has not been set yet.
#[derive(Debug, PartialEq, Eq, Structural)]
pub enum ContextError {
    GalleryAccessError,
    GalleryNotSetError,
}

/// The slot's invariant: whatever root is installed is well-formed.
pub open spec fn root_slot_inv() -> spec_fn(Option<Arc<ImageGallery>>) -> bool {
    |v: Option<Arc<ImageGallery>>|
        match v {
            Some(g) => g.wf(),
            None => true,
        }
}

/// Shared state handed to every thread of the process.
#[derive(Clone)]
pub struct ServerContext {
    pub port: u16,
    pub server_threads: usize,
    /// The directory being indexed, as the application names it.
    pub gallery_dir: String,
    /// Where thumbnail derivatives are written.
    pub thumb_dir: String,
    /// Where preview derivatives are written.
    pub preview_dir: String,
    /// The current tree root; absent until the first scan completes.
    pub root_gallery: Arc<
        RwLock<Option<Arc<ImageGallery>>, spec_fn(Option<Arc<ImageGallery>>) -> bool>,
    >,
}

impl ServerContext {
    /// A fresh context with no tree installed yet.
    pub fn new(
        port: u16,
        server_threads: usize,
        gallery_dir: String,
        thumb_dir: String,
        preview_dir: String,
    ) -> (c: ServerContext)
        ensures
            c.wf(),
    {
        let slot: RwLock<
            Option<Arc<ImageGallery>>,
            spec_fn(Option<Arc<ImageGallery>>) -> bool,
        > = RwLock::new(None, Ghost(root_slot_inv()));
        ServerContext {
            port,
            server_threads,
            gallery_dir,
            thumb_dir,
            preview_dir,
            root_gallery: Arc::new(slot),
        }
    }

    /// The slot only ever holds well-formed roots.
    pub open spec fn wf(&self) -> bool {
        self.root_gallery.pred() == root_slot_inv()
    }

    /// Install `gallery` as the current root, replacing whatever was there.
    /// The whole reference is swapped at once; a reader holding the old root
    /// keeps a fully consistent tree.
    pub fn set_root_gallery(&self, gallery: Arc<ImageGallery>) -> (r: Result<(), ContextError>)
        requires
            self.wf(),
            gallery.wf(),
        ensures
            r is Ok,
    {
        let (_, write_handle) = self.root_gallery.acquire_write();
        write_handle.release_write(Some(gallery));
        Ok(())
    }

    /// A snapshot of the current root: well-formed when present, and absent
    /// exactly while no scan has installed one.
    pub fn get_root_gallery(&self) -> (r: Result<Arc<ImageGallery>, ContextError>)
        requires
            self.wf(),
        ensures
            match r {
                Ok(g) => g.wf(),
                Err(e) => e == ContextError::GalleryNotSetError,
            },
    {
        let read_handle = self.root_gallery.acquire_read();
        let val = read_handle.borrow();
        let result = match val {
            Some(g) => Ok(g.clone()),
            None => Err(ContextError::GalleryNotSetError),
        };
        read_handle.release_read();
        result
    }
}

} // verus!
