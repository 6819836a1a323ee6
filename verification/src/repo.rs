//! The repository as a value: what its directory and the working directory
//! hold, file by file.

use vstd::prelude::*;
use crate::bytemap::{ByteMap, Pairs};

verus! {

/// A snapshot of a repository and of the working directory around it.
///
/// Each field stands for one place on disk. A file that may be absent is an
/// `Option`; a directory is a map from name to content.
pub struct Repository {
    /// True when the repository directory is there.
    pub exists: bool,
    /// The content of `HEAD`.
    pub head: Option<Vec<u8>>,
    /// The files under `refs/heads/`: branch name to content.
    pub refs: ByteMap,
    /// The files under `objects/`: hash to stored form.
    pub objects: ByteMap,
    /// The content of `index`.
    pub index: Option<Vec<u8>>,
    /// The content of `STAGING`.
    pub staging: Option<Vec<u8>>,
    /// The content of `STASH`.
    pub stash: Option<Vec<u8>>,
    /// The files of the working directory: path to content.
    pub worktree: ByteMap,
}

/// The mathematical content of a [`Repository`].
pub struct RepoView {
    pub exists: bool,
    pub head: Option<Seq<u8>>,
    pub refs: Pairs,
    pub objects: Pairs,
    pub index: Option<Seq<u8>>,
    pub staging: Option<Seq<u8>>,
    pub stash: Option<Seq<u8>>,
    pub worktree: Pairs,
}

/// The content of a file that may be absent.
pub open spec fn file_view(f: Option<Vec<u8>>) -> Option<Seq<u8>> {
    match f {
        Some(bytes) => Some(bytes@),
        None => None,
    }
}

impl Repository {
    /// What the snapshot holds, place by place.
    pub open spec fn view(&self) -> RepoView {
        RepoView {
            exists: self.exists,
            head: file_view(self.head),
            refs: self.refs@,
            objects: self.objects@,
            index: file_view(self.index),
            staging: file_view(self.staging),
            stash: file_view(self.stash),
            worktree: self.worktree@,
        }
    }

    /// No name occurs twice in a directory.
    pub open spec fn wf(&self) -> bool {
        self.refs.wf() && self.objects.wf() && self.worktree.wf()
    }

    /// The state before `init`: no repository, and `worktree` around it.
    pub fn new(worktree: ByteMap) -> (r: Repository)
        ensures
            r@ == (RepoView {
                exists: false,
                head: None,
                refs: Pairs::empty(),
                objects: Pairs::empty(),
                index: None,
                staging: None,
                stash: None,
                worktree: worktree@,
            }),
            worktree.wf() ==> r.wf(),
    {
        Repository {
            exists: false,
            head: None,
            refs: ByteMap::new(),
            objects: ByteMap::new(),
            index: None,
            staging: None,
            stash: None,
            worktree,
        }
    }
}

} // verus!
