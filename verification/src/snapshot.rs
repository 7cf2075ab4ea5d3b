//! A snapshot of what the file system holds for one solution.
//!
//! Resolution reads manifests and asks where paths really lead. Both answers
//! are gathered before the engine runs and handed to it as plain values, so
//! the engine is a function of its arguments and of nothing else.

use crate::path::PathModel;
use crate::path::ProjectPath;
use vstd::prelude::*;

verus! {

/// What a snapshot says: the contents of the manifests that could be read,
/// and the real place of each path that could be resolved.
pub struct SnapshotModel {
    pub files: Map<PathModel, Seq<u8>>,
    pub links: Map<PathModel, PathModel>,
}

impl SnapshotModel {
    /// The contents of the manifest at `path`; `None` where it is missing or
    /// could not be read.
    pub open spec fn contents_of(self, path: PathModel) -> Option<Seq<u8>> {
        if self.files.dom().contains(path) {
            Some(self.files[path])
        } else {
            None
        }
    }

    /// The real place of `path`; `path` itself where resolution failed.
    pub open spec fn resolve(self, path: PathModel) -> PathModel {
        if self.links.dom().contains(path) {
            self.links[path]
        } else {
            path
        }
    }

    /// A path that resolution has nothing left to do on: absolute, in
    /// normal form, and resolved to itself.
    pub open spec fn is_canonical(self, path: PathModel) -> bool {
        &&& path.well_formed()
        &&& path.is_absolute()
        &&& self.resolve(path) == path
    }

    /// Every real place that the snapshot names is canonical, as it is
    /// where the places come from one file system.
    pub open spec fn settled(self) -> bool {
        forall|path: PathModel| #[trigger]
            self.links.dom().contains(path) ==> self.is_canonical(self.links[path])
    }
}

/// A manifest that was read.
struct ManifestFile {
    path: ProjectPath,
    contents: Vec<u8>,
}

/// A path that was resolved.
struct Link {
    target: ProjectPath,
    canonical: ProjectPath,
}

/// The manifests and resolved paths gathered for one solution.
pub struct Snapshot {
    files: Vec<ManifestFile>,
    links: Vec<Link>,
}

/// The contents by path, a later entry replacing an earlier one.
spec fn files_map(entries: Seq<ManifestFile>) -> Map<PathModel, Seq<u8>>
    decreases entries.len(),
{
    if entries.len() == 0 {
        Map::empty()
    } else {
        files_map(entries.drop_last()).insert(entries.last().path@, entries.last().contents@)
    }
}

/// The real places by path, a later entry replacing an earlier one.
spec fn links_map(entries: Seq<Link>) -> Map<PathModel, PathModel>
    decreases entries.len(),
{
    if entries.len() == 0 {
        Map::empty()
    } else {
        links_map(entries.drop_last()).insert(entries.last().target@, entries.last().canonical@)
    }
}

impl View for Snapshot {
    type V = SnapshotModel;

    closed spec fn view(&self) -> SnapshotModel {
        SnapshotModel { files: files_map(self.files@), links: links_map(self.links@) }
    }
}

impl Snapshot {
    /// A snapshot that holds nothing: no manifest can be read, and every
    /// path resolves to itself.
    pub fn new() -> (snapshot: Snapshot)
        ensures
            snapshot@.files == Map::<PathModel, Seq<u8>>::empty(),
            snapshot@.links == Map::<PathModel, PathModel>::empty(),
    {
        Snapshot { files: Vec::new(), links: Vec::new() }
    }

    /// Records the contents of the manifest at `path`.
    pub fn add_manifest(&mut self, path: ProjectPath, contents: Vec<u8>)
        ensures
            final(self)@.files == old(self)@.files.insert(path@, contents@),
            final(self)@.links == old(self)@.links,
    {
        let ghost before = self.files@;
        self.files.push(ManifestFile { path, contents });
        assert(self.files@.drop_last() =~= before);
    }

    /// Records that `target` really is `canonical`.
    pub fn add_link(&mut self, target: ProjectPath, canonical: ProjectPath)
        ensures
            final(self)@.files == old(self)@.files,
            final(self)@.links == old(self)@.links.insert(target@, canonical@),
    {
        let ghost before = self.links@;
        self.links.push(Link { target, canonical });
        assert(self.links@.drop_last() =~= before);
    }

    /// Looks up the contents of the manifest at `path`.
    pub fn contents_of(&self, path: &ProjectPath) -> (contents: Option<&Vec<u8>>)
        ensures
            match contents {
                Some(bytes) => self@.contents_of(path@) == Some(bytes@),
                None => self@.contents_of(path@) is None,
            },
    {
        let mut i: usize = self.files.len();
        assert(self.files@.take(i as int) =~= self.files@);
        while i > 0
            invariant
                i <= self.files.len(),
                self@.contents_of(path@) == (SnapshotModel {
                    files: files_map(self.files@.take(i as int)),
                    links: self@.links,
                }).contents_of(path@),
            decreases i,
        {
            assert(self.files@.take(i as int).drop_last() =~= self.files@.take(i - 1));
            i -= 1;
            if self.files[i].path.same_as(path) {
                return Some(&self.files[i].contents);
            }
        }
        None
    }

    /// Looks up the real place of `path`.
    pub fn resolve(&self, path: &ProjectPath) -> (place: ProjectPath)
        ensures
            place@ == self@.resolve(path@),
    {
        let mut i: usize = self.links.len();
        assert(self.links@.take(i as int) =~= self.links@);
        while i > 0
            invariant
                i <= self.links.len(),
                self@.resolve(path@) == (SnapshotModel {
                    files: self@.files,
                    links: links_map(self.links@.take(i as int)),
                }).resolve(path@),
            decreases i,
        {
            assert(self.links@.take(i as int).drop_last() =~= self.links@.take(i - 1));
            i -= 1;
            if self.links[i].target.same_as(path) {
                return self.links[i].canonical.clone();
            }
        }
        path.clone()
    }
}

} // verus!
