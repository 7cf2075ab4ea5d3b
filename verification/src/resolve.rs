//! Canonical paths: what a reference in a manifest really names.

use crate::path::lemma_join_is_well_formed;
use crate::path::lemma_prefix_is_normal;
use crate::path::lemma_text_round_trip;
use crate::path::lemma_text_shows_anchor;
use crate::path::PathModel;
use crate::path::ProjectPath;
use crate::snapshot::Snapshot;
use crate::snapshot::SnapshotModel;
use vstd::prelude::*;

verus! {

/// The path that has to be resolved for `reference`, found in the manifest
/// at `base`: the reference itself where it is absolute, else the reference
/// read in the directory that holds the manifest.
pub open spec fn resolution_target(reference: Seq<u8>, base: PathModel) -> PathModel {
    base.directory().join(reference)
}

/// The canonical path of `reference`, found in the manifest at `base`: the
/// real place of its resolution target, or the target itself, in normal
/// form, where resolution failed.
pub open spec fn canonical_path(reference: Seq<u8>, base: PathModel, fs: SnapshotModel) -> PathModel {
    fs.resolve(resolution_target(reference, base))
}

/// The canonical directory of the manifest at `path`: the real place of the
/// directory that holds it.
pub open spec fn canonical_dir(path: PathModel, fs: SnapshotModel) -> PathModel {
    fs.resolve(path.directory())
}

/// Canonicalizing a canonical path gives the same path: its text, read as
/// a reference in any manifest, has that path as its canonical path.
pub proof fn lemma_canonical_path_is_fixed(path: PathModel, base: PathModel, fs: SnapshotModel)
    requires
        fs.is_canonical(path),
    ensures
        canonical_path(path.text(), base, fs) == path,
{
    lemma_text_shows_anchor(path);
    lemma_text_round_trip(path);
}

/// In a settled snapshot the canonical path of a reference is canonical,
/// provided its resolution target is absolute.
pub proof fn lemma_canonical_path_is_canonical(
    reference: Seq<u8>,
    base: PathModel,
    fs: SnapshotModel,
)
    requires
        fs.settled(),
        base.well_formed(),
        resolution_target(reference, base).is_absolute(),
    ensures
        fs.is_canonical(canonical_path(reference, base, fs)),
{
    lemma_prefix_is_normal(
        base.is_absolute(),
        base.parts,
        base.directory().parts.len() as int,
    );
    assert(base.directory().parts =~= base.parts.take(base.directory().parts.len() as int));
    lemma_join_is_well_formed(base.directory(), reference);
}

/// Canonicalization is idempotent: in a settled snapshot, canonicalizing
/// the text of a canonical path of a reference gives that path again.
pub proof fn lemma_canonicalization_is_idempotent(
    reference: Seq<u8>,
    base: PathModel,
    other_base: PathModel,
    fs: SnapshotModel,
)
    requires
        fs.settled(),
        base.well_formed(),
        resolution_target(reference, base).is_absolute(),
    ensures
        canonical_path(canonical_path(reference, base, fs).text(), other_base, fs)
            == canonical_path(reference, base, fs),
{
    lemma_canonical_path_is_canonical(reference, base, fs);
    lemma_canonical_path_is_fixed(canonical_path(reference, base, fs), other_base, fs);
}

/// Without links nothing is resolved: the canonical path is the resolution
/// target.
pub proof fn lemma_unresolved_path_is_target(reference: Seq<u8>, base: PathModel, fs: SnapshotModel)
    requires
        !fs.links.dom().contains(resolution_target(reference, base)),
    ensures
        canonical_path(reference, base, fs) == resolution_target(reference, base),
{
}

/// Finds the path that has to be resolved for a reference.
pub fn get_resolution_target(path: &[u8], root_path: &ProjectPath) -> (target: ProjectPath)
    ensures
        target@ == resolution_target(path@, root_path@),
{
    root_path.directory().join(path)
}

/// Finds the canonical directory of the manifest at `path`.
pub fn get_canonical_dir(path: &ProjectPath, fs: &Snapshot) -> (dir: ProjectPath)
    ensures
        dir@ == canonical_dir(path@, fs@),
{
    fs.resolve(&path.directory())
}

/// Finds the canonical path of the reference `path`, found in the manifest
/// at `root_path`.
pub fn get_canonical_path(path: &[u8], root_path: &ProjectPath, fs: &Snapshot) -> (canonical:
    ProjectPath)
    ensures
        canonical@ == canonical_path(path@, root_path@, fs@),
{
    fs.resolve(&get_resolution_target(path, root_path))
}

} // verus!
