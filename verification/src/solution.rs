//! Members, dependencies and start projects of a solution.

use crate::bytes::texts;
use crate::grammar::find_reference_texts;
use crate::grammar::reference_texts;
use crate::grammar::ManifestKind;
use crate::graph::find_roots;
use crate::graph::graph_of;
use crate::graph::is_dependency;
use crate::graph::lemma_mutual_pair_has_no_roots;
use crate::graph::lemma_no_members_no_roots;
use crate::graph::lemma_referenced_leaves_referrer_stays;
use crate::graph::lemma_roots_are_members;
use crate::graph::lemma_unreferenced_members_are_roots;
use crate::graph::paths_of;
use crate::graph::roots;
use crate::path::anchor_of;
use crate::path::parse_path;
use crate::path::Anchor;
use crate::path::PathModel;
use crate::path::ProjectPath;
use crate::resolve::canonical_dir;
use crate::resolve::canonical_path;
use crate::resolve::get_canonical_dir;
use crate::resolve::get_canonical_path;
use crate::resolve::get_resolution_target;
use crate::resolve::resolution_target;
use crate::snapshot::Snapshot;
use crate::snapshot::SnapshotModel;
use vstd::prelude::*;

verus! {

/// `resolution_target` as a function of the reference.
pub open spec fn target_rule(base: PathModel) -> spec_fn(Seq<u8>) -> PathModel {
    |reference: Seq<u8>| resolution_target(reference, base)
}

/// `canonical_path` as a function of the reference.
pub open spec fn canonical_rule(base: PathModel, fs: SnapshotModel) -> spec_fn(Seq<u8>) -> PathModel {
    |reference: Seq<u8>| canonical_path(reference, base, fs)
}

/// The test that a path lies in the subtree of `dir`.
pub open spec fn lies_within(dir: PathModel) -> spec_fn(PathModel) -> bool {
    |path: PathModel| path.within(dir)
}

/// The references that the manifest at `manifest` declares, as the snapshot
/// shows it; none where the manifest is missing.
pub open spec fn declared_texts(
    kind: ManifestKind,
    manifest: PathModel,
    fs: SnapshotModel,
) -> Seq<Seq<u8>> {
    match fs.contents_of(manifest) {
        Some(contents) => reference_texts(kind, contents),
        None => Seq::empty(),
    }
}

/// The paths that have to be resolved before the references of the manifest
/// at `manifest` can be followed, one for each reference.
pub open spec fn resolution_targets(
    kind: ManifestKind,
    manifest: PathModel,
    fs: SnapshotModel,
) -> Seq<PathModel> {
    declared_texts(kind, manifest, fs).map_values(target_rule(manifest))
}

/// The canonical paths of the references that the manifest at `manifest`
/// declares, without those that lie outside the subtree of `dir`.
pub open spec fn referenced_paths(
    kind: ManifestKind,
    manifest: PathModel,
    dir: PathModel,
    fs: SnapshotModel,
) -> Seq<PathModel> {
    declared_texts(kind, manifest, fs).map_values(canonical_rule(manifest, fs)).filter(
        lies_within(dir),
    )
}

/// The members of the solution at `sln`: the projects that its manifest
/// declares and that lie in the subtree of its canonical directory.
pub open spec fn project_paths(sln: PathModel, fs: SnapshotModel) -> Seq<PathModel> {
    referenced_paths(ManifestKind::Solution, sln, canonical_dir(sln, fs), fs)
}

/// The dependencies of the project at `project` within the solution at
/// `sln`: the projects that its manifest refers to and that lie in the
/// subtree of the solution's canonical directory.
pub open spec fn project_dependency_paths(
    project: PathModel,
    sln: PathModel,
    fs: SnapshotModel,
) -> Seq<PathModel> {
    referenced_paths(ManifestKind::Project, project, canonical_dir(sln, fs), fs)
}

/// The dependencies of each of `members`, in the order of `members`.
pub open spec fn dependency_graph(
    members: Seq<PathModel>,
    sln: PathModel,
    fs: SnapshotModel,
) -> Seq<Seq<PathModel>> {
    Seq::new(members.len(), |i: int| project_dependency_paths(members[i], sln, fs))
}

/// The start projects among `members`: those that are a dependency of no
/// member.
pub open spec fn start_project_paths(
    members: Seq<PathModel>,
    sln: PathModel,
    fs: SnapshotModel,
) -> Seq<PathModel> {
    roots(members, dependency_graph(members, sln, fs))
}

/// The members of a solution and the start projects among them.
#[derive(Debug)]
pub struct StartProjects {
    /// The projects that the solution declares.
    pub members: Vec<ProjectPath>,
    /// The members that no member depends on.
    pub roots: Vec<ProjectPath>,
}

/// Every referenced path lies in the subtree it was scoped to.
pub proof fn lemma_referenced_paths_lie_within(
    kind: ManifestKind,
    manifest: PathModel,
    dir: PathModel,
    fs: SnapshotModel,
)
    ensures
        forall|i: int|
            0 <= i < referenced_paths(kind, manifest, dir, fs).len() ==> (
            #[trigger] referenced_paths(kind, manifest, dir, fs)[i]).within(dir),
{
    let all = declared_texts(kind, manifest, fs).map_values(canonical_rule(manifest, fs));
    assert forall|i: int| 0 <= i < all.filter(lies_within(dir)).len() implies (
    #[trigger] all.filter(lies_within(dir))[i]).within(dir) by {
        all.lemma_filter_pred(lies_within(dir), i);
    }
}

/// A reference written as an absolute path that lies outside the subtree of
/// `dir`, wherever it is resolved to, is dropped: its path is not among the
/// referenced paths.
pub proof fn lemma_outside_reference_is_dropped(
    reference: Seq<u8>,
    kind: ManifestKind,
    manifest: PathModel,
    dir: PathModel,
    fs: SnapshotModel,
)
    requires
        anchor_of(reference) != Anchor::Relative,
        !fs.resolve(parse_path(reference)).within(dir),
    ensures
        canonical_path(reference, manifest, fs) == fs.resolve(parse_path(reference)),
        !referenced_paths(kind, manifest, dir, fs).contains(fs.resolve(parse_path(reference))),
{
    lemma_referenced_paths_lie_within(kind, manifest, dir, fs);
}

/// Neither the members of a solution nor the dependencies of a project hold
/// a path outside the subtree of the solution's canonical directory.
pub proof fn lemma_outside_paths_never_appear(
    path: PathModel,
    project: PathModel,
    sln: PathModel,
    fs: SnapshotModel,
)
    requires
        !path.within(canonical_dir(sln, fs)),
    ensures
        !project_paths(sln, fs).contains(path),
        !project_dependency_paths(project, sln, fs).contains(path),
{
    lemma_referenced_paths_lie_within(ManifestKind::Solution, sln, canonical_dir(sln, fs), fs);
    lemma_referenced_paths_lie_within(ManifestKind::Project, project, canonical_dir(sln, fs), fs);
}

/// A manifest that is missing, or that declares nothing, has no referenced
/// paths.
pub proof fn lemma_no_references_no_paths(
    kind: ManifestKind,
    manifest: PathModel,
    dir: PathModel,
    fs: SnapshotModel,
)
    requires
        declared_texts(kind, manifest, fs).len() == 0,
    ensures
        referenced_paths(kind, manifest, dir, fs) == Seq::<PathModel>::empty(),
{
    let all = declared_texts(kind, manifest, fs).map_values(canonical_rule(manifest, fs));
    all.lemma_filter_len(lies_within(dir));
    assert(all.filter(lies_within(dir)) =~= Seq::<PathModel>::empty());
}

/// A solution without members has no start projects.
pub proof fn lemma_no_members_no_start_projects(sln: PathModel, fs: SnapshotModel)
    requires
        project_paths(sln, fs).len() == 0,
    ensures
        start_project_paths(project_paths(sln, fs), sln, fs) == Seq::<PathModel>::empty(),
{
    let members = project_paths(sln, fs);
    lemma_no_members_no_roots(members, dependency_graph(members, sln, fs));
}

/// Where no member is a dependency of any member, every member is a start
/// project.
pub proof fn lemma_without_dependencies_all_start(
    members: Seq<PathModel>,
    sln: PathModel,
    fs: SnapshotModel,
)
    requires
        forall|i: int, j: int|
            0 <= i < members.len() && 0 <= j < members.len() ==> !project_dependency_paths(
                #[trigger] members[i],
                sln,
                fs,
            ).contains(#[trigger] members[j]),
    ensures
        start_project_paths(members, sln, fs) == members,
{
    let graph = dependency_graph(members, sln, fs);
    assert forall|j: int| 0 <= j < members.len() implies !is_dependency(
        graph,
        #[trigger] members[j],
    ) by {
        if is_dependency(graph, members[j]) {
            let i = choose|i: int| 0 <= i < graph.len() && #[trigger] graph[i].contains(members[j]);
            assert(graph[i] == project_dependency_paths(members[i], sln, fs));
        }
    }
    lemma_unreferenced_members_are_roots(members, graph);
}

/// Where member `a` depends on `b` and no member depends on `a`, `a` is a
/// start project and `b` is none.
pub proof fn lemma_dependency_is_no_start_project(
    members: Seq<PathModel>,
    sln: PathModel,
    fs: SnapshotModel,
    a: PathModel,
    b: PathModel,
)
    requires
        members.contains(a),
        project_dependency_paths(a, sln, fs).contains(b),
        forall|i: int|
            0 <= i < members.len() ==> !project_dependency_paths(
                #[trigger] members[i],
                sln,
                fs,
            ).contains(a),
    ensures
        start_project_paths(members, sln, fs).contains(a),
        !start_project_paths(members, sln, fs).contains(b),
{
    let graph = dependency_graph(members, sln, fs);
    let at = choose|i: int| 0 <= i < members.len() && members[i] == a;
    assert(graph[at] == project_dependency_paths(members[at], sln, fs));
    if is_dependency(graph, a) {
        let i = choose|i: int| 0 <= i < graph.len() && #[trigger] graph[i].contains(a);
        assert(graph[i] == project_dependency_paths(members[i], sln, fs));
    }
    lemma_referenced_leaves_referrer_stays(members, graph, a, b, at);
}

/// A solution of two members that depend on each other has no start
/// project.
pub proof fn lemma_mutual_dependency_no_start_project(
    sln: PathModel,
    fs: SnapshotModel,
    a: PathModel,
    b: PathModel,
)
    requires
        project_dependency_paths(a, sln, fs).contains(b),
        project_dependency_paths(b, sln, fs).contains(a),
    ensures
        start_project_paths(seq![a, b], sln, fs) == Seq::<PathModel>::empty(),
{
    let members = seq![a, b];
    let graph = dependency_graph(members, sln, fs);
    assert(graph[0] == project_dependency_paths(members[0], sln, fs));
    assert(graph[1] == project_dependency_paths(members[1], sln, fs));
    lemma_mutual_pair_has_no_roots(a, b, graph);
}

/// Every start project is a member.
pub proof fn lemma_start_projects_are_members(
    members: Seq<PathModel>,
    sln: PathModel,
    fs: SnapshotModel,
)
    ensures
        forall|path: PathModel| #[trigger]
            start_project_paths(members, sln, fs).contains(path) ==> members.contains(path),
{
    lemma_roots_are_members(members, dependency_graph(members, sln, fs));
}

/// Reads the references that a manifest declares.
fn get_declared_texts(kind: ManifestKind, manifest: &ProjectPath, fs: &Snapshot) -> (found: Vec<
    Vec<u8>,
>)
    ensures
        texts(found@) == declared_texts(kind, manifest@, fs@),
{
    match fs.contents_of(manifest) {
        Some(contents) => find_reference_texts(kind, contents.as_slice()),
        None => {
            let found: Vec<Vec<u8>> = Vec::new();
            assert(texts(found@) =~= Seq::<Seq<u8>>::empty());
            found
        },
    }
}

/// Lists the paths that have to be resolved before the references of a
/// manifest can be followed.
pub fn get_resolution_targets(kind: ManifestKind, manifest: &ProjectPath, fs: &Snapshot) -> (targets:
    Vec<ProjectPath>)
    ensures
        paths_of(targets@) == resolution_targets(kind, manifest@, fs@),
{
    let found = get_declared_texts(kind, manifest, fs);
    let mut targets: Vec<ProjectPath> = Vec::new();
    let mut i: usize = 0;
    while i < found.len()
        invariant
            i <= found.len(),
            texts(found@) == declared_texts(kind, manifest@, fs@),
            paths_of(targets@) == texts(found@).take(i as int).map_values(target_rule(manifest@)),
        decreases found.len() - i,
    {
        let ghost before = paths_of(targets@);
        let target = get_resolution_target(found[i].as_slice(), manifest);
        targets.push(target);
        proof {
            assert(texts(found@)[i as int] == found@[i as int]@);
            assert(paths_of(targets@) =~= before.push(target@));
            assert(paths_of(targets@) =~= texts(found@).take(i + 1).map_values(
                target_rule(manifest@),
            ));
        }
        i += 1;
    }
    assert(texts(found@).take(i as int) =~= texts(found@));
    targets
}

/// Follows the references of a manifest and keeps those within `dir`.
pub fn get_referenced_paths(
    kind: ManifestKind,
    manifest: &ProjectPath,
    dir: &ProjectPath,
    fs: &Snapshot,
) -> (paths: Vec<ProjectPath>)
    ensures
        paths_of(paths@) == referenced_paths(kind, manifest@, dir@, fs@),
        forall|i: int| 0 <= i < paths@.len() ==> (#[trigger] paths@[i])@.within(dir@),
{
    let found = get_declared_texts(kind, manifest, fs);
    let mut paths: Vec<ProjectPath> = Vec::new();
    let mut i: usize = 0;
    let ghost rule = canonical_rule(manifest@, fs@);
    let ghost test = lies_within(dir@);
    proof {
        reveal(Seq::filter);
        assert(texts(found@).take(0).map_values(rule) =~= Seq::<PathModel>::empty());
        assert(paths_of(paths@) =~= Seq::<PathModel>::empty());
    }
    while i < found.len()
        invariant
            i <= found.len(),
            rule == canonical_rule(manifest@, fs@),
            test == lies_within(dir@),
            texts(found@) == declared_texts(kind, manifest@, fs@),
            paths_of(paths@) == texts(found@).take(i as int).map_values(rule).filter(test),
            forall|j: int| 0 <= j < paths@.len() ==> (#[trigger] paths@[j])@.within(dir@),
        decreases found.len() - i,
    {
        let ghost before = paths_of(paths@);
        let path = get_canonical_path(found[i].as_slice(), manifest, fs);
        proof {
            reveal(Seq::filter);
            let seen = texts(found@).take(i as int).map_values(rule);
            let next = texts(found@).take(i + 1).map_values(rule);
            assert(texts(found@)[i as int] == found@[i as int]@);
            assert(next.drop_last() =~= seen);
            assert(next.last() == path@);
        }
        if path.starts_with(dir) {
            paths.push(path);
            assert(paths_of(paths@) =~= before.push(path@));
        }
        i += 1;
    }
    assert(texts(found@).take(i as int) =~= texts(found@));
    paths
}

/// Lists the members of the solution at `sln_path`.
///
/// A solution whose manifest is missing from the snapshot has no members.
pub fn get_project_paths(sln_path: &ProjectPath, fs: &Snapshot) -> (paths: Vec<ProjectPath>)
    ensures
        paths_of(paths@) == project_paths(sln_path@, fs@),
        forall|i: int|
            0 <= i < paths@.len() ==> (#[trigger] paths@[i])@.within(
                canonical_dir(sln_path@, fs@),
            ),
{
    let dir = get_canonical_dir(sln_path, fs);
    get_referenced_paths(ManifestKind::Solution, sln_path, &dir, fs)
}

/// Lists the dependencies of the project at `project_path` within the
/// solution at `sln_path`.
///
/// A project whose manifest is missing from the snapshot has no
/// dependencies.
pub fn get_project_dependency_paths(
    project_path: &ProjectPath,
    sln_path: &ProjectPath,
    fs: &Snapshot,
) -> (paths: Vec<ProjectPath>)
    ensures
        paths_of(paths@) == project_dependency_paths(project_path@, sln_path@, fs@),
        forall|i: int|
            0 <= i < paths@.len() ==> (#[trigger] paths@[i])@.within(
                canonical_dir(sln_path@, fs@),
            ),
{
    let dir = get_canonical_dir(sln_path, fs);
    get_referenced_paths(ManifestKind::Project, project_path, &dir, fs)
}

/// Lists the dependencies of each member.
pub fn get_dependency_graph(
    project_paths: &Vec<ProjectPath>,
    sln_path: &ProjectPath,
    fs: &Snapshot,
) -> (graph: Vec<Vec<ProjectPath>>)
    ensures
        graph_of(graph@) == dependency_graph(paths_of(project_paths@), sln_path@, fs@),
{
    let mut graph: Vec<Vec<ProjectPath>> = Vec::new();
    let mut i: usize = 0;
    while i < project_paths.len()
        invariant
            i <= project_paths.len(),
            graph@.len() == i,
            forall|j: int|
                0 <= j < i ==> #[trigger] graph_of(graph@)[j] == project_dependency_paths(
                    project_paths@[j]@,
                    sln_path@,
                    fs@,
                ),
        decreases project_paths.len() - i,
    {
        let ghost before = graph_of(graph@);
        let paths = get_project_dependency_paths(&project_paths[i], sln_path, fs);
        graph.push(paths);
        proof {
            assert(graph_of(graph@) =~= before.push(paths_of(paths@)));
        }
        i += 1;
    }
    proof {
        let members = paths_of(project_paths@);
        assert forall|j: int| 0 <= j < graph@.len() implies graph_of(graph@)[j]
            == dependency_graph(members, sln_path@, fs@)[j] by {
            assert(members[j] == project_paths@[j]@);
        }
        assert(graph_of(graph@) =~= dependency_graph(members, sln_path@, fs@));
    }
    graph
}

/// Picks the start projects among the members of a solution: the members
/// that no member depends on.
pub fn get_start_project_paths(
    project_paths: &Vec<ProjectPath>,
    sln_path: &ProjectPath,
    fs: &Snapshot,
) -> (start_paths: Vec<ProjectPath>)
    ensures
        paths_of(start_paths@) == start_project_paths(paths_of(project_paths@), sln_path@, fs@),
{
    let graph = get_dependency_graph(project_paths, sln_path, fs);
    find_roots(project_paths, &graph)
}

/// Finds the members of the solution at `sln_path` and the start projects
/// among them.
pub fn get_start_projects(sln_path: &ProjectPath, fs: &Snapshot) -> (found: StartProjects)
    ensures
        paths_of(found.members@) == project_paths(sln_path@, fs@),
        paths_of(found.roots@) == start_project_paths(
            project_paths(sln_path@, fs@),
            sln_path@,
            fs@,
        ),
{
    let members = get_project_paths(sln_path, fs);
    let roots = get_start_project_paths(&members, sln_path, fs);
    StartProjects { members, roots }
}

} // verus!
