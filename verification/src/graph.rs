//! Reducing a dependency graph to its roots.
//!
//! A root is a member that no member declares as a dependency. Nothing is
//! said of cycles: a member leaves the roots as soon as anyone names it,
//! itself included.

use crate::path::PathModel;
use crate::path::ProjectPath;
use vstd::prelude::*;

verus! {

/// The paths that a list of project paths holds.
pub open spec fn paths_of(items: Seq<ProjectPath>) -> Seq<PathModel> {
    items.map_values(|item: ProjectPath| item@)
}

/// The dependency lists that a list of lists of project paths holds.
pub open spec fn graph_of(lists: Seq<Vec<ProjectPath>>) -> Seq<Seq<PathModel>> {
    lists.map_values(|list: Vec<ProjectPath>| paths_of(list@))
}

/// Some list of `graph` names `path`.
pub open spec fn is_dependency(graph: Seq<Seq<PathModel>>, path: PathModel) -> bool {
    exists|i: int| 0 <= i < graph.len() && #[trigger] graph[i].contains(path)
}

/// The paths that the lists of `graph` name, taken together.
pub open spec fn named_paths(graph: Seq<Seq<PathModel>>) -> Set<PathModel> {
    Set::new(|path: PathModel| is_dependency(graph, path))
}

/// The test that the roots pass: no list of `graph` names the path.
pub open spec fn is_root(graph: Seq<Seq<PathModel>>) -> spec_fn(PathModel) -> bool {
    |path: PathModel| !is_dependency(graph, path)
}

/// The members that no list of `graph` names, in the order of `members`.
pub open spec fn roots(members: Seq<PathModel>, graph: Seq<Seq<PathModel>>) -> Seq<PathModel> {
    members.filter(is_root(graph))
}

/// A path is among the roots exactly when it is a member that nobody names.
pub proof fn lemma_root_iff(members: Seq<PathModel>, graph: Seq<Seq<PathModel>>, path: PathModel)
    ensures
        roots(members, graph).contains(path) <==> members.contains(path) && !is_dependency(
            graph,
            path,
        ),
{
    let kept = roots(members, graph);
    if kept.contains(path) {
        members.lemma_filter_contains_rev(is_root(graph), path);
        let i = choose|i: int| 0 <= i < kept.len() && kept[i] == path;
        members.lemma_filter_pred(is_root(graph), i);
    }
    if members.contains(path) && !is_dependency(graph, path) {
        let i = choose|i: int| 0 <= i < members.len() && members[i] == path;
        members.lemma_filter_contains(is_root(graph), i);
    }
}

/// As sets, the roots are the members less the paths that the lists name.
pub proof fn lemma_roots_are_members_less_named(
    members: Seq<PathModel>,
    graph: Seq<Seq<PathModel>>,
)
    ensures
        roots(members, graph).to_set() == members.to_set().difference(named_paths(graph)),
{
    let left = roots(members, graph).to_set();
    let right = members.to_set().difference(named_paths(graph));
    assert forall|path: PathModel| left.contains(path) <==> right.contains(path) by {
        lemma_root_iff(members, graph, path);
    }
    assert(left =~= right);
}

/// Every root is a member.
pub proof fn lemma_roots_are_members(members: Seq<PathModel>, graph: Seq<Seq<PathModel>>)
    ensures
        forall|path: PathModel| #[trigger]
            roots(members, graph).contains(path) ==> members.contains(path),
        roots(members, graph).len() <= members.len(),
{
    assert forall|path: PathModel| #[trigger]
        roots(members, graph).contains(path) implies members.contains(path) by {
        lemma_root_iff(members, graph, path);
    }
    members.lemma_filter_len(is_root(graph));
}

/// A solution without members has no roots.
pub proof fn lemma_no_members_no_roots(members: Seq<PathModel>, graph: Seq<Seq<PathModel>>)
    requires
        members.len() == 0,
    ensures
        roots(members, graph) == Seq::<PathModel>::empty(),
{
    members.lemma_filter_len(is_root(graph));
    assert(roots(members, graph) =~= Seq::<PathModel>::empty());
}

/// Where no member is named by any list, every member is a root.
pub proof fn lemma_unreferenced_members_are_roots(
    members: Seq<PathModel>,
    graph: Seq<Seq<PathModel>>,
)
    requires
        forall|i: int| 0 <= i < members.len() ==> !is_dependency(graph, #[trigger] members[i]),
    ensures
        roots(members, graph) == members,
    decreases members.len(),
{
    reveal(Seq::filter);
    if members.len() > 0 {
        let front = members.drop_last();
        assert forall|i: int| 0 <= i < front.len() implies !is_dependency(
            graph,
            #[trigger] front[i],
        ) by {
            assert(front[i] == members[i]);
        }
        lemma_unreferenced_members_are_roots(front, graph);
        assert(!is_dependency(graph, members[members.len() - 1]));
        assert(front.push(members.last()) =~= members);
    }
}

/// Where member `a` names `b` and nobody names `a`, `a` is a root and `b`
/// is none. The list at index `at` holds what the member at `at` names.
pub proof fn lemma_referenced_leaves_referrer_stays(
    members: Seq<PathModel>,
    graph: Seq<Seq<PathModel>>,
    a: PathModel,
    b: PathModel,
    at: int,
)
    requires
        members.len() == graph.len(),
        0 <= at < members.len(),
        members[at] == a,
        graph[at].contains(b),
        !is_dependency(graph, a),
    ensures
        roots(members, graph).contains(a),
        !roots(members, graph).contains(b),
{
    lemma_root_iff(members, graph, a);
    lemma_root_iff(members, graph, b);
}

/// Two members that name each other, in a solution of these two, leave no
/// root.
pub proof fn lemma_mutual_pair_has_no_roots(a: PathModel, b: PathModel, graph: Seq<Seq<PathModel>>)
    requires
        graph.len() == 2,
        graph[0].contains(b),
        graph[1].contains(a),
    ensures
        roots(seq![a, b], graph) == Seq::<PathModel>::empty(),
{
    let members = seq![a, b];
    let kept = roots(members, graph);
    if kept.len() > 0 {
        let path = kept[0];
        assert(kept.contains(path));
        lemma_root_iff(members, graph, path);
        let i = choose|i: int| 0 <= i < members.len() && members[i] == path;
        if i == 0 {
            assert(graph[1].contains(path));
        } else {
            assert(graph[0].contains(path));
        }
    }
    assert(kept =~= Seq::<PathModel>::empty());
}

/// Where every member is named by some list, there is no root.
pub proof fn lemma_all_referenced_no_roots(members: Seq<PathModel>, graph: Seq<Seq<PathModel>>)
    requires
        forall|i: int| 0 <= i < members.len() ==> is_dependency(graph, #[trigger] members[i]),
    ensures
        roots(members, graph) == Seq::<PathModel>::empty(),
{
    let kept = roots(members, graph);
    if kept.len() > 0 {
        let path = kept[0];
        assert(kept.contains(path));
        lemma_root_iff(members, graph, path);
        let i = choose|i: int| 0 <= i < members.len() && members[i] == path;
        assert(is_dependency(graph, members[i]));
    }
    assert(kept =~= Seq::<PathModel>::empty());
}

/// The order of the lists does not matter, nor how the names are spread
/// over them: two graphs that name the same paths leave the same roots.
pub proof fn lemma_roots_depend_on_named_paths(
    members: Seq<PathModel>,
    first: Seq<Seq<PathModel>>,
    second: Seq<Seq<PathModel>>,
)
    requires
        forall|path: PathModel| is_dependency(first, path) <==> is_dependency(second, path),
    ensures
        roots(members, first) == roots(members, second),
    decreases members.len(),
{
    reveal(Seq::filter);
    if members.len() > 0 {
        lemma_roots_depend_on_named_paths(members.drop_last(), first, second);
        let last = members.last();
        assert(is_dependency(first, last) <==> is_dependency(second, last));
    }
}

/// A member without dependencies contributes nothing: without its empty
/// list the roots are the same.
pub proof fn lemma_empty_list_removes_nothing(
    members: Seq<PathModel>,
    graph: Seq<Seq<PathModel>>,
    at: int,
)
    requires
        0 <= at < graph.len(),
        graph[at].len() == 0,
    ensures
        roots(members, graph) == roots(members, graph.remove(at)),
{
    let less = graph.remove(at);
    assert forall|path: PathModel| is_dependency(graph, path) <==> is_dependency(
        less,
        path,
    ) by {
        if is_dependency(graph, path) {
            let i = choose|i: int| 0 <= i < graph.len() && #[trigger] graph[i].contains(path);
            if i < at {
                assert(less[i] == graph[i]);
            } else {
                assert(i > at);
                assert(less[i - 1] == graph[i]);
            }
        }
        if is_dependency(less, path) {
            let i = choose|i: int| 0 <= i < less.len() && #[trigger] less[i].contains(path);
            if i < at {
                assert(graph[i] == less[i]);
            } else {
                assert(graph[i + 1] == less[i]);
            }
        }
    }
    lemma_roots_depend_on_named_paths(members, graph, less);
}

/// Tells whether `paths` holds `path`.
pub fn holds(paths: &Vec<ProjectPath>, path: &ProjectPath) -> (found: bool)
    ensures
        found == paths_of(paths@).contains(path@),
{
    let mut i: usize = 0;
    while i < paths.len()
        invariant
            i <= paths.len(),
            forall|j: int| 0 <= j < i ==> paths_of(paths@)[j] != path@,
        decreases paths.len() - i,
    {
        if paths[i].same_as(path) {
            assert(paths_of(paths@)[i as int] == path@);
            return true;
        }
        i += 1;
    }
    false
}

/// Tells whether some list of `graph` names `path`.
pub fn is_named(graph: &Vec<Vec<ProjectPath>>, path: &ProjectPath) -> (found: bool)
    ensures
        found == is_dependency(graph_of(graph@), path@),
{
    let mut i: usize = 0;
    while i < graph.len()
        invariant
            i <= graph.len(),
            forall|j: int| 0 <= j < i ==> !(#[trigger] graph_of(graph@)[j]).contains(path@),
        decreases graph.len() - i,
    {
        if holds(&graph[i], path) {
            assert(graph_of(graph@)[i as int].contains(path@));
            return true;
        }
        i += 1;
    }
    false
}

/// Reduces the members to those that no list of `graph` names.
pub fn find_roots(members: &Vec<ProjectPath>, graph: &Vec<Vec<ProjectPath>>) -> (kept: Vec<
    ProjectPath,
>)
    ensures
        paths_of(kept@) == roots(paths_of(members@), graph_of(graph@)),
{
    let mut kept: Vec<ProjectPath> = Vec::new();
    let mut i: usize = 0;
    let ghost all = paths_of(members@);
    let ghost test = is_root(graph_of(graph@));
    proof {
        reveal(Seq::filter);
        assert(all.take(0) =~= Seq::<PathModel>::empty());
        assert(paths_of(kept@) =~= all.take(0).filter(test));
    }
    while i < members.len()
        invariant
            i <= members.len(),
            all == paths_of(members@),
            test == is_root(graph_of(graph@)),
            paths_of(kept@) == all.take(i as int).filter(test),
        decreases members.len() - i,
    {
        let ghost before = paths_of(kept@);
        proof {
            reveal(Seq::filter);
            assert(all.take(i + 1).drop_last() =~= all.take(i as int));
            assert(all.take(i + 1).last() == members@[i as int]@);
        }
        if !is_named(graph, &members[i]) {
            kept.push(members[i].clone());
            assert(paths_of(kept@) =~= before.push(members@[i as int]@));
        }
        i += 1;
    }
    assert(all.take(i as int) =~= all);
    kept
}

} // verus!
