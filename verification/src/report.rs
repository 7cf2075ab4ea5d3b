//! What a report of one solution shows: which files are solutions, how a
//! solution is headed, and how a start project is written.

use crate::bytes::matches_at;
use crate::bytes::occurs_at;
use crate::grammar::ascii;
use crate::path::PathModel;
use crate::path::ProjectPath;
use vstd::prelude::*;
use vstd::string::is_ascii;
use vstd::string::is_ascii_spec_bytes;

verus! {

/// What the name of a solution manifest ends with.
pub open spec fn solution_suffix() -> Seq<u8> {
    ascii(".sln")
}

/// The path leads to a solution manifest: its file name ends with the
/// solution suffix, and something stands before the suffix.
pub open spec fn names_solution(path: PathModel) -> bool {
    match path.file_name() {
        Some(name) => name.len() > solution_suffix().len() && occurs_at(
            name,
            solution_suffix(),
            name.len() - solution_suffix().len(),
        ),
        None => false,
    }
}

/// The heading of the solution at `sln` in a report on everything under
/// `root`: the way from `root` to the solution. There is none where the
/// solution does not lie within `root`, nor where it is `root` itself.
pub open spec fn solution_heading(sln: PathModel, root: PathModel) -> Option<Seq<u8>> {
    match sln.relative_to(root) {
        Some(way) => if way.file_name() is Some {
            Some(way.text())
        } else {
            None
        },
        None => None,
    }
}

/// How `path` is written in a report on the solution in `dir`: as the way
/// from `dir` where it lies within `dir`, else in full.
pub open spec fn shown_path(path: PathModel, dir: PathModel) -> Seq<u8> {
    match path.relative_to(dir) {
        Some(way) => way.text(),
        None => path.text(),
    }
}

/// Tells whether the path leads to a solution manifest.
pub fn is_solution_file(path: &ProjectPath) -> (yes: bool)
    ensures
        yes == names_solution(path@),
{
    proof {
        reveal_strlit(".sln");
        is_ascii_spec_bytes(".sln");
        assert(is_ascii(".sln"));
    }
    let suffix = ".sln".as_bytes();
    assert(suffix@ =~= solution_suffix());
    match path.file_name() {
        Some(name) => name.len() > suffix.len() && matches_at(
            name.as_slice(),
            suffix,
            name.len() - suffix.len(),
        ),
        None => false,
    }
}

/// Writes the heading of a solution in a report on everything under `root`.
pub fn get_solution_heading(sln_path: &ProjectPath, root: &ProjectPath) -> (heading: Option<
    Vec<u8>,
>)
    ensures
        match heading {
            Some(text) => solution_heading(sln_path@, root@) == Some(text@),
            None => solution_heading(sln_path@, root@) is None,
        },
{
    match sln_path.relative_to(root) {
        Some(way) => if way.file_name().is_some() {
            Some(way.to_text())
        } else {
            None
        },
        None => None,
    }
}

/// Writes a path as a report on the solution in `dir` shows it.
pub fn get_shown_path(path: &ProjectPath, dir: &ProjectPath) -> (text: Vec<u8>)
    ensures
        text@ == shown_path(path@, dir@),
{
    match path.relative_to(dir) {
        Some(way) => way.to_text(),
        None => path.to_text(),
    }
}

} // verus!
