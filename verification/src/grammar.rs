//! The two line grammars: member lines of a solution manifest and reference
//! lines of a project manifest.
//!
//! Neither manifest is parsed as a whole. Each line is looked at on its own;
//! a line that does not have the shape asked for is passed over.

use crate::bytes::contains;
use crate::bytes::copy_range;
use crate::bytes::find;
use crate::bytes::first_occurrence;
use crate::bytes::lemma_occurs_in_iff_found;
use crate::bytes::occurs_at;
use crate::bytes::occurs_in;
use crate::bytes::starts_with;
use crate::bytes::texts;
use crate::lines::lines;
use crate::lines::split_lines;
use vstd::prelude::*;
use vstd::string::is_ascii;
use vstd::string::is_ascii_spec_bytes;

verus! {

/// Which of the two manifests a text is.
#[derive(Clone, Copy, Debug, PartialEq, Eq)]
pub enum ManifestKind {
    /// A solution manifest, which declares member projects.
    Solution,
    /// A project manifest, which declares references to other projects.
    Project,
}

/// The bytes of an ASCII literal.
pub open spec fn ascii(literal: &str) -> Seq<u8> {
    Seq::new(literal@.len(), |i: int| literal@[i] as u8)
}

/// What a member line of a solution begins with.
pub open spec fn member_keyword() -> Seq<u8> {
    ascii("Project")
}

/// The two project file extensions; a member line holds one of them.
pub open spec fn member_extensions() -> (Seq<u8>, Seq<u8>) {
    (ascii(".csproj"), ascii(".vbproj"))
}

/// What stands before the path on a member line.
pub open spec fn member_opening() -> Seq<u8> {
    ascii(", \"")
}

/// What stands behind the path on a member line.
pub open spec fn member_closing() -> Seq<u8> {
    ascii("\", ")
}

/// What a project reference begins with.
pub open spec fn reference_keyword() -> Seq<u8> {
    ascii("<ProjectReference ")
}

/// What stands before the path of a project reference.
pub open spec fn reference_opening() -> Seq<u8> {
    ascii("Include=\"")
}

/// What stands behind the path of a project reference.
pub open spec fn reference_closing() -> Seq<u8> {
    ascii("\"")
}

/// The text on `line` between the first `opening` at or after offset `from`
/// and the first `closing` behind that opening; `None` where either is
/// missing.
pub open spec fn text_between(
    line: Seq<u8>,
    from: int,
    opening: Seq<u8>,
    closing: Seq<u8>,
) -> Option<Seq<u8>> {
    match first_occurrence(line, opening, from) {
        None => None,
        Some(at) => match first_occurrence(line, closing, at + opening.len()) {
            None => None,
            Some(end) => Some(line.subrange(at + opening.len(), end)),
        },
    }
}

/// The member path that a line of a solution manifest declares.
///
/// The line has to begin with the member keyword and to hold one of the two
/// project extensions somewhere. The path then stands between the first
/// opening behind the keyword and the first closing behind that opening.
pub open spec fn member_text(line: Seq<u8>) -> Option<Seq<u8>> {
    if occurs_at(line, member_keyword(), 0) && (occurs_in(line, member_extensions().0)
        || occurs_in(line, member_extensions().1)) {
        text_between(line, member_keyword().len() as int, member_opening(), member_closing())
    } else {
        None
    }
}

/// The path that a line of a project manifest refers to.
///
/// The line has to hold the reference keyword. The path then stands between
/// the first opening behind the first keyword and the first closing behind
/// that opening, all on this one line.
pub open spec fn dependency_text(line: Seq<u8>) -> Option<Seq<u8>> {
    match first_occurrence(line, reference_keyword(), 0) {
        None => None,
        Some(at) => text_between(
            line,
            at + reference_keyword().len(),
            reference_opening(),
            reference_closing(),
        ),
    }
}

/// The path that a line of a manifest of the given kind declares.
pub open spec fn reference_text(kind: ManifestKind, line: Seq<u8>) -> Option<Seq<u8>> {
    match kind {
        ManifestKind::Solution => member_text(line),
        ManifestKind::Project => dependency_text(line),
    }
}

/// `reference_text` as a function of the line.
pub open spec fn line_rule(kind: ManifestKind) -> spec_fn(Seq<u8>) -> Option<Seq<u8>> {
    |line: Seq<u8>| reference_text(kind, line)
}

/// The paths that the lines of a manifest declare, in the order of the lines.
pub open spec fn reference_texts(kind: ManifestKind, contents: Seq<u8>) -> Seq<Seq<u8>> {
    lines(contents).filter_map(line_rule(kind))
}

/// What an optional byte vector holds.
pub open spec fn optional_text(text: Option<Vec<u8>>) -> Option<Seq<u8>> {
    match text {
        Some(bytes) => Some(bytes@),
        None => None,
    }
}

/// A line that does not hold the reference keyword declares no dependency.
pub proof fn lemma_line_without_keyword_declares_nothing(line: Seq<u8>)
    requires
        !occurs_in(line, reference_keyword()),
    ensures
        dependency_text(line) is None,
{
    lemma_occurs_in_iff_found(line, reference_keyword());
}

/// A project manifest without the reference keyword on any line declares no
/// dependency at all.
pub proof fn lemma_manifest_without_keyword_declares_nothing(contents: Seq<u8>)
    requires
        forall|i: int|
            0 <= i < lines(contents).len() ==> !occurs_in(
                #[trigger] lines(contents)[i],
                reference_keyword(),
            ),
    ensures
        reference_texts(ManifestKind::Project, contents) == Seq::<Seq<u8>>::empty(),
{
    lemma_lines_without_keyword_declare_nothing(lines(contents));
}

/// Lines of which none holds the reference keyword declare no dependency.
proof fn lemma_lines_without_keyword_declare_nothing(all: Seq<Seq<u8>>)
    requires
        forall|i: int| 0 <= i < all.len() ==> !occurs_in(#[trigger] all[i], reference_keyword()),
    ensures
        all.filter_map(line_rule(ManifestKind::Project)) == Seq::<Seq<u8>>::empty(),
    decreases all.len(),
{
    if all.len() > 0 {
        let front = all.drop_last();
        assert forall|i: int| 0 <= i < front.len() implies !occurs_in(
            #[trigger] front[i],
            reference_keyword(),
        ) by {
            assert(front[i] == all[i]);
        }
        lemma_lines_without_keyword_declare_nothing(front);
        assert(!occurs_in(all[all.len() - 1], reference_keyword()));
        lemma_line_without_keyword_declares_nothing(all.last());
    }
}

/// The bytes of an ASCII literal.
fn literal_bytes(literal: &'static str) -> (bytes: &'static [u8])
    requires
        is_ascii(literal),
    ensures
        bytes@ == ascii(literal),
{
    proof {
        is_ascii_spec_bytes(literal);
    }
    literal.as_bytes()
}

/// Cuts out the text between an opening and the closing that follows it.
pub fn find_text_between(line: &[u8], from: usize, opening: &[u8], closing: &[u8]) -> (text:
    Option<Vec<u8>>)
    ensures
        optional_text(text) == text_between(line@, from as int, opening@, closing@),
{
    match find(line, opening, from) {
        None => None,
        Some(at) => {
            assert(at + opening.len() <= line.len());
            let start: usize = at + opening.len();
            match find(line, closing, start) {
                None => None,
                Some(end) => Some(copy_range(line, start, end)),
            }
        },
    }
}

/// Reads the member path off a line of a solution manifest.
pub fn find_member_text(line: &[u8]) -> (text: Option<Vec<u8>>)
    ensures
        optional_text(text) == member_text(line@),
{
    proof {
        reveal_strlit("Project");
        reveal_strlit(".csproj");
        reveal_strlit(".vbproj");
        reveal_strlit(", \"");
        reveal_strlit("\", ");
    }
    let keyword = literal_bytes("Project");
    if starts_with(line, keyword) && (contains(line, literal_bytes(".csproj")) || contains(
        line,
        literal_bytes(".vbproj"),
    )) {
        find_text_between(line, keyword.len(), literal_bytes(", \""), literal_bytes("\", "))
    } else {
        None
    }
}

/// Reads the referenced path off a line of a project manifest.
pub fn find_dependency_text(line: &[u8]) -> (text: Option<Vec<u8>>)
    ensures
        optional_text(text) == dependency_text(line@),
{
    proof {
        reveal_strlit("<ProjectReference ");
        reveal_strlit("Include=\"");
        reveal_strlit("\"");
    }
    let keyword = literal_bytes("<ProjectReference ");
    match find(line, keyword, 0) {
        None => None,
        Some(at) => {
            assert(at + keyword.len() <= line.len());
            find_text_between(
                line,
                at + keyword.len(),
                literal_bytes("Include=\""),
                literal_bytes("\""),
            )
        },
    }
}

/// Reads the declared path off a line of a manifest of the given kind.
pub fn find_reference_text(kind: ManifestKind, line: &[u8]) -> (text: Option<Vec<u8>>)
    ensures
        optional_text(text) == reference_text(kind, line@),
{
    match kind {
        ManifestKind::Solution => find_member_text(line),
        ManifestKind::Project => find_dependency_text(line),
    }
}

/// Collects the paths that the lines of a manifest declare.
pub fn find_reference_texts(kind: ManifestKind, contents: &[u8]) -> (found: Vec<Vec<u8>>)
    ensures
        texts(found@) == reference_texts(kind, contents@),
{
    let all = split_lines(contents);
    let mut found: Vec<Vec<u8>> = Vec::new();
    let mut i: usize = 0;
    assert(lines(contents@).take(0).filter_map(line_rule(kind)) =~= Seq::<Seq<u8>>::empty());
    while i < all.len()
        invariant
            i <= all.len(),
            texts(all@) == lines(contents@),
            texts(found@) == lines(contents@).take(i as int).filter_map(line_rule(kind)),
        decreases all.len() - i,
    {
        let ghost before = texts(found@);
        proof {
            lines(contents@).lemma_filter_map_take_succ(line_rule(kind), i as int);
            assert(texts(all@)[i as int] == all@[i as int]@);
        }
        match find_reference_text(kind, all[i].as_slice()) {
            Some(text) => {
                found.push(text);
                assert(texts(found@) =~= before + seq![text@]);
            },
            None => {
                assert(texts(found@) =~= before + Seq::<Seq<u8>>::empty());
            },
        }
        i += 1;
    }
    assert(lines(contents@).take(i as int) =~= lines(contents@));
    found
}

} // verus!
