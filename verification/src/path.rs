//! Project paths: normal form, joining and containment.
//!
//! A path is an anchor and a list of names. Both `/` and `\` separate names,
//! so a reference written on one platform means the same on another. Names
//! are compared byte for byte; nothing here looks at a file system.

use crate::bytes::copy_range;
use crate::bytes::lemma_run_len;
use crate::bytes::lemma_run_len_unique;
use crate::bytes::run_end;
use crate::bytes::run_len;
use crate::bytes::same_bytes;
use crate::bytes::texts;
use vstd::prelude::*;

verus! {

/// The separator that a path is written with.
pub const SLASH: u8 = 47;

/// The other separator that a path is read with.
pub const BACKSLASH: u8 = 92;

/// The byte that the two special names are made of.
pub const DOT: u8 = 46;

/// The byte behind a drive letter.
pub const COLON: u8 = 58;

/// Where a path starts from.
#[derive(Clone, Copy, Debug, PartialEq, Eq, Structural)]
pub enum Anchor {
    /// Wherever the reader stands: the path is relative.
    Relative,
    /// The root of the file system.
    Root,
    /// The root of the drive with this letter.
    Drive(u8),
}

/// What a path is: its anchor and its names, outermost first.
pub struct PathModel {
    pub anchor: Anchor,
    pub parts: Seq<Seq<u8>>,
}

/// The test that path text is cut at.
pub open spec fn is_separator() -> spec_fn(u8) -> bool {
    |b: u8| b == SLASH || b == BACKSLASH
}

/// An ASCII letter, which may name a drive.
pub open spec fn is_drive_letter(b: u8) -> bool {
    (65 <= b <= 90) || (97 <= b <= 122)
}

/// The name that stands for the directory itself.
pub open spec fn this_dir() -> Seq<u8> {
    seq![DOT]
}

/// The name that stands for the directory above.
pub open spec fn parent_dir() -> Seq<u8> {
    seq![DOT, DOT]
}

/// The anchor that path text begins with: a separator for the root, a letter
/// with a colon and a separator for a drive, nothing for a relative path.
pub open spec fn anchor_of(text: Seq<u8>) -> Anchor {
    if text.len() >= 1 && is_separator()(text[0]) {
        Anchor::Root
    } else if text.len() >= 3 && is_drive_letter(text[0]) && text[1] == COLON && is_separator()(
        text[2],
    ) {
        Anchor::Drive(text[0])
    } else {
        Anchor::Relative
    }
}

/// How many bytes of path text spell the anchor.
pub open spec fn anchor_len(anchor: Anchor) -> nat {
    match anchor {
        Anchor::Relative => 0,
        Anchor::Root => 1,
        Anchor::Drive(_) => 3,
    }
}

/// The text that spells an anchor.
pub open spec fn anchor_text(anchor: Anchor) -> Seq<u8> {
    match anchor {
        Anchor::Relative => Seq::empty(),
        Anchor::Root => seq![SLASH],
        Anchor::Drive(letter) => seq![letter, COLON, SLASH],
    }
}

/// The pieces of `text` between its separators, empty pieces included.
pub open spec fn components(text: Seq<u8>) -> Seq<Seq<u8>>
    decreases text.len(),
{
    let n = run_len(text, is_separator());
    if n >= text.len() {
        seq![text]
    } else {
        seq![text.take(n as int)] + components(text.skip(n as int + 1))
    }
}

/// The names reached from `parts` by one more piece of path text.
///
/// An empty piece and `.` change nothing. `..` leaves the last name; at the
/// top of an absolute path it changes nothing, and where a relative path has
/// no name left to leave it is kept. Any other piece is entered.
pub open spec fn step(absolute: bool, parts: Seq<Seq<u8>>, piece: Seq<u8>) -> Seq<Seq<u8>> {
    if piece.len() == 0 || piece == this_dir() {
        parts
    } else if piece == parent_dir() {
        if parts.len() > 0 && parts.last() != parent_dir() {
            parts.drop_last()
        } else if absolute {
            parts
        } else {
            parts.push(piece)
        }
    } else {
        parts.push(piece)
    }
}

/// The names reached from `parts` by a list of pieces, taken in order.
pub open spec fn walk(absolute: bool, parts: Seq<Seq<u8>>, pieces: Seq<Seq<u8>>) -> Seq<Seq<u8>>
    decreases pieces.len(),
{
    if pieces.len() == 0 {
        parts
    } else {
        walk(absolute, step(absolute, parts, pieces[0]), pieces.skip(1))
    }
}

/// A piece that can stand as a name: not empty, not `.`, no separator in it.
pub open spec fn is_name(piece: Seq<u8>) -> bool {
    &&& piece.len() > 0
    &&& piece != this_dir()
    &&& forall|k: int| 0 <= k < piece.len() ==> !is_separator()(#[trigger] piece[k])
}

/// Names in normal form: `..` only in a relative path, and only in front.
pub open spec fn normal_parts(absolute: bool, parts: Seq<Seq<u8>>) -> bool {
    &&& forall|i: int| 0 <= i < parts.len() ==> is_name(#[trigger] parts[i])
    &&& forall|i: int| 0 <= i < parts.len() && #[trigger] parts[i] == parent_dir() ==> !absolute
    &&& forall|i: int, j: int|
        0 <= j < i < parts.len() && #[trigger] parts[i] == parent_dir() ==> #[trigger] parts[j]
            == parent_dir()
}

/// The names of a path written out, with `/` between them.
pub open spec fn joined(parts: Seq<Seq<u8>>) -> Seq<u8>
    decreases parts.len(),
{
    if parts.len() == 0 {
        Seq::empty()
    } else if parts.len() == 1 {
        parts[0]
    } else {
        joined(parts.drop_last()) + seq![SLASH] + parts.last()
    }
}

/// The path that `text` spells, in normal form.
pub open spec fn parse_path(text: Seq<u8>) -> PathModel {
    let anchor = anchor_of(text);
    PathModel {
        anchor,
        parts: walk(
            anchor != Anchor::Relative,
            Seq::empty(),
            components(text.skip(anchor_len(anchor) as int)),
        ),
    }
}

impl PathModel {
    /// The path starts at a root.
    pub open spec fn is_absolute(self) -> bool {
        self.anchor != Anchor::Relative
    }

    /// The path is in normal form.
    pub open spec fn well_formed(self) -> bool {
        &&& normal_parts(self.is_absolute(), self.parts)
        &&& self.anchor matches Anchor::Drive(letter) ==> is_drive_letter(letter)
    }

    /// The path lies in the subtree of `dir`: `dir` itself, or anything
    /// reached from it by further names.
    pub open spec fn within(self, dir: PathModel) -> bool {
        &&& self.anchor == dir.anchor
        &&& dir.parts.is_prefix_of(self.parts)
    }

    /// The directory that holds the file with this path: the path without
    /// its last name. A path without names is its own directory.
    pub open spec fn directory(self) -> PathModel {
        PathModel {
            anchor: self.anchor,
            parts: if self.parts.len() > 0 {
                self.parts.drop_last()
            } else {
                self.parts
            },
        }
    }

    /// The path that `reference` means when it is read in this directory:
    /// an absolute reference stands for itself, a relative one is walked
    /// from here.
    pub open spec fn join(self, reference: Seq<u8>) -> PathModel {
        if anchor_of(reference) != Anchor::Relative {
            parse_path(reference)
        } else {
            PathModel {
                anchor: self.anchor,
                parts: walk(self.is_absolute(), self.parts, components(reference)),
            }
        }
    }

    /// The way from `dir` to this path, where this path lies within `dir`.
    pub open spec fn relative_to(self, dir: PathModel) -> Option<PathModel> {
        if self.within(dir) {
            Some(
                PathModel {
                    anchor: Anchor::Relative,
                    parts: self.parts.skip(dir.parts.len() as int),
                },
            )
        } else {
            None
        }
    }

    /// The path written out.
    pub open spec fn text(self) -> Seq<u8> {
        anchor_text(self.anchor) + joined(self.parts)
    }

    /// The name of the file: the last name of the path, unless that is `..`.
    pub open spec fn file_name(self) -> Option<Seq<u8>> {
        if self.parts.len() > 0 && self.parts.last() != parent_dir() {
            Some(self.parts.last())
        } else {
            None
        }
    }
}

/// One more piece keeps names in normal form.
pub proof fn lemma_step_keeps_normal(absolute: bool, parts: Seq<Seq<u8>>, piece: Seq<u8>)
    requires
        normal_parts(absolute, parts),
        forall|k: int| 0 <= k < piece.len() ==> !is_separator()(#[trigger] piece[k]),
    ensures
        normal_parts(absolute, step(absolute, parts, piece)),
{
    let next = step(absolute, parts, piece);
    if piece.len() == 0 || piece == this_dir() {
    } else if piece == parent_dir() {
        if parts.len() > 0 && parts.last() != parent_dir() {
            assert forall|i: int| 0 <= i < next.len() implies is_name(#[trigger] next[i]) by {
                assert(next[i] == parts[i]);
            }
            assert forall|i: int| 0 <= i < next.len() && #[trigger] next[i]
                == parent_dir() implies !absolute by {
                assert(next[i] == parts[i]);
            }
            assert forall|i: int, j: int|
                0 <= j < i < next.len() && #[trigger] next[i]
                    == parent_dir() implies #[trigger] next[j] == parent_dir() by {
                assert(next[i] == parts[i]);
                assert(next[j] == parts[j]);
            }
        } else if absolute {
        } else {
            assert(is_name(piece));
            assert forall|i: int| 0 <= i < next.len() implies is_name(#[trigger] next[i]) by {
                if i < parts.len() {
                    assert(next[i] == parts[i]);
                }
            }
            assert forall|i: int, j: int|
                0 <= j < i < next.len() && #[trigger] next[i]
                    == parent_dir() implies #[trigger] next[j] == parent_dir() by {
                assert(next[j] == parts[j]);
                if i < parts.len() {
                    assert(next[i] == parts[i]);
                } else if j < parts.len() - 1 {
                    assert(parts[parts.len() - 1] == parent_dir());
                }
            }
        }
    } else {
        assert(is_name(piece));
        assert forall|i: int| 0 <= i < next.len() implies is_name(#[trigger] next[i]) by {
            if i < parts.len() {
                assert(next[i] == parts[i]);
            }
        }
        assert forall|i: int| 0 <= i < next.len() && #[trigger] next[i]
            == parent_dir() implies !absolute by {
            assert(next[i] == parts[i]);
        }
        assert forall|i: int, j: int|
            0 <= j < i < next.len() && #[trigger] next[i] == parent_dir() implies #[trigger] next[j]
                == parent_dir() by {
            assert(next[i] == parts[i]);
            assert(next[j] == parts[j]);
        }
    }
}

/// No piece of path text holds a separator.
pub proof fn lemma_components_hold_no_separator(text: Seq<u8>)
    ensures
        forall|i: int, k: int|
            0 <= i < components(text).len() && 0 <= k < components(text)[i].len()
                ==> !is_separator()(#[trigger] components(text)[i][k]),
    decreases text.len(),
{
    lemma_run_len(text, is_separator());
    let n = run_len(text, is_separator());
    if n >= text.len() {
    } else {
        let rest = components(text.skip(n as int + 1));
        lemma_components_hold_no_separator(text.skip(n as int + 1));
        assert forall|i: int, k: int|
            0 <= i < components(text).len() && 0 <= k < components(text)[i].len()
                implies !is_separator()(#[trigger] components(text)[i][k]) by {
            if i == 0 {
                assert(components(text)[0][k] == text[k]);
            } else {
                assert(components(text)[i] == rest[i - 1]);
            }
        }
    }
}

/// Walking pieces that hold no separator keeps names in normal form.
pub proof fn lemma_walk_keeps_normal(absolute: bool, parts: Seq<Seq<u8>>, pieces: Seq<Seq<u8>>)
    requires
        normal_parts(absolute, parts),
        forall|i: int, k: int|
            0 <= i < pieces.len() && 0 <= k < pieces[i].len() ==> !is_separator()(
                #[trigger] pieces[i][k],
            ),
    ensures
        normal_parts(absolute, walk(absolute, parts, pieces)),
    decreases pieces.len(),
{
    if pieces.len() > 0 {
        lemma_step_keeps_normal(absolute, parts, pieces[0]);
        let rest = pieces.skip(1);
        assert forall|i: int, k: int|
            0 <= i < rest.len() && 0 <= k < rest[i].len() implies !is_separator()(
            #[trigger] rest[i][k],
        ) by {
            assert(rest[i] == pieces[i + 1]);
        }
        lemma_walk_keeps_normal(absolute, step(absolute, parts, pieces[0]), rest);
    }
}

/// Every parsed path is in normal form.
pub proof fn lemma_parse_is_well_formed(text: Seq<u8>)
    ensures
        parse_path(text).well_formed(),
{
    let anchor = anchor_of(text);
    let body = text.skip(anchor_len(anchor) as int);
    lemma_components_hold_no_separator(body);
    lemma_walk_keeps_normal(anchor != Anchor::Relative, Seq::empty(), components(body));
}

/// Joining a reference onto a path in normal form gives a path in normal form.
pub proof fn lemma_join_is_well_formed(dir: PathModel, reference: Seq<u8>)
    requires
        dir.well_formed(),
    ensures
        dir.join(reference).well_formed(),
{
    if anchor_of(reference) != Anchor::Relative {
        lemma_parse_is_well_formed(reference);
    } else {
        lemma_components_hold_no_separator(reference);
        lemma_walk_keeps_normal(dir.is_absolute(), dir.parts, components(reference));
    }
}

/// Names written out begin with the first name and a separator.
pub proof fn lemma_joined_front(parts: Seq<Seq<u8>>)
    requires
        parts.len() >= 2,
    ensures
        joined(parts) == parts[0] + seq![SLASH] + joined(parts.skip(1)),
    decreases parts.len(),
{
    let tail = parts.skip(1);
    if parts.len() == 2 {
        assert(joined(parts.drop_last()) == parts[0]);
        assert(joined(tail) == parts[1]);
    } else {
        let front = parts.drop_last();
        lemma_joined_front(front);
        assert(front.skip(1) =~= tail.drop_last());
        assert(joined(tail) == joined(tail.drop_last()) + seq![SLASH] + tail.last());
        assert(joined(parts) =~= parts[0] + seq![SLASH] + joined(tail));
    }
}

/// Names written out and cut again at the separators are the same names.
pub proof fn lemma_components_of_joined(parts: Seq<Seq<u8>>)
    requires
        parts.len() >= 1,
        forall|i: int| 0 <= i < parts.len() ==> is_name(#[trigger] parts[i]),
    ensures
        components(joined(parts)) == parts,
    decreases parts.len(),
{
    let text = joined(parts);
    let first = parts[0];
    assert(is_name(first));
    if parts.len() == 1 {
        lemma_run_len_unique(text, is_separator(), text.len() as int);
        assert(components(text) =~= parts);
    } else {
        let tail = parts.skip(1);
        lemma_joined_front(parts);
        assert forall|k: int| 0 <= k < first.len() implies !is_separator()(#[trigger] text[k]) by {
            assert(text[k] == first[k]);
        }
        assert(text[first.len() as int] == SLASH);
        lemma_run_len_unique(text, is_separator(), first.len() as int);
        assert(text.take(first.len() as int) =~= first);
        assert(text.skip(first.len() as int + 1) =~= joined(tail));
        assert forall|i: int| 0 <= i < tail.len() implies is_name(#[trigger] tail[i]) by {
            assert(tail[i] == parts[i + 1]);
        }
        lemma_components_of_joined(tail);
        assert(seq![first] + tail =~= parts);
    }
}

/// Walking names that are in normal form already enters each of them.
pub proof fn lemma_walk_of_normal(absolute: bool, parts: Seq<Seq<u8>>, pieces: Seq<Seq<u8>>)
    requires
        normal_parts(absolute, parts + pieces),
    ensures
        walk(absolute, parts, pieces) == parts + pieces,
    decreases pieces.len(),
{
    let all = parts + pieces;
    if pieces.len() == 0 {
        assert(all =~= parts);
    } else {
        let piece = pieces[0];
        assert(all[parts.len() as int] == piece);
        assert(is_name(piece));
        if piece == parent_dir() && parts.len() > 0 {
            assert(all[parts.len() - 1] == parent_dir());
            assert(parts.last() == all[parts.len() - 1]);
        }
        assert(step(absolute, parts, piece) == parts.push(piece));
        assert(parts.push(piece) + pieces.skip(1) =~= all);
        lemma_walk_of_normal(absolute, parts.push(piece), pieces.skip(1));
    }
}

/// The text of an absolute path begins with the path's anchor.
pub proof fn lemma_text_shows_anchor(path: PathModel)
    requires
        path.well_formed(),
        path.is_absolute(),
    ensures
        anchor_of(path.text()) == path.anchor,
{
    let text = path.text();
    match path.anchor {
        Anchor::Relative => {},
        Anchor::Root => {
            assert(text[0] == SLASH);
        },
        Anchor::Drive(letter) => {
            assert(text[0] == letter);
            assert(text[1] == COLON);
            assert(text[2] == SLASH);
        },
    }
}

/// Writing a path in normal form out and reading the text back gives the
/// same path, provided the text shows the path's own anchor.
pub proof fn lemma_text_round_trip(path: PathModel)
    requires
        path.well_formed(),
        anchor_of(path.text()) == path.anchor,
    ensures
        parse_path(path.text()) == path,
{
    let text = path.text();
    let body = text.skip(anchor_len(path.anchor) as int);
    assert(body =~= joined(path.parts));
    let absolute = path.is_absolute();
    let empty = Seq::<Seq<u8>>::empty();
    if path.parts.len() == 0 {
        assert(body.len() == 0);
        assert(components(body) =~= seq![body]);
        assert(components(body).skip(1) =~= empty);
        assert(walk(absolute, step(absolute, empty, body), empty) == empty);
        assert(parse_path(text).parts =~= path.parts);
    } else {
        lemma_components_of_joined(path.parts);
        assert(empty + path.parts =~= path.parts);
        lemma_walk_of_normal(absolute, empty, path.parts);
    }
}

/// Reading path text is idempotent on absolute paths: the text of a parsed
/// absolute path parses to that same path.
pub proof fn lemma_parse_is_idempotent(text: Seq<u8>)
    requires
        anchor_of(text) != Anchor::Relative,
    ensures
        parse_path(parse_path(text).text()) == parse_path(text),
{
    lemma_parse_is_well_formed(text);
    lemma_text_shows_anchor(parse_path(text));
    lemma_text_round_trip(parse_path(text));
}

/// A suffix of names in normal form is in normal form as a relative path.
pub proof fn lemma_suffix_is_normal(absolute: bool, parts: Seq<Seq<u8>>, from: int)
    requires
        normal_parts(absolute, parts),
        0 <= from <= parts.len(),
    ensures
        normal_parts(false, parts.skip(from)),
{
    let rest = parts.skip(from);
    assert forall|i: int| 0 <= i < rest.len() implies is_name(#[trigger] rest[i]) by {
        assert(rest[i] == parts[i + from]);
    }
    assert forall|i: int, j: int|
        0 <= j < i < rest.len() && #[trigger] rest[i] == parent_dir() implies #[trigger] rest[j]
            == parent_dir() by {
        assert(rest[i] == parts[i + from]);
        assert(rest[j] == parts[j + from]);
    }
}

/// A prefix of names in normal form is in normal form.
pub proof fn lemma_prefix_is_normal(absolute: bool, parts: Seq<Seq<u8>>, to: int)
    requires
        normal_parts(absolute, parts),
        0 <= to <= parts.len(),
    ensures
        normal_parts(absolute, parts.take(to)),
{
    let front = parts.take(to);
    assert forall|i: int| 0 <= i < front.len() implies is_name(#[trigger] front[i]) by {
        assert(front[i] == parts[i]);
    }
    assert forall|i: int| 0 <= i < front.len() && #[trigger] front[i]
        == parent_dir() implies !absolute by {
        assert(front[i] == parts[i]);
    }
    assert forall|i: int, j: int|
        0 <= j < i < front.len() && #[trigger] front[i] == parent_dir() implies #[trigger] front[j]
            == parent_dir() by {
        assert(front[i] == parts[i]);
        assert(front[j] == parts[j]);
    }
}

/// A project path in normal form.
///
/// Two values are equal exactly when they name the same place: the names
/// are compared, never the text that a manifest spelled them with.
#[derive(Debug, PartialEq, Eq)]
pub struct ProjectPath {
    anchor: Anchor,
    parts: Vec<Vec<u8>>,
}

impl View for ProjectPath {
    type V = PathModel;

    closed spec fn view(&self) -> PathModel {
        PathModel { anchor: self.anchor, parts: texts(self.parts@) }
    }
}

/// Tells whether `piece` is the name `.`.
fn is_this_dir(piece: &[u8]) -> (yes: bool)
    ensures
        yes == (piece@ == this_dir()),
{
    if piece.len() == 1 && piece[0] == DOT {
        assert(piece@ =~= this_dir());
        true
    } else {
        assert(this_dir().len() == 1 && this_dir()[0] == DOT);
        false
    }
}

/// Tells whether `piece` is the name `..`.
fn is_parent_dir(piece: &[u8]) -> (yes: bool)
    ensures
        yes == (piece@ == parent_dir()),
{
    if piece.len() == 2 && piece[0] == DOT && piece[1] == DOT {
        assert(piece@ =~= parent_dir());
        true
    } else {
        assert(parent_dir().len() == 2 && parent_dir()[0] == DOT && parent_dir()[1] == DOT);
        false
    }
}

/// Tells whether `b` separates names.
fn separates(b: u8) -> (yes: bool)
    ensures
        yes == is_separator()(b),
{
    b == SLASH || b == BACKSLASH
}

/// Tells whether `b` may name a drive.
fn names_drive(b: u8) -> (yes: bool)
    ensures
        yes == is_drive_letter(b),
{
    (65 <= b && b <= 90) || (97 <= b && b <= 122)
}

/// Reads the anchor that path text begins with.
fn read_anchor(text: &[u8]) -> (anchor: Anchor)
    ensures
        anchor == anchor_of(text@),
{
    if text.len() >= 1 && separates(text[0]) {
        Anchor::Root
    } else if text.len() >= 3 && names_drive(text[0]) && text[1] == COLON && separates(text[2]) {
        Anchor::Drive(text[0])
    } else {
        Anchor::Relative
    }
}

/// Takes one more piece of path text.
fn enter(absolute: bool, parts: &mut Vec<Vec<u8>>, piece: Vec<u8>)
    ensures
        texts(final(parts)@) == step(absolute, texts(old(parts)@), piece@),
{
    let ghost before = texts(parts@);
    if piece.len() == 0 || is_this_dir(piece.as_slice()) {
    } else if is_parent_dir(piece.as_slice()) {
        let n = parts.len();
        proof {
            if n > 0 {
                assert(before.last() == parts@[n - 1]@);
            }
        }
        if n > 0 && !is_parent_dir(parts[n - 1].as_slice()) {
            parts.pop();
            assert(texts(parts@) =~= before.drop_last());
        } else if !absolute {
            parts.push(piece);
            assert(texts(parts@) =~= before.push(piece@));
        }
    } else {
        parts.push(piece);
        assert(texts(parts@) =~= before.push(piece@));
    }
}

/// Walks the pieces of `text` from offset `from` on.
fn walk_text(absolute: bool, parts: &mut Vec<Vec<u8>>, text: &[u8], from: usize)
    requires
        from <= text.len(),
    ensures
        texts(final(parts)@) == walk(
            absolute,
            texts(old(parts)@),
            components(text@.skip(from as int)),
        ),
{
    let ghost goal = walk(absolute, texts(parts@), components(text@.skip(from as int)));
    let mut start: usize = from;
    loop
        invariant
            start <= text.len(),
            goal == walk(absolute, texts(old(parts)@), components(text@.skip(from as int))),
            goal == walk(absolute, texts(parts@), components(text@.skip(start as int))),
        decreases text.len() - start,
    {
        let end = run_end(text, start, SLASH, BACKSLASH);
        let ghost rest = text@.skip(start as int);
        let ghost before = texts(parts@);
        proof {
            assert forall|k: int| 0 <= k < end - start implies !is_separator()(
                #[trigger] rest[k],
            ) by {
                assert(rest[k] == text@[start + k]);
            }
            if end < text.len() {
                assert(rest[end - start] == text@[end as int]);
            }
            lemma_run_len_unique(rest, is_separator(), end - start);
            assert(rest.take(end - start) =~= text@.subrange(start as int, end as int));
        }
        enter(absolute, parts, copy_range(text, start, end));
        if end == text.len() {
            proof {
                let piece = text@.subrange(start as int, end as int);
                assert(piece =~= rest);
                assert(components(rest) == seq![rest]);
                assert(components(rest).skip(1) =~= Seq::<Seq<u8>>::empty());
                assert(walk(absolute, texts(parts@), Seq::<Seq<u8>>::empty()) == texts(parts@));
            }
            return ;
        }
        proof {
            let piece = text@.subrange(start as int, end as int);
            let after = text@.skip(end + 1);
            assert(rest.skip(end - start + 1) =~= after);
            assert(components(rest) == seq![piece] + components(after));
            assert((seq![piece] + components(after)).skip(1) =~= components(after));
        }
        start = end + 1;
    }
}

/// Copies a list of names.
fn copy_parts(parts: &Vec<Vec<u8>>, from: usize, to: usize) -> (copy: Vec<Vec<u8>>)
    requires
        from <= to <= parts.len(),
    ensures
        texts(copy@) == texts(parts@).subrange(from as int, to as int),
{
    let mut copy: Vec<Vec<u8>> = Vec::new();
    let mut i: usize = from;
    while i < to
        invariant
            from <= i <= to <= parts.len(),
            texts(copy@) == texts(parts@).subrange(from as int, i as int),
        decreases to - i,
    {
        let ghost before = texts(copy@);
        copy.push(copy_range(parts[i].as_slice(), 0, parts[i].len()));
        proof {
            assert(parts@[i as int]@.subrange(0, parts@[i as int]@.len() as int)
                =~= parts@[i as int]@);
            assert(texts(copy@) =~= before.push(parts@[i as int]@));
            assert(texts(copy@) =~= texts(parts@).subrange(from as int, i + 1));
        }
        i += 1;
    }
    copy
}

impl Clone for ProjectPath {
    fn clone(&self) -> (copy: ProjectPath)
        ensures
            copy@ == self@,
    {
        let parts = copy_parts(&self.parts, 0, self.parts.len());
        proof {
            use_type_invariant(self);
            assert(texts(parts@) =~= self@.parts);
        }
        ProjectPath { anchor: self.anchor, parts }
    }
}

impl ProjectPath {
    #[verifier::type_invariant]
    spec fn in_normal_form(self) -> bool {
        self@.well_formed()
    }

    /// Reads path text into normal form.
    pub fn parse(text: &[u8]) -> (path: ProjectPath)
        ensures
            path@ == parse_path(text@),
            path@.well_formed(),
    {
        let anchor = read_anchor(text);
        let (absolute, from): (bool, usize) = match anchor {
            Anchor::Relative => (false, 0),
            Anchor::Root => (true, 1),
            Anchor::Drive(_) => (true, 3),
        };
        let mut parts: Vec<Vec<u8>> = Vec::new();
        assert(texts(parts@) =~= Seq::<Seq<u8>>::empty());
        walk_text(absolute, &mut parts, text, from);
        proof {
            lemma_parse_is_well_formed(text@);
        }
        ProjectPath { anchor, parts }
    }

    /// States that this path is in normal form, as every value of the type is.
    pub fn normal_form(&self)
        ensures
            self@.well_formed(),
    {
        proof {
            use_type_invariant(self);
        }
    }

    /// Tells whether the path starts at a root.
    pub fn is_absolute(&self) -> (yes: bool)
        ensures
            yes == self@.is_absolute(),
    {
        match self.anchor {
            Anchor::Relative => false,
            _ => true,
        }
    }

    /// Tells whether two paths name the same place.
    pub fn same_as(&self, other: &ProjectPath) -> (same: bool)
        ensures
            same == (self@ == other@),
    {
        if self.parts.len() != other.parts.len() {
            assert(self@.parts.len() != other@.parts.len());
            return false;
        }
        let same = self.starts_with(other);
        proof {
            if same {
                assert(self@.parts =~= other@.parts);
            }
        }
        same
    }

    /// Tells whether this path lies in the subtree of `dir`.
    pub fn starts_with(&self, dir: &ProjectPath) -> (inside: bool)
        ensures
            inside == self@.within(dir@),
    {
        if self.anchor != dir.anchor || dir.parts.len() > self.parts.len() {
            return false;
        }
        let n = dir.parts.len();
        let mut i: usize = 0;
        while i < n
            invariant
                i <= n,
                n == dir.parts.len(),
                n <= self.parts.len(),
                forall|j: int| 0 <= j < i ==> self@.parts[j] == dir@.parts[j],
            decreases n - i,
        {
            if !same_bytes(self.parts[i].as_slice(), dir.parts[i].as_slice()) {
                proof {
                    assert(self@.parts[i as int] != dir@.parts[i as int]);
                    if dir@.parts.is_prefix_of(self@.parts) {
                        assert(self@.parts.subrange(0, n as int)[i as int] == dir@.parts[i as int]);
                    }
                }
                return false;
            }
            i += 1;
        }
        assert(dir@.parts =~= self@.parts.subrange(0, n as int));
        true
    }

    /// The directory that holds the file with this path.
    pub fn directory(&self) -> (dir: ProjectPath)
        ensures
            dir@ == self@.directory(),
    {
        let n = self.parts.len();
        let keep: usize = if n > 0 {
            n - 1
        } else {
            0
        };
        let parts = copy_parts(&self.parts, 0, keep);
        proof {
            use_type_invariant(self);
            lemma_prefix_is_normal(self@.is_absolute(), self@.parts, keep as int);
            assert(texts(parts@) =~= self@.directory().parts);
        }
        ProjectPath { anchor: self.anchor, parts }
    }

    /// Reads `reference` in this directory.
    pub fn join(&self, reference: &[u8]) -> (path: ProjectPath)
        ensures
            path@ == self@.join(reference@),
    {
        match read_anchor(reference) {
            Anchor::Relative => {
                let mut parts = copy_parts(&self.parts, 0, self.parts.len());
                assert(texts(parts@) =~= self@.parts);
                walk_text(self.is_absolute(), &mut parts, reference, 0);
                proof {
                    use_type_invariant(self);
                    assert(reference@.skip(0) =~= reference@);
                    lemma_join_is_well_formed(self@, reference@);
                }
                ProjectPath { anchor: self.anchor, parts }
            },
            _ => ProjectPath::parse(reference),
        }
    }

    /// The way from `dir` to this path; `None` where this path does not lie
    /// within `dir`.
    pub fn relative_to(&self, dir: &ProjectPath) -> (way: Option<ProjectPath>)
        ensures
            match way {
                Some(path) => self@.relative_to(dir@) == Some(path@),
                None => self@.relative_to(dir@) is None,
            },
    {
        if !self.starts_with(dir) {
            return None;
        }
        let parts = copy_parts(&self.parts, dir.parts.len(), self.parts.len());
        proof {
            use_type_invariant(self);
            lemma_suffix_is_normal(self@.is_absolute(), self@.parts, dir@.parts.len() as int);
            assert(texts(parts@) =~= self@.parts.skip(dir@.parts.len() as int));
        }
        Some(ProjectPath { anchor: Anchor::Relative, parts })
    }

    /// The name of the file that the path leads to.
    pub fn file_name(&self) -> (name: Option<&Vec<u8>>)
        ensures
            match name {
                Some(bytes) => self@.file_name() == Some(bytes@),
                None => self@.file_name() is None,
            },
    {
        let n = self.parts.len();
        if n == 0 {
            return None;
        }
        assert(self@.parts.last() == self.parts@[n - 1]@);
        if is_parent_dir(self.parts[n - 1].as_slice()) {
            None
        } else {
            Some(&self.parts[n - 1])
        }
    }

    /// Writes the path out, with `/` between the names.
    pub fn to_text(&self) -> (text: Vec<u8>)
        ensures
            text@ == self@.text(),
    {
        let mut text: Vec<u8> = Vec::new();
        match self.anchor {
            Anchor::Relative => {},
            Anchor::Root => {
                text.push(SLASH);
            },
            Anchor::Drive(letter) => {
                text.push(letter);
                text.push(COLON);
                text.push(SLASH);
            },
        }
        assert(text@ =~= anchor_text(self@.anchor));
        let n = self.parts.len();
        let mut i: usize = 0;
        assert(self@.parts.take(0) =~= Seq::<Seq<u8>>::empty());
        while i < n
            invariant
                i <= n,
                n == self.parts.len(),
                text@ == anchor_text(self@.anchor) + joined(self@.parts.take(i as int)),
            decreases n - i,
        {
            let ghost before = text@;
            let ghost so_far = self@.parts.take(i as int);
            let ghost next = self@.parts.take(i + 1);
            proof {
                assert(next.drop_last() =~= so_far);
                assert(next.last() == self.parts@[i as int]@);
            }
            if i > 0 {
                text.push(SLASH);
            }
            let part = &self.parts[i];
            let mut k: usize = 0;
            let ghost head = text@;
            while k < part.len()
                invariant
                    k <= part.len(),
                    text@ == head + part@.take(k as int),
                decreases part.len() - k,
            {
                text.push(part[k]);
                assert(text@ =~= head + part@.take(k + 1));
                k += 1;
            }
            proof {
                assert(part@.take(k as int) =~= part@);
                if i == 0 {
                    assert(joined(so_far) =~= Seq::<u8>::empty());
                    assert(joined(next) == part@);
                    assert(text@ =~= anchor_text(self@.anchor) + joined(next));
                } else {
                    assert(joined(next) == joined(so_far) + seq![SLASH] + part@);
                    assert(text@ =~= anchor_text(self@.anchor) + joined(next));
                }
            }
            i += 1;
        }
        assert(self@.parts.take(n as int) =~= self@.parts);
        text
    }
}

} // verus!
