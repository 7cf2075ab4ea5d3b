//! Splitting manifest contents into lines.

use crate::bytes::copy_range;
use crate::bytes::lemma_run_len_unique;
use crate::bytes::run_end;
use crate::bytes::run_len;
use crate::bytes::texts;
use vstd::prelude::*;

verus! {

/// The byte that ends a line.
pub const LINE_FEED: u8 = 10;

/// The byte that may stand before a line feed and then belongs to the line
/// ending.
pub const CARRIAGE_RETURN: u8 = 13;

/// The test that `lines` cuts at.
pub open spec fn is_line_feed() -> spec_fn(u8) -> bool {
    |b: u8| b == LINE_FEED
}

/// `line` without one carriage return at its end.
pub open spec fn without_carriage_return(line: Seq<u8>) -> Seq<u8> {
    if line.len() > 0 && line.last() == CARRIAGE_RETURN {
        line.drop_last()
    } else {
        line
    }
}

/// The lines of `text`.
///
/// A line ends at a line feed, or at a carriage return directly followed by
/// a line feed; the ending is not part of the line. What follows the last
/// line feed is a line too, unless it is empty, and is kept as it stands.
pub open spec fn lines(text: Seq<u8>) -> Seq<Seq<u8>>
    decreases text.len(),
{
    if text.len() == 0 {
        Seq::empty()
    } else {
        let n = run_len(text, is_line_feed());
        if n >= text.len() {
            seq![text]
        } else {
            seq![without_carriage_return(text.take(n as int))] + lines(text.skip(n as int + 1))
        }
    }
}

/// Splits `text` into its lines.
pub fn split_lines(text: &[u8]) -> (out: Vec<Vec<u8>>)
    ensures
        texts(out@) == lines(text@),
{
    let mut out: Vec<Vec<u8>> = Vec::new();
    let mut start: usize = 0;
    assert(text@.skip(0) =~= text@);
    while start < text.len()
        invariant
            start <= text.len(),
            lines(text@) == texts(out@) + lines(text@.skip(start as int)),
        decreases text.len() - start,
    {
        let end = run_end(text, start, LINE_FEED, LINE_FEED);
        let ghost rest = text@.skip(start as int);
        let ghost before = texts(out@);
        proof {
            assert forall|k: int| 0 <= k < end - start implies !is_line_feed()(
                #[trigger] rest[k],
            ) by {
                assert(rest[k] == text@[start + k]);
            }
            lemma_run_len_unique(rest, is_line_feed(), end - start);
        }
        if end == text.len() {
            out.push(copy_range(text, start, end));
            proof {
                assert(text@.subrange(start as int, end as int) =~= rest);
                assert(texts(out@) =~= before + seq![rest]);
                assert(lines(text@.skip(end as int)) =~= Seq::<Seq<u8>>::empty());
            }
            start = end;
        } else {
            let stop: usize = if end > start && text[end - 1] == CARRIAGE_RETURN {
                end - 1
            } else {
                end
            };
            out.push(copy_range(text, start, stop));
            proof {
                let line = rest.take(end - start);
                assert(line =~= text@.subrange(start as int, end as int));
                assert(without_carriage_return(line) =~= text@.subrange(
                    start as int,
                    stop as int,
                ));
                assert(rest.skip(end - start + 1) =~= text@.skip(end + 1));
                assert(texts(out@) =~= before + seq![without_carriage_return(line)]);
                assert(lines(rest) == seq![without_carriage_return(line)] + lines(
                    text@.skip(end + 1),
                ));
                assert(texts(out@) + lines(text@.skip(end + 1)) =~= before + lines(rest));
            }
            start = end + 1;
        }
    }
    proof {
        assert(lines(text@.skip(start as int)) =~= Seq::<Seq<u8>>::empty());
        assert(texts(out@) + Seq::<Seq<u8>>::empty() =~= texts(out@));
    }
    out
}

} // verus!
