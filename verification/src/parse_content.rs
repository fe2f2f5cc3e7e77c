//! The parsing pipeline on raw content: normalization, segmentation, and
//! block assembly in one call.

use vstd::prelude::*;
use crate::block_item::{item_matches_line, lemma_tokens_chars, line_tokens_ok, tokenize_spec};
use crate::blocks::{all_blocks_ok, block_matches, parse_block_with_lines, Block};
use crate::blocks_with_lines::{
    lemma_block_lines_between_headers, parse_lines, segment_spec, segs_of_blocks, span_of_block,
    SegModel,
};
use crate::errors::ParseError;
use crate::lines::{content_to_lines, lemma_normalized_no_hash, normalize_spec};
use crate::remove_comment::no_hash;
use crate::text::chars_satisfy;

verus! {

/// Every interior line of every emitted block of `content` yields at least
/// one token, so the whole parse succeeds.
pub open spec fn content_ok(content: Seq<char>) -> bool {
    let segs = segment_spec(normalize_spec(content));
    forall|k: int, j: int|
        0 <= k < segs.len() && 0 <= j < segs[k].lines.len() ==> line_tokens_ok(
            #[trigger] segs[k].lines[j],
        )
}

/// The parsed block standing at position `k` matches the emitted segment:
/// order `k + 1`, the segment's kind, and one item per interior line holding
/// exactly that line's tokens.
pub open spec fn block_matches_seg(b: Block, seg: SegModel, k: int) -> bool {
    &&& b.order as int == k + 1
    &&& b.name == seg.name
    &&& b.items@.len() == seg.lines.len()
    &&& forall|j: int|
        0 <= j < b.items@.len() ==> item_matches_line(#[trigger] b.items@[j], seg.lines[j])
}

/// Parses raw filter content into its blocks: lines are normalized, blocks
/// are segmented at `Show`/`Hide` headers, and every interior line becomes a
/// rule item. Succeeds exactly when every interior line yields at least one
/// token; the first empty line aborts the parse.
pub fn parse_content(content: &str) -> (r: Result<Vec<Block>, ParseError>)
    requires
        normalize_spec(content@).len() <= u16::MAX,
    ensures
        r is Ok <==> content_ok(content@),
        r matches Ok(blocks) ==> ({
            let segs = segment_spec(normalize_spec(content@));
            blocks@.len() == segs.len() && (forall|k: int|
                0 <= k < blocks@.len() ==> block_matches_seg(#[trigger] blocks@[k], segs[k], k))
        }),
        r matches Err(e) ==> e == ParseError::EmptyLine,
{
    let lines = content_to_lines(content);
    let slice = lines.as_slice();
    proof {
        assert(slice.deep_view() =~= lines.deep_view());
    }
    let blocks_with_lines = parse_lines(slice);
    let bwl_slice = blocks_with_lines.as_slice();
    let ghost segs = segment_spec(normalize_spec(content@));
    let ghost bwl = blocks_with_lines@;
    proof {
        assert(segs_of_blocks(bwl).len() == bwl.len());
        assert(segs == segs_of_blocks(bwl));
        assert(forall|k: int|
            0 <= k < bwl.len() ==> (#[trigger] segs[k]).name == bwl[k].name && segs[k].lines
                == bwl[k].lines.deep_view());
        assert(all_blocks_ok(bwl) <==> content_ok(content@)) by {
            if all_blocks_ok(bwl) {
                assert(forall|k: int, j: int|
                    0 <= k < segs.len() && 0 <= j < segs[k].lines.len() ==> line_tokens_ok(
                        #[trigger] segs[k].lines[j],
                    )) by {
                    assert forall|k: int, j: int|
                        0 <= k < segs.len() && 0 <= j < segs[k].lines.len() implies line_tokens_ok(
                        #[trigger] segs[k].lines[j],
                    ) by {
                        assert(crate::blocks::block_lines_ok(bwl[k]));
                        assert(segs[k].lines[j] == bwl[k].lines.deep_view()[j]);
                    }
                }
            }
            if content_ok(content@) {
                assert forall|k: int| 0 <= k < bwl.len() implies crate::blocks::block_lines_ok(
                    #[trigger] bwl[k],
                ) by {
                    assert forall|j: int|
                        0 <= j < bwl[k].lines@.len() implies line_tokens_ok(
                        #[trigger] bwl[k].lines.deep_view()[j],
                    ) by {
                        assert(segs[k].lines[j] == bwl[k].lines.deep_view()[j]);
                        assert(line_tokens_ok(segs[k].lines[j]));
                    }
                }
            }
        }
    }
    let r = parse_block_with_lines(bwl_slice);
    proof {
        if r is Ok {
            let blocks = r->Ok_0;
            assert forall|k: int| 0 <= k < blocks@.len() implies block_matches_seg(
                #[trigger] blocks@[k],
                segs[k],
                k,
            ) by {
                assert(block_matches(blocks@[k], bwl[k]));
                assert(bwl[k].order as int == k + 1);
                assert(segs[k].lines == bwl[k].lines.deep_view());
            }
        }
    }
    r
}

/// Law: a `#` and everything after it on its physical line reach no token.
/// Every token of every rule line of every emitted block of `content` is
/// free of `#`, and so is everything that followed a `#`, since tokens only
/// hold characters of their normalized line.
pub proof fn lemma_no_comment_text(content: Seq<char>)
    ensures
        ({
            let segs = segment_spec(normalize_spec(content));
            forall|k: int, j: int, t: int|
                0 <= k < segs.len() && 0 <= j < segs[k].lines.len() && 0 <= t < tokenize_spec(
                    segs[k].lines[j],
                ).len() ==> no_hash(#[trigger] tokenize_spec(segs[k].lines[j])[t])
        }),
{
    let ls = normalize_spec(content);
    let segs = segment_spec(ls);
    let p = |c: char| c != '#';
    lemma_normalized_no_hash(content);
    lemma_block_lines_between_headers(ls);
    assert forall|k: int, j: int, t: int|
        0 <= k < segs.len() && 0 <= j < segs[k].lines.len() && 0 <= t < tokenize_spec(
            segs[k].lines[j],
        ).len() implies no_hash(#[trigger] tokenize_spec(segs[k].lines[j])[t]) by {
        let (s, e) = choose|s: int, e: int| span_of_block(ls, segs[k], s, e);
        assert(segs[k].lines == ls.subrange(s + 1, e));
        let line = segs[k].lines[j];
        assert(line == ls[s + 1 + j]);
        assert(no_hash(line));
        assert(chars_satisfy(line, p)) by {
            assert forall|m: int| 0 <= m < line.len() implies p(#[trigger] line[m]) by {
                assert(line[m] != '#');
            }
        }
        lemma_tokens_chars(line, p);
        let toks = tokenize_spec(line);
        assert(no_hash(toks[t])) by {
            assert forall|m: int| 0 <= m < toks[t].len() implies toks[t][m] != '#' by {
                assert(p(toks[t][m]));
            }
        }
    }
}

} // verus!
