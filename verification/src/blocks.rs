//! Block assembly: every interior line of a segmented block is parsed into a
//! rule item, preserving order; the first failing line aborts the parse.

use vstd::prelude::*;
use crate::block_item::{item_matches_line, line_tokens_ok, parse_block_item, BlockItem};
use crate::blocks_with_lines::{BlockName, BlockWithLines};
use crate::errors::ParseError;

verus! {

/// A fully parsed block: its kind, its 1-based position among the emitted
/// blocks, and its parsed rule items.
#[derive(Debug, Clone, PartialEq)]
pub struct Block {
    /// Position of the block in the file, starting from 1.
    pub order: u16,
    pub name: BlockName,
    pub items: Vec<BlockItem>,
}

/// Every interior line of the block record yields at least one token.
pub open spec fn block_lines_ok(b: BlockWithLines) -> bool {
    forall|j: int| 0 <= j < b.lines@.len() ==> line_tokens_ok(#[trigger] b.lines.deep_view()[j])
}

/// Every interior line of every block record yields at least one token.
pub open spec fn all_blocks_ok(bws: Seq<BlockWithLines>) -> bool {
    forall|k: int| 0 <= k < bws.len() ==> block_lines_ok(#[trigger] bws[k])
}

/// The parsed block matches its source record: same order and kind, and one
/// item per interior line holding exactly that line's tokens.
pub open spec fn block_matches(b: Block, src: BlockWithLines) -> bool {
    &&& b.order == src.order
    &&& b.name == src.name
    &&& b.items@.len() == src.lines@.len()
    &&& forall|j: int|
        0 <= j < b.items@.len() ==> item_matches_line(
            #[trigger] b.items@[j],
            src.lines.deep_view()[j],
        )
}

/// Parses segmented blocks into fully parsed blocks by parsing each interior
/// line as a rule item. Succeeds exactly when every line of every block
/// yields at least one token; the first empty line aborts the parse, and no
/// partial result is returned.
pub fn parse_block_with_lines(blocks_with_lines: &[BlockWithLines]) -> (r: Result<
    Vec<Block>,
    ParseError,
>)
    ensures
        r is Ok <==> all_blocks_ok(blocks_with_lines@),
        r matches Ok(blocks) ==> blocks@.len() == blocks_with_lines@.len() && (forall|k: int|
            0 <= k < blocks@.len() ==> block_matches(
                #[trigger] blocks@[k],
                blocks_with_lines@[k],
            )),
        r matches Err(e) ==> e == ParseError::EmptyLine,
{
    let mut blocks: Vec<Block> = Vec::new();
    let n = blocks_with_lines.len();
    let mut k: usize = 0;
    while k < n
        invariant
            k <= n,
            n == blocks_with_lines@.len(),
            blocks@.len() == k,
            forall|t: int|
                0 <= t < k ==> block_matches(#[trigger] blocks@[t], blocks_with_lines@[t]),
            forall|t: int| 0 <= t < k ==> block_lines_ok(#[trigger] blocks_with_lines@[t]),
        decreases n - k,
    {
        let m = blocks_with_lines[k].lines.len();
        let mut items: Vec<BlockItem> = Vec::new();
        let mut j: usize = 0;
        while j < m
            invariant
                j <= m,
                k < n,
                n == blocks_with_lines@.len(),
                m == blocks_with_lines@[k as int].lines@.len(),
                items@.len() == j,
                forall|t: int|
                    0 <= t < j ==> line_tokens_ok(
                        #[trigger] blocks_with_lines@[k as int].lines.deep_view()[t],
                    ),
                forall|t: int|
                    0 <= t < j ==> item_matches_line(
                        #[trigger] items@[t],
                        blocks_with_lines@[k as int].lines.deep_view()[t],
                    ),
            decreases m - j,
        {
            proof {
                assert(blocks_with_lines@[k as int].lines.deep_view()[j as int]
                    == blocks_with_lines@[k as int].lines@[j as int]@);
            }
            match parse_block_item(blocks_with_lines[k].lines[j].as_str()) {
                Ok(item) => {
                    items.push(item);
                },
                Err(e) => {
                    proof {
                        assert(!block_lines_ok(blocks_with_lines@[k as int]));
                        assert(!all_blocks_ok(blocks_with_lines@));
                    }
                    return Err(e);
                },
            }
            j += 1;
        }
        let order = blocks_with_lines[k].order;
        let name = blocks_with_lines[k].name;
        blocks.push(Block { order, name, items });
        k += 1;
    }
    Ok(blocks)
}

} // verus!
