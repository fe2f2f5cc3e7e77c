//! Block segmentation: normalized lines are scanned for `Show`/`Hide`
//! headers, and each header opens a block that owns the lines strictly
//! between it and the next header. Blocks with no interior lines are
//! dropped, and the emitted blocks are numbered densely from 1.

use vstd::prelude::*;
use crate::text::{starts_with, str_eq, str_starts_with};

verus! {

/// The kind of a block: a `Show` or a `Hide` unit.
#[derive(Debug, Clone, Copy, PartialEq, Eq, Structural)]
pub enum BlockName {
    Show,
    Hide,
}

impl BlockName {
    /// The block name written exactly as `"Show"` or `"Hide"`, or nothing.
    pub fn from_str(s: &str) -> (r: Option<BlockName>)
        ensures
            r == (if s@ == "Show"@ {
                Some(BlockName::Show)
            } else if s@ == "Hide"@ {
                Some(BlockName::Hide)
            } else {
                None::<BlockName>
            }),
    {
        if str_eq(s, "Show") {
            Some(BlockName::Show)
        } else if str_eq(s, "Hide") {
            Some(BlockName::Hide)
        } else {
            None
        }
    }
}

/// The block kind a line announces, or nothing. Matching is prefix-based: a
/// line beginning with `Show` or `Hide` counts as a header.
pub open spec fn header_of(l: Seq<char>) -> Option<BlockName> {
    if starts_with(l, "Show"@) {
        Some(BlockName::Show)
    } else if starts_with(l, "Hide"@) {
        Some(BlockName::Hide)
    } else {
        None
    }
}

/// Tests whether a normalized line starts a block.
pub fn is_block_start(line: &str) -> (r: Option<BlockName>)
    ensures
        r == header_of(line@),
{
    if str_starts_with(line, "Show") {
        Some(BlockName::Show)
    } else if str_starts_with(line, "Hide") {
        Some(BlockName::Hide)
    } else {
        None
    }
}

/// An intermediate block record: its kind, its 1-based position among the
/// emitted blocks, and its interior lines with the header excluded.
#[derive(Debug, PartialEq)]
pub struct BlockWithLines {
    /// Position of the block in the file, starting from 1.
    pub order: u16,
    pub name: BlockName,
    pub lines: Vec<String>,
}

/// The mathematical content of one emitted block: its kind and its interior
/// lines.
pub ghost struct SegModel {
    pub name: BlockName,
    pub lines: Seq<Seq<char>>,
}

/// The model of one exec block record.
pub open spec fn seg_of_block(b: BlockWithLines) -> SegModel {
    SegModel { name: b.name, lines: b.lines.deep_view() }
}

/// The models of a sequence of exec block records.
pub open spec fn segs_of_blocks(bs: Seq<BlockWithLines>) -> Seq<SegModel> {
    bs.map_values(|b: BlockWithLines| seg_of_block(b))
}

/// Closes the open block, if any: a block open since line `s` and closed at
/// line `end` (inclusive) owns the lines `s + 1 ..= end`; if that interior
/// is empty, the block is dropped.
pub open spec fn close_seg(
    ls: Seq<Seq<char>>,
    cur: Option<(int, BlockName)>,
    end: int,
    acc: Seq<SegModel>,
) -> Seq<SegModel> {
    match cur {
        None => acc,
        Some((s, nm)) => if end <= s {
            acc
        } else {
            acc.push(SegModel { name: nm, lines: ls.subrange(s + 1, end + 1) })
        },
    }
}

/// One segmentation step at line `i`: a header line first closes the open
/// block at line `i - 1` and then opens a new one; any other line is left to
/// the block that owns it. At the end of input the open block is closed at
/// the last line.
pub open spec fn seg_rec(
    ls: Seq<Seq<char>>,
    i: int,
    cur: Option<(int, BlockName)>,
    acc: Seq<SegModel>,
) -> Seq<SegModel>
    decreases ls.len() - i,
{
    if i >= ls.len() {
        close_seg(ls, cur, ls.len() - 1, acc)
    } else {
        match header_of(ls[i]) {
            None => seg_rec(ls, i + 1, cur, acc),
            Some(nm) => seg_rec(ls, i + 1, Some((i, nm)), close_seg(ls, cur, i - 1, acc)),
        }
    }
}

/// The emitted blocks of a sequence of normalized lines.
pub open spec fn segment_spec(ls: Seq<Seq<char>>) -> Seq<SegModel> {
    seg_rec(ls, 0, None, Seq::empty())
}

/// The spec-level counterpart of an exec `Option<(usize, BlockName)>`.
pub open spec fn opt_start_model(o: Option<(usize, BlockName)>) -> Option<(int, BlockName)> {
    match o {
        None => None,
        Some((s, nm)) => Some((s as int, nm)),
    }
}

/// Closes the current block, if one is open and non-empty, pushing it with
/// the next order index and the interior lines `start + 1 ..= end`.
pub fn try_add_block_if_exists(
    blocks: &mut Vec<BlockWithLines>,
    lines: &[String],
    start: Option<(usize, BlockName)>,
    end: usize,
    order: &mut u16,
)
    requires
        *old(order) < u16::MAX,
        start matches Some((s, _)) ==> s < lines@.len() && end < lines@.len(),
    ensures
        segs_of_blocks(final(blocks)@) == close_seg(
            lines.deep_view(),
            opt_start_model(start),
            end as int,
            segs_of_blocks(old(blocks)@),
        ),
        old(blocks)@.len() <= final(blocks)@.len() <= old(blocks)@.len() + 1,
        forall|k: int| 0 <= k < old(blocks)@.len() ==> final(blocks)@[k] == old(blocks)@[k],
        *final(order) as int == *old(order) + (final(blocks)@.len() - old(blocks)@.len()),
        final(blocks)@.len() == old(blocks)@.len() + 1 ==> final(blocks)@.last().order == *old(
            order,
        ),
{
    let (s, block_name) = match start {
        Some(p) => p,
        None => {
            return ;
        },
    };
    let line_count = if end > s {
        end - s
    } else {
        0
    };
    if line_count == 0 {
        return ;
    }
    let mut ls: Vec<String> = Vec::new();
    proof {
        assert(ls.deep_view() =~= lines.deep_view().subrange(s as int + 1, s as int + 1));
    }
    let mut j: usize = s + 1;
    while j <= end
        invariant
            s + 1 <= j <= end + 1,
            end < lines@.len(),
            ls.deep_view() == lines.deep_view().subrange(s as int + 1, j as int),
        decreases end - j + 1,
    {
        let ghost old_deep = ls.deep_view();
        ls.push(lines[j].clone());
        proof {
            assert(lines.deep_view()[j as int] == lines@[j as int]@);
            assert(ls.deep_view() =~= old_deep.push(lines@[j as int]@));
            assert(old_deep.push(lines.deep_view()[j as int]) =~= lines.deep_view().subrange(
                s as int + 1,
                j as int + 1,
            ));
        }
        j += 1;
    }
    let b = BlockWithLines { order: *order, name: block_name, lines: ls };
    let ghost bsnap = b;
    let ghost old_blocks = blocks@;
    blocks.push(b);
    proof {
        assert(segs_of_blocks(blocks@) =~= segs_of_blocks(old_blocks).push(seg_of_block(bsnap)));
    }
    *order = *order + 1;
}

/// Segments normalized lines into blocks. Every `Show`/`Hide` header opens a
/// block; a block owns the lines strictly between its header and the next
/// header (or the end of input); blocks with no interior lines are dropped;
/// the emitted blocks are numbered 1, 2, 3, ... in order of appearance.
pub fn parse_lines(lines: &[String]) -> (r: Vec<BlockWithLines>)
    requires
        lines@.len() <= u16::MAX,
    ensures
        segs_of_blocks(r@) == segment_spec(lines.deep_view()),
        forall|k: int| 0 <= k < r@.len() ==> (#[trigger] r@[k]).order as int == k + 1,
{
    let mut blocks: Vec<BlockWithLines> = Vec::new();
    let mut current_block_start: Option<(usize, BlockName)> = None;
    let mut order: u16 = 1;
    let n = lines.len();
    let mut i: usize = 0;
    proof {
        assert(segs_of_blocks(blocks@) =~= Seq::<SegModel>::empty());
    }
    while i < n
        invariant
            i <= n,
            n == lines@.len(),
            lines@.len() <= u16::MAX,
            order as int == blocks@.len() + 1,
            seg_rec(
                lines.deep_view(),
                i as int,
                opt_start_model(current_block_start),
                segs_of_blocks(blocks@),
            ) == segment_spec(lines.deep_view()),
            forall|k: int| 0 <= k < blocks@.len() ==> (#[trigger] blocks@[k]).order as int == k + 1,
            match current_block_start {
                Some((s, _)) => s < i && 2 * blocks@.len() <= s,
                None => 2 * blocks@.len() <= i,
            },
        decreases n - i,
    {
        let header = is_block_start(lines[i].as_str());
        proof {
            assert(lines.deep_view()[i as int] == lines@[i as int]@);
        }
        match header {
            None => {},
            Some(block_name) => {
                let ghost old_len = blocks@.len();
                let ghost old_cur = current_block_start;
                let end = if i > 0 {
                    i - 1
                } else {
                    0
                };
                try_add_block_if_exists(&mut blocks, lines, current_block_start, end, &mut order);
                proof {
                    assert(segs_of_blocks(blocks@).len() == blocks@.len());
                    match opt_start_model(old_cur) {
                        None => {
                            assert(blocks@.len() == old_len);
                        },
                        Some((s, _)) => {
                            if end as int > s {
                                assert(s < i as int - 1);
                                assert(blocks@.len() <= old_len + 1);
                            } else {
                                assert(blocks@.len() == old_len);
                            }
                        },
                    }
                    assert(2 * blocks@.len() <= i as int);
                }
                current_block_start = Some((i, block_name));
            },
        }
        i += 1;
    }
    let end = if n > 0 {
        n - 1
    } else {
        0
    };
    try_add_block_if_exists(&mut blocks, lines, current_block_start, end, &mut order);
    blocks
}

/// A well-placed open block: it starts at a header line before `i` and no
/// later line before `i` is a header.
pub open spec fn cur_ok(ls: Seq<Seq<char>>, i: int, cur: Option<(int, BlockName)>) -> bool {
    match cur {
        None => true,
        Some((s, nm)) => {
            &&& 0 <= s < i
            &&& header_of(ls[s]) == Some(nm)
            &&& forall|j: int| s < j < i ==> header_of(#[trigger] ls[j]) is None
        },
    }
}

/// The emitted block `seg` spans `ls[s ..< e]`: line `s` is its header, the
/// next header (or the end of input) stands at `e`, no line strictly between
/// them is a header, and the block owns exactly the lines strictly between.
pub open spec fn span_of_block(ls: Seq<Seq<char>>, seg: SegModel, s: int, e: int) -> bool {
    &&& 0 <= s
    &&& s + 1 < e <= ls.len()
    &&& header_of(ls[s]) == Some(seg.name)
    &&& e == ls.len() || header_of(ls[e]) is Some
    &&& forall|j: int| s < j < e ==> header_of(#[trigger] ls[j]) is None
    &&& seg.lines == ls.subrange(s + 1, e)
}

/// An emitted block that some span of the lines explains.
pub open spec fn block_has_span(ls: Seq<Seq<char>>, seg: SegModel) -> bool {
    exists|s: int, e: int| span_of_block(ls, seg, s, e)
}

proof fn lemma_seg_rec_spans(
    ls: Seq<Seq<char>>,
    i: int,
    cur: Option<(int, BlockName)>,
    acc: Seq<SegModel>,
)
    requires
        0 <= i <= ls.len(),
        cur_ok(ls, i, cur),
        forall|k: int| 0 <= k < acc.len() ==> block_has_span(ls, #[trigger] acc[k]),
    ensures
        forall|k: int|
            0 <= k < seg_rec(ls, i, cur, acc).len() ==> block_has_span(
                ls,
                #[trigger] seg_rec(ls, i, cur, acc)[k],
            ),
    decreases ls.len() - i,
{
    let result = seg_rec(ls, i, cur, acc);
    if i >= ls.len() {
        let acc2 = close_seg(ls, cur, ls.len() - 1, acc);
        assert(result == acc2);
        match cur {
            Some((s, nm)) => {
                if ls.len() - 1 > s {
                    let seg = SegModel { name: nm, lines: ls.subrange(s + 1, ls.len() as int) };
                    assert(span_of_block(ls, seg, s, ls.len() as int));
                    assert(acc2 == acc.push(seg));
                    assert forall|k: int| 0 <= k < result.len() implies block_has_span(
                        ls,
                        #[trigger] result[k],
                    ) by {
                        if k < acc.len() {
                            assert(result[k] == acc[k]);
                        } else {
                            assert(result[k] == seg);
                        }
                    }
                } else {
                    assert forall|k: int| 0 <= k < result.len() implies block_has_span(
                        ls,
                        #[trigger] result[k],
                    ) by {
                        assert(result[k] == acc[k]);
                    }
                }
            },
            None => {
                assert forall|k: int| 0 <= k < result.len() implies block_has_span(
                    ls,
                    #[trigger] result[k],
                ) by {
                    assert(result[k] == acc[k]);
                }
            },
        }
    } else {
        match header_of(ls[i]) {
            None => {
                lemma_seg_rec_spans(ls, i + 1, cur, acc);
                assert(result == seg_rec(ls, i + 1, cur, acc));
                assert forall|k: int| 0 <= k < result.len() implies block_has_span(
                    ls,
                    #[trigger] result[k],
                ) by {
                    assert(result[k] == seg_rec(ls, i + 1, cur, acc)[k]);
                }
            },
            Some(nm) => {
                let acc2 = close_seg(ls, cur, i - 1, acc);
                match cur {
                    Some((s, nm0)) => {
                        if i - 1 > s {
                            let seg = SegModel { name: nm0, lines: ls.subrange(s + 1, i) };
                            assert(span_of_block(ls, seg, s, i));
                            assert(acc2 == acc.push(seg));
                            assert forall|k: int| 0 <= k < acc2.len() implies block_has_span(
                                ls,
                                #[trigger] acc2[k],
                            ) by {
                                if k < acc.len() {
                                    assert(acc2[k] == acc[k]);
                                } else {
                                    assert(acc2[k] == seg);
                                }
                            }
                        }
                    },
                    None => {},
                }
                lemma_seg_rec_spans(ls, i + 1, Some((i, nm)), acc2);
                assert(result == seg_rec(ls, i + 1, Some((i, nm)), acc2));
                assert forall|k: int| 0 <= k < result.len() implies block_has_span(
                    ls,
                    #[trigger] result[k],
                ) by {
                    assert(result[k] == seg_rec(ls, i + 1, Some((i, nm)), acc2)[k]);
                }
            },
        }
    }
}

/// Law: every emitted block owns exactly the lines strictly between its
/// header and the next header, or between its header and the end of input
/// when no header follows.
pub proof fn lemma_block_lines_between_headers(ls: Seq<Seq<char>>)
    ensures
        forall|k: int|
            0 <= k < segment_spec(ls).len() ==> block_has_span(ls, #[trigger] segment_spec(ls)[k]),
{
    lemma_seg_rec_spans(ls, 0, None, Seq::empty());
}

/// Law: a block with no interior rule lines is never emitted.
pub proof fn lemma_no_empty_blocks(ls: Seq<Seq<char>>)
    ensures
        forall|k: int|
            0 <= k < segment_spec(ls).len() ==> (#[trigger] segment_spec(ls)[k]).lines.len() > 0,
{
    lemma_block_lines_between_headers(ls);
    assert forall|k: int| 0 <= k < segment_spec(ls).len() implies (#[trigger] segment_spec(
        ls,
    )[k]).lines.len() > 0 by {
        let (s, e) = choose|s: int, e: int| span_of_block(ls, segment_spec(ls)[k], s, e);
        assert(segment_spec(ls)[k].lines == ls.subrange(s + 1, e));
    }
}

} // verus!
