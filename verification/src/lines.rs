//! Line normalization: physical lines are stripped of comments, trimmed of
//! ASCII blanks, and dropped when empty.

use vstd::prelude::*;
use crate::remove_comment::{lemma_strip_comment_no_hash, no_hash, remove_comment, strip_comment};
use crate::text::{
    chars_satisfy, lemma_trim_chars, split_lines, split_physical_lines, trim_blanks, trim_spec,
};

verus! {

/// What a single physical line contributes after normalization.
pub open spec fn normalized_of(l: Seq<char>) -> Seq<char> {
    trim_spec(strip_comment(l))
}

/// The normalized lines of a sequence of physical lines, in order, with
/// lines that are empty after stripping and trimming dropped.
pub open spec fn normalize_rec(pls: Seq<Seq<char>>) -> Seq<Seq<char>>
    decreases pls.len(),
{
    if pls.len() == 0 {
        Seq::empty()
    } else {
        let t = normalized_of(pls[0]);
        let rest = normalize_rec(pls.drop_first());
        if t.len() > 0 {
            seq![t] + rest
        } else {
            rest
        }
    }
}

/// The normalized lines of raw content.
pub open spec fn normalize_spec(content: Seq<char>) -> Seq<Seq<char>> {
    normalize_rec(split_lines(content))
}

proof fn lemma_normalize_rec_no_hash(pls: Seq<Seq<char>>)
    ensures
        forall|k: int|
            0 <= k < normalize_rec(pls).len() ==> no_hash(#[trigger] normalize_rec(pls)[k]),
    decreases pls.len(),
{
    if pls.len() > 0 {
        lemma_normalize_rec_no_hash(pls.drop_first());
        let p = |c: char| c != '#';
        let stripped = strip_comment(pls[0]);
        lemma_strip_comment_no_hash(pls[0]);
        assert(chars_satisfy(stripped, p)) by {
            assert forall|m: int| 0 <= m < stripped.len() implies p(#[trigger] stripped[m]) by {
                assert(stripped[m] != '#');
            }
        }
        lemma_trim_chars(stripped, p);
        let t = normalized_of(pls[0]);
        assert(no_hash(t)) by {
            assert forall|m: int| 0 <= m < t.len() implies t[m] != '#' by {
                assert(p(t[m]));
            }
        }
        let result = normalize_rec(pls);
        let rest = normalize_rec(pls.drop_first());
        if t.len() > 0 {
            assert(result == seq![t] + rest);
            assert forall|k: int| 0 <= k < result.len() implies no_hash(#[trigger] result[k]) by {
                if k == 0 {
                    assert(result[0] == t);
                } else {
                    assert(result[k] == rest[k - 1]);
                }
            }
        } else {
            assert(result == rest);
            assert forall|k: int| 0 <= k < result.len() implies no_hash(#[trigger] result[k]) by {
                assert(result[k] == rest[k]);
            }
        }
    }
}

/// Law: a `#` begins a comment, so no normalized line contains a `#` or any
/// of the text that followed one.
pub proof fn lemma_normalized_no_hash(content: Seq<char>)
    ensures
        forall|k: int|
            0 <= k < normalize_spec(content).len() ==> no_hash(#[trigger] normalize_spec(content)[k]),
{
    lemma_normalize_rec_no_hash(split_lines(content));
}

/// Parses the content of a loot filter file into a vector of normalized
/// lines.
pub fn content_to_lines(content: &str) -> (r: Vec<String>)
    ensures
        r.deep_view() == normalize_spec(content@),
        r@.len() <= split_lines(content@).len(),
{
    let physical = split_physical_lines(content);
    let ghost plv = physical.deep_view();
    let mut out: Vec<String> = Vec::new();
    let n = physical.len();
    let mut i: usize = 0;
    proof {
        assert(plv.skip(0) =~= plv);
        assert(out.deep_view() + normalize_rec(plv) =~= normalize_rec(plv));
    }
    while i < n
        invariant
            i <= n,
            n == plv.len(),
            plv == physical.deep_view(),
            n == physical@.len(),
            normalize_spec(content@) == out.deep_view() + normalize_rec(plv.skip(i as int)),
            out@.len() <= i,
        decreases n - i,
    {
        let ghost rest = plv.skip(i as int);
        proof {
            assert(rest[0] == plv[i as int]);
            assert(plv[i as int] == physical@[i as int]@);
            assert(rest.drop_first() =~= plv.skip(i as int + 1));
        }
        let no_comment = remove_comment(physical[i].as_str());
        let trimmed = trim_blanks(no_comment.as_str());
        if trimmed.unicode_len() > 0 {
            let ghost old_deep = out.deep_view();
            out.push(String::from_str(trimmed));
            proof {
                assert(out.deep_view() =~= old_deep.push(normalized_of(rest[0])));
                assert(old_deep.push(normalized_of(rest[0])) =~= old_deep + seq![
                    normalized_of(rest[0]),
                ]);
                vstd::seq_lib::lemma_concat_associative(
                    old_deep,
                    seq![normalized_of(rest[0])],
                    normalize_rec(rest.drop_first()),
                );
            }
        }
        i += 1;
    }
    proof {
        assert(plv.skip(n as int) =~= Seq::<Seq<char>>::empty());
        assert(out.deep_view() + normalize_rec(plv.skip(n as int)) =~= out.deep_view());
    }
    out
}

} // verus!
