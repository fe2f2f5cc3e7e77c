//! Comment stripping: a `#` anywhere on a line begins a comment that extends
//! to the end of that line.

use vstd::prelude::*;

verus! {

/// The index of the first occurrence of `c` in `s`, or `s.len()` if `c` does
/// not occur.
pub open spec fn find_first(s: Seq<char>, c: char) -> int
    decreases s.len(),
{
    if s.len() == 0 {
        0
    } else if s[0] == c {
        0
    } else {
        1 + find_first(s.drop_first(), c)
    }
}

/// `s` up to but not including its first `#`; all of `s` if it has none.
pub open spec fn strip_comment(s: Seq<char>) -> Seq<char> {
    s.take(find_first(s, '#'))
}

/// `find_first` is within bounds, points at `c` when `c` occurs, and nothing
/// before it is `c`.
pub proof fn lemma_find_first_props(s: Seq<char>, c: char)
    ensures
        0 <= find_first(s, c) <= s.len(),
        find_first(s, c) < s.len() ==> s[find_first(s, c)] == c,
        forall|j: int| 0 <= j < find_first(s, c) ==> s[j] != c,
    decreases s.len(),
{
    if s.len() == 0 {
    } else if s[0] == c {
    } else {
        lemma_find_first_props(s.drop_first(), c);
        assert(forall|j: int| 0 <= j < find_first(s.drop_first(), c) ==> s.drop_first()[j] != c);
        assert(forall|j: int| 1 <= j < find_first(s, c) ==> s[j] == s.drop_first()[j - 1]);
    }
}

proof fn lemma_find_first_unique(s: Seq<char>, c: char, h: int)
    requires
        0 <= h <= s.len(),
        forall|j: int| 0 <= j < h ==> s[j] != c,
        h == s.len() || s[h] == c,
    ensures
        find_first(s, c) == h,
    decreases h,
{
    if h == 0 {
    } else {
        assert(s[0] != c);
        lemma_find_first_unique(s.drop_first(), c, h - 1);
    }
}

/// `s` contains no `#`.
pub open spec fn no_hash(s: Seq<char>) -> bool {
    forall|m: int| 0 <= m < s.len() ==> s[m] != '#'
}

/// Law: stripping a comment leaves no `#` behind.
pub proof fn lemma_strip_comment_no_hash(l: Seq<char>)
    ensures
        no_hash(strip_comment(l)),
{
    lemma_find_first_props(l, '#');
    assert forall|m: int| 0 <= m < strip_comment(l).len() implies strip_comment(l)[m] != '#' by {
        assert(strip_comment(l)[m] == l[m]);
    }
}

/// Removes the comment from a line: everything from the first `#` on is
/// discarded.
pub fn remove_comment(line: &str) -> (r: String)
    ensures
        r@ == strip_comment(line@),
{
    let n = line.unicode_len();
    let mut h: usize = 0;
    while h < n && line.get_char(h) != '#'
        invariant
            h <= n,
            n == line@.len(),
            forall|j: int| 0 <= j < h ==> line@[j] != '#',
        decreases n - h,
    {
        h += 1;
    }
    proof {
        lemma_find_first_unique(line@, '#', h as int);
    }
    String::from_str(line.substring_char(0, h))
}

} // verus!
