//! Character-level text utilities shared by the parsing pipeline: prefix
//! tests, ASCII-blank trimming, and splitting content into physical lines.

use vstd::prelude::*;

verus! {

/// Relies on `String::push`: appends the given character to the end of the
/// string.
pub assume_specification[ String::push ](s: &mut String, ch: char)
    ensures
        final(s)@ == old(s)@.push(ch),
;

/// A blank character for the purposes of line trimming: ASCII space or tab.
pub open spec fn is_blank(c: char) -> bool {
    c == ' ' || c == '\t'
}

/// `p` is a prefix of `s`.
pub open spec fn starts_with(s: Seq<char>, p: Seq<char>) -> bool {
    p.len() <= s.len() && s.subrange(0, p.len() as int) == p
}

/// Character-by-character prefix test.
pub fn str_starts_with(s: &str, p: &str) -> (r: bool)
    ensures
        r == starts_with(s@, p@),
{
    let n = s.unicode_len();
    let m = p.unicode_len();
    if m > n {
        return false;
    }
    let mut i: usize = 0;
    while i < m
        invariant
            i <= m,
            m <= n,
            n == s@.len(),
            m == p@.len(),
            forall|j: int| 0 <= j < i ==> s@[j] == p@[j],
        decreases m - i,
    {
        if s.get_char(i) != p.get_char(i) {
            assert(starts_with(s@, p@) ==> s@.subrange(0, p@.len() as int)[i as int] == p@[i as int]);
            return false;
        }
        i += 1;
    }
    assert(s@.subrange(0, m as int) =~= p@);
    true
}

/// Character-by-character string equality test.
pub fn str_eq(s: &str, t: &str) -> (r: bool)
    ensures
        r == (s@ == t@),
{
    let n = s.unicode_len();
    if n != t.unicode_len() {
        return false;
    }
    let r = str_starts_with(s, t);
    proof {
        assert(s@.subrange(0, n as int) =~= s@);
    }
    r
}

/// Every character of `t` satisfies `p`.
pub open spec fn chars_satisfy(t: Seq<char>, p: spec_fn(char) -> bool) -> bool {
    forall|m: int| 0 <= m < t.len() ==> p(#[trigger] t[m])
}

/// `s` with its leading blanks removed.
pub open spec fn trim_start_rec(s: Seq<char>) -> Seq<char>
    decreases s.len(),
{
    if s.len() > 0 && is_blank(s[0]) {
        trim_start_rec(s.drop_first())
    } else {
        s
    }
}

/// `s` with its trailing blanks removed.
pub open spec fn trim_end_rec(s: Seq<char>) -> Seq<char>
    decreases s.len(),
{
    if s.len() > 0 && is_blank(s[s.len() - 1]) {
        trim_end_rec(s.drop_last())
    } else {
        s
    }
}

/// `s` with ASCII blanks (space and tab) removed from both ends.
pub open spec fn trim_spec(s: Seq<char>) -> Seq<char> {
    trim_end_rec(trim_start_rec(s))
}

proof fn lemma_trim_start_skip(s: Seq<char>, a: int)
    requires
        0 <= a <= s.len(),
        forall|j: int| 0 <= j < a ==> is_blank(s[j]),
        a == s.len() || !is_blank(s[a]),
    ensures
        trim_start_rec(s) == s.skip(a),
    decreases a,
{
    if a == 0 {
        assert(s.skip(0) =~= s);
    } else {
        assert(is_blank(s[0]));
        lemma_trim_start_skip(s.drop_first(), a - 1);
        assert(s.drop_first().skip(a - 1) =~= s.skip(a));
    }
}

proof fn lemma_trim_end_take(s: Seq<char>, b: int)
    requires
        0 <= b <= s.len(),
        forall|j: int| b <= j < s.len() ==> is_blank(s[j]),
        b == 0 || !is_blank(s[b - 1]),
    ensures
        trim_end_rec(s) == s.take(b),
    decreases s.len() - b,
{
    if b == s.len() {
        assert(s.take(b) =~= s);
    } else {
        assert(is_blank(s[s.len() - 1]));
        lemma_trim_end_take(s.drop_last(), b);
        assert(s.drop_last().take(b) =~= s.take(b));
    }
}

proof fn lemma_trim_start_chars(s: Seq<char>, p: spec_fn(char) -> bool)
    requires
        chars_satisfy(s, p),
    ensures
        chars_satisfy(trim_start_rec(s), p),
    decreases s.len(),
{
    if s.len() > 0 && is_blank(s[0]) {
        assert(chars_satisfy(s.drop_first(), p)) by {
            assert forall|m: int| 0 <= m < s.drop_first().len() implies p(
                #[trigger] s.drop_first()[m],
            ) by {
                assert(s.drop_first()[m] == s[m + 1]);
            }
        }
        lemma_trim_start_chars(s.drop_first(), p);
    }
}

proof fn lemma_trim_end_chars(s: Seq<char>, p: spec_fn(char) -> bool)
    requires
        chars_satisfy(s, p),
    ensures
        chars_satisfy(trim_end_rec(s), p),
    decreases s.len(),
{
    if s.len() > 0 && is_blank(s[s.len() - 1]) {
        assert(chars_satisfy(s.drop_last(), p)) by {
            assert forall|m: int| 0 <= m < s.drop_last().len() implies p(
                #[trigger] s.drop_last()[m],
            ) by {
                assert(s.drop_last()[m] == s[m]);
            }
        }
        lemma_trim_end_chars(s.drop_last(), p);
    }
}

/// Law: trimming invents no characters. A property holding of every
/// character of a line holds of every character of its trimmed form.
pub proof fn lemma_trim_chars(s: Seq<char>, p: spec_fn(char) -> bool)
    requires
        chars_satisfy(s, p),
    ensures
        chars_satisfy(trim_spec(s), p),
{
    lemma_trim_start_chars(s, p);
    lemma_trim_end_chars(trim_start_rec(s), p);
}

/// ASCII blanks trimmed from both ends, as a borrowed substring.
pub fn trim_blanks(s: &str) -> (r: &str)
    ensures
        r@ == trim_spec(s@),
{
    let n = s.unicode_len();
    let mut a: usize = 0;
    while a < n && (s.get_char(a) == ' ' || s.get_char(a) == '\t')
        invariant
            a <= n,
            n == s@.len(),
            forall|j: int| 0 <= j < a ==> is_blank(s@[j]),
        decreases n - a,
    {
        a += 1;
    }
    let mut b: usize = n;
    while b > a && (s.get_char(b - 1) == ' ' || s.get_char(b - 1) == '\t')
        invariant
            a <= b <= n,
            n == s@.len(),
            a == n || !is_blank(s@[a as int]),
            forall|j: int| 0 <= j < a ==> is_blank(s@[j]),
            forall|j: int| b <= j < n ==> is_blank(s@[j]),
        decreases b,
    {
        b -= 1;
    }
    proof {
        lemma_trim_start_skip(s@, a as int);
        let t = s@.skip(a as int);
        assert(forall|j: int| b - a <= j < t.len() ==> is_blank(#[trigger] t[j]));
        if b > a {
            assert(!is_blank(t[b - a - 1]));
        }
        lemma_trim_end_take(t, b - a);
        assert(t.take(b - a) =~= s@.subrange(a as int, b as int));
    }
    s.substring_char(a, b)
}

/// One splitting step: `cur` is the line being accumulated, `acc` the lines
/// already complete. A `'\n'` ends the current line; a `'\r'` directly before
/// a `'\n'` is dropped; a line still open at the end of the content is kept
/// only if it is non-empty, so content ending in `'\n'` yields no final empty
/// line.
pub open spec fn split_rec(s: Seq<char>, cur: Seq<char>, acc: Seq<Seq<char>>) -> Seq<Seq<char>>
    decreases s.len(),
{
    if s.len() == 0 {
        if cur.len() > 0 {
            acc.push(cur)
        } else {
            acc
        }
    } else if s[0] == '\n' {
        split_rec(s.drop_first(), Seq::empty(), acc.push(cur))
    } else if s[0] == '\r' && s.len() >= 2 && s[1] == '\n' {
        split_rec(s.drop_first(), cur, acc)
    } else {
        split_rec(s.drop_first(), cur.push(s[0]), acc)
    }
}

/// The physical lines of `s`.
pub open spec fn split_lines(s: Seq<char>) -> Seq<Seq<char>> {
    split_rec(s, Seq::empty(), Seq::empty())
}

/// Splits content into its physical lines, one owned string per line.
pub fn split_physical_lines(content: &str) -> (r: Vec<String>)
    ensures
        r.deep_view() == split_lines(content@),
{
    let n = content.unicode_len();
    let mut out: Vec<String> = Vec::new();
    let mut cur = String::new();
    let mut i: usize = 0;
    proof {
        assert(out.deep_view() =~= Seq::<Seq<char>>::empty());
        assert(content@.skip(0) =~= content@);
    }
    while i < n
        invariant
            i <= n,
            n == content@.len(),
            split_lines(content@) == split_rec(content@.skip(i as int), cur@, out.deep_view()),
        decreases n - i,
    {
        let ghost rest = content@.skip(i as int);
        proof {
            assert(rest[0] == content@[i as int]);
            assert(rest.drop_first() =~= content@.skip(i as int + 1));
            if i + 1 < n {
                assert(rest[1] == content@[i as int + 1]);
            }
        }
        let c = content.get_char(i);
        if c == '\n' {
            let ghost old_deep = out.deep_view();
            let ghost cur_view = cur@;
            out.push(cur);
            cur = String::new();
            proof {
                assert(out.deep_view() =~= old_deep.push(cur_view));
            }
        } else if c == '\r' && i + 1 < n && content.get_char(i + 1) == '\n' {
            // dropped together with the '\n' that follows it
        } else {
            cur.push(c);
        }
        i += 1;
    }
    proof {
        assert(content@.skip(n as int) =~= Seq::<char>::empty());
    }
    if cur.as_str().unicode_len() > 0 {
        let ghost old_deep = out.deep_view();
        let ghost cur_view = cur@;
        out.push(cur);
        proof {
            assert(out.deep_view() =~= old_deep.push(cur_view));
        }
    }
    out
}

/// The lines `ls[lo], ..., ls[hi - 1]` joined with single `'\n'` characters.
pub open spec fn join_lines(ls: Seq<Seq<char>>, lo: int, hi: int) -> Seq<char>
    decreases hi - lo,
{
    if lo >= hi {
        Seq::empty()
    } else if lo + 1 == hi {
        ls[lo]
    } else {
        ls[lo] + seq!['\n'] + join_lines(ls, lo + 1, hi)
    }
}

proof fn lemma_join_lines_snoc(ls: Seq<Seq<char>>, lo: int, k: int)
    requires
        lo < k,
    ensures
        join_lines(ls, lo, k + 1) == join_lines(ls, lo, k) + seq!['\n'] + ls[k],
    decreases k - lo,
{
    if lo + 1 == k {
        assert(join_lines(ls, lo + 1, k + 1) == ls[k]);
        assert(join_lines(ls, lo, k + 1) == ls[lo] + seq!['\n'] + ls[k]);
        assert(join_lines(ls, lo, k) == ls[lo]);
    } else {
        lemma_join_lines_snoc(ls, lo + 1, k);
        let head = ls[lo] + seq!['\n'];
        let mid = join_lines(ls, lo + 1, k);
        vstd::seq_lib::lemma_concat_associative(head, mid + seq!['\n'], ls[k]);
        assert(join_lines(ls, lo, k + 1) == head + (mid + seq!['\n'] + ls[k]));
        assert((head + (mid + seq!['\n'])) + ls[k] =~= ((head + mid) + seq!['\n']) + ls[k]);
    }
}

/// Joins the lines `lines[lo ..= hi]` with `'\n'`.
pub fn join_range(lines: &[String], lo: usize, hi: usize) -> (r: String)
    requires
        lo <= hi < lines@.len(),
    ensures
        r@ == join_lines(lines.deep_view(), lo as int, hi as int + 1),
{
    let mut text = String::from_str(lines[lo].as_str());
    proof {
        assert(lines.deep_view()[lo as int] == lines@[lo as int]@);
    }
    let mut k = lo + 1;
    while k <= hi
        invariant
            lo < k <= hi + 1,
            hi < lines@.len(),
            text@ == join_lines(lines.deep_view(), lo as int, k as int),
        decreases hi - k + 1,
    {
        text.append("\n");
        text.append(lines[k].as_str());
        proof {
            reveal_strlit("\n");
            assert(("\n")@ =~= seq!['\n']);
            assert(lines.deep_view()[k as int] == lines@[k as int]@);
            lemma_join_lines_snoc(lines.deep_view(), lo as int, k as int);
        }
        k += 1;
    }
    text
}

} // verus!
