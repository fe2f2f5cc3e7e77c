//! Rule-line tokenization and item construction.
//!
//! A rule line is split into tokens on ASCII spaces; a double-quoted stretch
//! forms a single token that may contain spaces. The first token is the rule
//! name, the remaining tokens are its parameters.

use vstd::prelude::*;
use crate::errors::ParseError;
use crate::text::chars_satisfy;

verus! {

/// One step of the tokenizer state machine. `in_quotes` tells whether the
/// scan is inside a double-quoted stretch, `cur` is the token being built,
/// `acc` the tokens already emitted.
///
/// A `'"'` toggles the quote state and is never part of a token; leaving a
/// quoted stretch emits the current token if it is non-empty. A space outside
/// quotes ends the current token; inside quotes it is kept. Every other
/// character is appended. Whatever remains at the end of input is emitted as
/// a final token, so an unterminated quote is tolerated.
pub open spec fn tok_rec(
    s: Seq<char>,
    in_quotes: bool,
    cur: Seq<char>,
    acc: Seq<Seq<char>>,
) -> Seq<Seq<char>>
    decreases s.len(),
{
    if s.len() == 0 {
        if cur.len() > 0 {
            acc.push(cur)
        } else {
            acc
        }
    } else {
        let c = s[0];
        let rest = s.drop_first();
        if c == '"' {
            if in_quotes {
                if cur.len() > 0 {
                    tok_rec(rest, false, Seq::empty(), acc.push(cur))
                } else {
                    tok_rec(rest, false, cur, acc)
                }
            } else {
                tok_rec(rest, true, cur, acc)
            }
        } else if c == ' ' && !in_quotes {
            if cur.len() > 0 {
                tok_rec(rest, false, Seq::empty(), acc.push(cur))
            } else {
                tok_rec(rest, false, cur, acc)
            }
        } else {
            tok_rec(rest, in_quotes, cur.push(c), acc)
        }
    }
}

/// The tokens of a rule line.
pub open spec fn tokenize_spec(s: Seq<char>) -> Seq<Seq<char>> {
    tok_rec(s, false, Seq::empty(), Seq::empty())
}

/// A line yields at least one token.
pub open spec fn line_tokens_ok(l: Seq<char>) -> bool {
    tokenize_spec(l).len() > 0
}

/// Tokenizes a line into parts, splitting on spaces but keeping a
/// double-quoted stretch together as one token.
pub fn tokenize_line(s: &str) -> (r: Vec<String>)
    ensures
        r.deep_view() == tokenize_spec(s@),
{
    let n = s.unicode_len();
    let mut tokens: Vec<String> = Vec::new();
    let mut current = String::new();
    let mut in_quotes = false;
    let mut i: usize = 0;
    proof {
        assert(tokens.deep_view() =~= Seq::<Seq<char>>::empty());
        assert(s@.skip(0) =~= s@);
    }
    while i < n
        invariant
            i <= n,
            n == s@.len(),
            tokenize_spec(s@) == tok_rec(
                s@.skip(i as int),
                in_quotes,
                current@,
                tokens.deep_view(),
            ),
        decreases n - i,
    {
        let ghost rest = s@.skip(i as int);
        proof {
            assert(rest[0] == s@[i as int]);
            assert(rest.drop_first() =~= s@.skip(i as int + 1));
        }
        let c = s.get_char(i);
        if c == '"' {
            if in_quotes {
                in_quotes = false;
                if current.as_str().unicode_len() > 0 {
                    let ghost old_deep = tokens.deep_view();
                    let ghost cur_view = current@;
                    tokens.push(current);
                    current = String::new();
                    proof {
                        assert(tokens.deep_view() =~= old_deep.push(cur_view));
                    }
                }
            } else {
                in_quotes = true;
            }
        } else if c == ' ' && !in_quotes {
            if current.as_str().unicode_len() > 0 {
                let ghost old_deep = tokens.deep_view();
                let ghost cur_view = current@;
                tokens.push(current);
                current = String::new();
                proof {
                    assert(tokens.deep_view() =~= old_deep.push(cur_view));
                }
            }
        } else {
            current.push(c);
        }
        i += 1;
    }
    proof {
        assert(s@.skip(n as int) =~= Seq::<char>::empty());
    }
    if current.as_str().unicode_len() > 0 {
        let ghost old_deep = tokens.deep_view();
        let ghost cur_view = current@;
        tokens.push(current);
        proof {
            assert(tokens.deep_view() =~= old_deep.push(cur_view));
        }
    }
    tokens
}

/// A single rule line of a block: the rule name and its parameter tokens.
#[derive(Debug, PartialEq, Eq, Clone)]
pub struct BlockItem {
    pub name: String,
    pub params: Vec<String>,
}

/// `item` holds exactly the tokens of `l`: the first as its name, the rest
/// as its parameters.
pub open spec fn item_matches_line(item: BlockItem, l: Seq<char>) -> bool {
    &&& item.name@ == tokenize_spec(l)[0]
    &&& item.params.deep_view() == tokenize_spec(l).drop_first()
}

/// Parses a rule line into a `BlockItem`: the first token becomes the name,
/// the remaining tokens the parameters. A line with no tokens is rejected.
pub fn parse_block_item(line: &str) -> (r: Result<BlockItem, ParseError>)
    ensures
        r is Ok <==> line_tokens_ok(line@),
        r matches Ok(item) ==> item_matches_line(item, line@),
        r matches Err(e) ==> e == ParseError::EmptyLine,
{
    let mut tokens = tokenize_line(line);
    if tokens.len() == 0 {
        Err(ParseError::EmptyLine)
    } else {
        let ghost old_deep = tokens.deep_view();
        let name = tokens.remove(0);
        proof {
            assert(tokens.deep_view() =~= old_deep.drop_first());
        }
        Ok(BlockItem { name, params: tokens })
    }
}

/// A bareword: a non-empty token with no space and no quote in it.
pub open spec fn bareword(w: Seq<char>) -> bool {
    w.len() > 0 && forall|m: int| 0 <= m < w.len() ==> w[m] != ' ' && w[m] != '"'
}

/// The words joined with single spaces.
pub open spec fn join_tokens(ws: Seq<Seq<char>>) -> Seq<char>
    decreases ws.len(),
{
    if ws.len() == 0 {
        Seq::empty()
    } else if ws.len() == 1 {
        ws[0]
    } else {
        ws[0] + seq![' '] + join_tokens(ws.drop_first())
    }
}

/// Scanning a bareword outside quotes appends it to the current token.
proof fn lemma_tok_bareword(w: Seq<char>, rest: Seq<char>, cur: Seq<char>, acc: Seq<Seq<char>>)
    requires
        forall|m: int| 0 <= m < w.len() ==> w[m] != ' ' && w[m] != '"',
    ensures
        tok_rec(w + rest, false, cur, acc) == tok_rec(rest, false, cur + w, acc),
    decreases w.len(),
{
    if w.len() == 0 {
        assert(w + rest =~= rest);
        assert(cur + w =~= cur);
    } else {
        let s = w + rest;
        assert(s[0] == w[0]);
        assert(s.drop_first() =~= w.drop_first() + rest);
        lemma_tok_bareword(w.drop_first(), rest, cur.push(w[0]), acc);
        assert(cur.push(w[0]) + w.drop_first() =~= cur + w);
    }
}

/// Scanning quote-free characters inside quotes appends them to the current
/// token, spaces included.
proof fn lemma_tok_quoted_chars(t: Seq<char>, rest: Seq<char>, cur: Seq<char>, acc: Seq<Seq<char>>)
    requires
        forall|m: int| 0 <= m < t.len() ==> t[m] != '"',
    ensures
        tok_rec(t + rest, true, cur, acc) == tok_rec(rest, true, cur + t, acc),
    decreases t.len(),
{
    if t.len() == 0 {
        assert(t + rest =~= rest);
        assert(cur + t =~= cur);
    } else {
        let s = t + rest;
        assert(s[0] == t[0]);
        assert(s.drop_first() =~= t.drop_first() + rest);
        lemma_tok_quoted_chars(t.drop_first(), rest, cur.push(t[0]), acc);
        assert(cur.push(t[0]) + t.drop_first() =~= cur + t);
    }
}

proof fn lemma_tok_join_rec(ws: Seq<Seq<char>>, acc: Seq<Seq<char>>)
    requires
        forall|k: int| 0 <= k < ws.len() ==> bareword(#[trigger] ws[k]),
    ensures
        tok_rec(join_tokens(ws), false, Seq::empty(), acc) == acc + ws,
    decreases ws.len(),
{
    if ws.len() == 0 {
        assert(acc + ws =~= acc);
    } else if ws.len() == 1 {
        let w = ws[0];
        assert(bareword(w));
        assert(join_tokens(ws) =~= w + Seq::<char>::empty());
        lemma_tok_bareword(w, Seq::empty(), Seq::empty(), acc);
        assert(Seq::empty() + w =~= w);
        assert(tok_rec(Seq::empty(), false, w, acc) == acc.push(w));
        assert(acc.push(w) =~= acc + ws);
    } else {
        let w = ws[0];
        assert(bareword(w));
        let tail = join_tokens(ws.drop_first());
        let rest = seq![' '] + tail;
        assert(join_tokens(ws) == w + seq![' '] + tail);
        assert(w + seq![' '] + tail =~= w + rest);
        lemma_tok_bareword(w, rest, Seq::empty(), acc);
        assert(Seq::empty() + w =~= w);
        assert(rest[0] == ' ');
        assert(rest.drop_first() =~= tail);
        assert(tok_rec(rest, false, w, acc) == tok_rec(tail, false, Seq::empty(), acc.push(w)));
        lemma_tok_join_rec(ws.drop_first(), acc.push(w));
        assert(acc.push(w) + ws.drop_first() =~= acc + ws);
    }
}

/// Law: tokenization is a right-inverse of joining for quote-free input. A
/// line formed by joining non-empty, space-free, quote-free words with
/// single spaces tokenizes back to exactly those words.
pub proof fn lemma_tokenize_join(ws: Seq<Seq<char>>)
    requires
        forall|k: int| 0 <= k < ws.len() ==> bareword(#[trigger] ws[k]),
    ensures
        tokenize_spec(join_tokens(ws)) == ws,
{
    lemma_tok_join_rec(ws, Seq::empty());
    assert(Seq::<Seq<char>>::empty() + ws =~= ws);
}

/// A quoted stretch at the end of the line adds exactly one token.
proof fn lemma_tok_quoted(t: Seq<char>, acc: Seq<Seq<char>>)
    requires
        t.len() > 0,
        forall|m: int| 0 <= m < t.len() ==> t[m] != '"',
    ensures
        tok_rec(seq!['"'] + t + seq!['"'], false, Seq::empty(), acc) == acc.push(t),
{
    let s = seq!['"'] + t + seq!['"'];
    assert(s[0] == '"');
    assert(s.drop_first() =~= t + seq!['"']);
    lemma_tok_quoted_chars(t, seq!['"'], Seq::empty(), acc);
    assert(Seq::empty() + t =~= t);
    let closing = seq!['"'];
    assert(closing[0] == '"');
    assert(closing.drop_first() =~= Seq::<char>::empty());
    assert(tok_rec(closing, true, t, acc) == tok_rec(
        Seq::empty(),
        false,
        Seq::empty(),
        acc.push(t),
    ));
}

/// Law: a double-quoted stretch is one token. A quote-free, non-empty text
/// wrapped in double quotes tokenizes to that single token, without the
/// quotes and with any interior spaces preserved.
pub proof fn lemma_tokenize_quoted(t: Seq<char>)
    requires
        t.len() > 0,
        forall|m: int| 0 <= m < t.len() ==> t[m] != '"',
    ensures
        tokenize_spec(seq!['"'] + t + seq!['"']) == seq![t],
{
    lemma_tok_quoted(t, Seq::empty());
    assert(Seq::<Seq<char>>::empty().push(t) =~= seq![t]);
}

/// Scanning the joined words followed by one space hands the words over as
/// emitted tokens and leaves the rest of the line to scan.
proof fn lemma_tok_words(ws: Seq<Seq<char>>, rest: Seq<char>, acc: Seq<Seq<char>>)
    requires
        forall|k: int| 0 <= k < ws.len() ==> bareword(#[trigger] ws[k]),
    ensures
        tok_rec(join_tokens(ws) + seq![' '] + rest, false, Seq::empty(), acc) == tok_rec(
            rest,
            false,
            Seq::empty(),
            acc + ws,
        ),
    decreases ws.len(),
{
    if ws.len() == 0 {
        let s = join_tokens(ws) + seq![' '] + rest;
        assert(s[0] == ' ');
        assert(s.drop_first() =~= rest);
        assert(acc + ws =~= acc);
    } else if ws.len() == 1 {
        let w = ws[0];
        assert(bareword(w));
        let s = join_tokens(ws) + seq![' '] + rest;
        assert(s =~= w + (seq![' '] + rest));
        lemma_tok_bareword(w, seq![' '] + rest, Seq::empty(), acc);
        assert(Seq::empty() + w =~= w);
        let after = seq![' '] + rest;
        assert(after[0] == ' ');
        assert(after.drop_first() =~= rest);
        assert(tok_rec(after, false, w, acc) == tok_rec(rest, false, Seq::empty(), acc.push(w)));
        assert(acc.push(w) =~= acc + ws);
    } else {
        let w = ws[0];
        assert(bareword(w));
        let tail = join_tokens(ws.drop_first());
        assert(join_tokens(ws) == w + seq![' '] + tail);
        let s = join_tokens(ws) + seq![' '] + rest;
        assert(s =~= w + (seq![' '] + (tail + seq![' '] + rest)));
        lemma_tok_bareword(w, seq![' '] + (tail + seq![' '] + rest), Seq::empty(), acc);
        assert(Seq::empty() + w =~= w);
        let after = seq![' '] + (tail + seq![' '] + rest);
        assert(after[0] == ' ');
        assert(after.drop_first() =~= tail + seq![' '] + rest);
        assert(tok_rec(after, false, w, acc) == tok_rec(
            tail + seq![' '] + rest,
            false,
            Seq::empty(),
            acc.push(w),
        ));
        lemma_tok_words(ws.drop_first(), rest, acc.push(w));
        assert(acc.push(w) + ws.drop_first() =~= acc + ws);
    }
}

/// Law: a quoted token appears in output in place. A line of barewords
/// followed by a space and a quote-free, non-empty text in double quotes
/// tokenizes to those words followed by that text as one final token,
/// without the quotes and with its interior spaces preserved.
pub proof fn lemma_tokenize_quoted_in_context(ws: Seq<Seq<char>>, t: Seq<char>)
    requires
        forall|k: int| 0 <= k < ws.len() ==> bareword(#[trigger] ws[k]),
        t.len() > 0,
        forall|m: int| 0 <= m < t.len() ==> t[m] != '"',
    ensures
        tokenize_spec(join_tokens(ws) + seq![' '] + (seq!['"'] + t + seq!['"'])) == ws.push(t),
{
    let quoted = seq!['"'] + t + seq!['"'];
    lemma_tok_words(ws, quoted, Seq::empty());
    lemma_tok_quoted(t, Seq::empty() + ws);
    assert((Seq::<Seq<char>>::empty() + ws).push(t) =~= ws.push(t));
}

/// Every character of every token in `ts` satisfies `p`.
pub open spec fn tokens_satisfy(ts: Seq<Seq<char>>, p: spec_fn(char) -> bool) -> bool {
    forall|k: int, m: int| 0 <= k < ts.len() && 0 <= m < ts[k].len() ==> p(#[trigger] ts[k][m])
}

/// A property holding of every character of the input, the current token,
/// and the already emitted tokens holds of every character of every final
/// token: the tokenizer invents no characters.
proof fn lemma_tok_rec_chars(
    s: Seq<char>,
    in_quotes: bool,
    cur: Seq<char>,
    acc: Seq<Seq<char>>,
    p: spec_fn(char) -> bool,
)
    requires
        chars_satisfy(s, p),
        chars_satisfy(cur, p),
        tokens_satisfy(acc, p),
    ensures
        tokens_satisfy(tok_rec(s, in_quotes, cur, acc), p),
    decreases s.len(),
{
    let result = tok_rec(s, in_quotes, cur, acc);
    let emit = acc.push(cur);
    assert forall|k: int, m: int|
        0 <= k < emit.len() && 0 <= m < emit[k].len() implies p(#[trigger] emit[k][m]) by {
        if k < acc.len() {
            assert(emit[k] == acc[k]);
            assert(p(acc[k][m]));
        } else {
            assert(emit[k] == cur);
            assert(p(cur[m]));
        }
    }
    assert(tokens_satisfy(emit, p));
    if s.len() == 0 {
        if cur.len() > 0 {
            assert(result == emit);
        } else {
            assert(result == acc);
        }
    } else {
        let c = s[0];
        let rest = s.drop_first();
        assert(chars_satisfy(rest, p)) by {
            assert forall|m: int| 0 <= m < rest.len() implies p(#[trigger] rest[m]) by {
                assert(rest[m] == s[m + 1]);
            }
        }
        if c == '"' {
            if in_quotes {
                if cur.len() > 0 {
                    lemma_tok_rec_chars(rest, false, Seq::empty(), emit, p);
                } else {
                    lemma_tok_rec_chars(rest, false, cur, acc, p);
                }
            } else {
                lemma_tok_rec_chars(rest, true, cur, acc, p);
            }
        } else if c == ' ' && !in_quotes {
            if cur.len() > 0 {
                lemma_tok_rec_chars(rest, false, Seq::empty(), emit, p);
            } else {
                lemma_tok_rec_chars(rest, false, cur, acc, p);
            }
        } else {
            assert(chars_satisfy(cur.push(c), p)) by {
                assert forall|m: int| 0 <= m < cur.push(c).len() implies p(
                    #[trigger] cur.push(c)[m],
                ) by {
                    if m < cur.len() {
                        assert(cur.push(c)[m] == cur[m]);
                    } else {
                        assert(cur.push(c)[m] == c);
                        assert(c == s[0]);
                    }
                }
            }
            lemma_tok_rec_chars(rest, in_quotes, cur.push(c), acc, p);
        }
    }
}

/// Law: the tokenizer invents no characters. A property holding of every
/// character of a line holds of every character of every token of the line.
pub proof fn lemma_tokens_chars(l: Seq<char>, p: spec_fn(char) -> bool)
    requires
        chars_satisfy(l, p),
    ensures
        tokens_satisfy(tokenize_spec(l), p),
{
    lemma_tok_rec_chars(l, false, Seq::empty(), Seq::empty(), p);
    assert(tokens_satisfy(Seq::<Seq<char>>::empty(), p));
}

} // verus!
