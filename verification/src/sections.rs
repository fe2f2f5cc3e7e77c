//! Section splitting over physical lines: every line whose trimmed text
//! starts with `Show` or `Hide` opens a section, which runs to the line
//! before the next header (or the end of the file) and keeps its original
//! text.

use vstd::prelude::*;
use crate::errors::ParseError;
use crate::text::{
    join_lines, join_range, split_lines, split_physical_lines, starts_with, str_starts_with,
    trim_blanks, trim_spec,
};

verus! {

/// The position of a section in the file, as inclusive physical line
/// indices.
#[derive(Debug, PartialEq, Eq, Structural)]
pub struct SectionPosition {
    pub start_line: usize,
    pub end_line: usize,
}

/// One section of a filter file: whether its header is a `Show`, its line
/// span, and its original text.
#[derive(Debug, PartialEq)]
pub struct Section {
    pub is_show: bool,
    pub position: SectionPosition,
    pub text: String,
}

/// A physical line opens a section when its trimmed text starts with `Show`
/// or `Hide`.
pub open spec fn phys_header(l: Seq<char>) -> bool {
    starts_with(trim_spec(l), "Show"@) || starts_with(trim_spec(l), "Hide"@)
}

/// Closes the open section, if any, at line `end` (inclusive).
pub open spec fn sec_close(cur: Option<int>, end: int, acc: Seq<(int, int)>) -> Seq<(int, int)> {
    match cur {
        None => acc,
        Some(s) => acc.push((s, end)),
    }
}

/// One scanning step at line `i`: a header line closes the open section at
/// line `i - 1` and opens a new one there; at the end of input the open
/// section is closed at the last line.
pub open spec fn sec_rec(ls: Seq<Seq<char>>, i: int, cur: Option<int>, acc: Seq<(int, int)>) -> Seq<
    (int, int),
>
    decreases ls.len() - i,
{
    if i >= ls.len() {
        sec_close(cur, ls.len() - 1, acc)
    } else if phys_header(ls[i]) {
        sec_rec(ls, i + 1, Some(i), sec_close(cur, i - 1, acc))
    } else {
        sec_rec(ls, i + 1, cur, acc)
    }
}

/// The line spans of the sections of raw content, in order.
pub open spec fn section_spans(content: Seq<char>) -> Seq<(int, int)> {
    sec_rec(split_lines(content), 0, None, Seq::empty())
}

/// The section record describes the span `span` of the lines `ls`.
pub open spec fn section_at(sec: Section, ls: Seq<Seq<char>>, span: (int, int)) -> bool {
    &&& sec.is_show == starts_with(trim_spec(ls[span.0]), "Show"@)
    &&& sec.position.start_line as int == span.0
    &&& sec.position.end_line as int == span.1
    &&& sec.text@ == join_lines(ls, span.0, span.1 + 1)
}

/// Builds the section spanning `lines[start ..= end]`: it is a `Show`
/// section when its first line, trimmed, starts with `Show`, and its text is
/// those lines joined with `'\n'`.
pub fn create_section(lines: &[String], start: usize, end: usize) -> (r: Section)
    requires
        start <= end < lines@.len(),
    ensures
        section_at(r, lines.deep_view(), (start as int, end as int)),
{
    proof {
        assert(lines.deep_view()[start as int] == lines@[start as int]@);
    }
    let first_line = trim_blanks(lines[start].as_str());
    let is_show = str_starts_with(first_line, "Show");
    let text = join_range(lines, start, end);
    Section { is_show, position: SectionPosition { start_line: start, end_line: end }, text }
}

/// Splits raw content into sections at `Show`/`Hide` header lines. Every
/// section spans from its header line to the line before the next header (or
/// the last line) and keeps its original text joined with `'\n'`.
pub fn parse_sections(content: &str) -> (r: Result<Vec<Section>, ParseError>)
    ensures
        r is Ok,
        r matches Ok(v) ==> ({
            let ls = split_lines(content@);
            let spans = section_spans(content@);
            v@.len() == spans.len() && (forall|k: int|
                0 <= k < v@.len() ==> section_at(#[trigger] v@[k], ls, spans[k]))
        }),
{
    let lines = split_physical_lines(content);
    let slice = lines.as_slice();
    let ghost ls = lines.deep_view();
    proof {
        assert(slice.deep_view() =~= ls);
    }
    let mut sections: Vec<Section> = Vec::new();
    let ghost mut spans_acc: Seq<(int, int)> = Seq::empty();
    let mut current_section_start: Option<usize> = None;
    let n = lines.len();
    let mut i: usize = 0;
    while i < n
        invariant
            i <= n,
            n == ls.len(),
            ls == lines.deep_view(),
            n == slice@.len(),
            slice.deep_view() == ls,
            sec_rec(
                ls,
                i as int,
                match current_section_start {
                    None => None,
                    Some(s) => Some(s as int),
                },
                spans_acc,
            ) == section_spans(content@),
            sections@.len() == spans_acc.len(),
            forall|k: int| 0 <= k < sections@.len() ==> section_at(#[trigger] sections@[k], ls, spans_acc[k]),
            current_section_start matches Some(s) ==> s < i,
        decreases n - i,
    {
        proof {
            assert(ls[i as int] == lines@[i as int]@);
        }
        let trimmed = trim_blanks(lines[i].as_str());
        if str_starts_with(trimmed, "Show") || str_starts_with(trimmed, "Hide") {
            match current_section_start {
                Some(start) => {
                    sections.push(create_section(slice, start, i - 1));
                    proof {
                        spans_acc = spans_acc.push((start as int, i as int - 1));
                    }
                },
                None => {},
            }
            current_section_start = Some(i);
        }
        i += 1;
    }
    match current_section_start {
        Some(start) => {
            sections.push(create_section(slice, start, n - 1));
            proof {
                spans_acc = spans_acc.push((start as int, n as int - 1));
            }
        },
        None => {},
    }
    Ok(sections)
}

} // verus!
