//! Indexed section splitting over physical lines: like the plain section
//! splitter, but every section also carries its 0-based index and a typed
//! `Show`/`Hide` tag.

use vstd::prelude::*;
use crate::errors::ParseError;
use crate::sections::phys_header;
use crate::text::{
    join_lines, join_range, split_lines, split_physical_lines, starts_with, str_starts_with,
    trim_blanks, trim_spec,
};

verus! {

/// The kind of a section: a `Show` or a `Hide` unit.
#[derive(Debug, PartialEq, Eq, Clone, Copy, Structural)]
pub enum SectionType {
    Show,
    Hide,
}

/// The position of a section in the file, as inclusive physical line
/// indices.
#[derive(Debug, PartialEq, Eq, Structural)]
pub struct SectionPosition {
    pub start_line: usize,
    pub end_line: usize,
}

/// One section of a filter file: its 0-based index, its kind, its line span,
/// and its original text.
#[derive(Debug, PartialEq)]
pub struct FileSection {
    pub index: usize,
    pub type_: SectionType,
    pub position: SectionPosition,
    pub text: String,
}

/// The kind a section gets from its header line: `Show` when the trimmed
/// line starts with `Show`, otherwise `Hide`.
pub open spec fn section_type_of(l: Seq<char>) -> SectionType {
    if starts_with(trim_spec(l), "Show"@) {
        SectionType::Show
    } else {
        SectionType::Hide
    }
}

/// The largest index in `lo ..= hi` whose line is non-blank after trimming,
/// or `lo` itself when every line after it is blank.
pub open spec fn last_nonblank(ls: Seq<Seq<char>>, lo: int, hi: int) -> int
    decreases hi - lo,
{
    if hi <= lo {
        lo
    } else if trim_spec(ls[hi]).len() > 0 {
        hi
    } else {
        last_nonblank(ls, lo, hi - 1)
    }
}

/// One scanning step at line `i`: a header line closes the open section at
/// the last non-blank line before `i` and opens a new one; at the end of
/// input the open section is closed at the last line, blank or not.
pub open spec fn file_sec_rec(
    ls: Seq<Seq<char>>,
    i: int,
    cur: Option<int>,
    acc: Seq<(int, int)>,
) -> Seq<(int, int)>
    decreases ls.len() - i,
{
    if i >= ls.len() {
        match cur {
            None => acc,
            Some(s) => acc.push((s, ls.len() - 1)),
        }
    } else if phys_header(ls[i]) {
        file_sec_rec(
            ls,
            i + 1,
            Some(i),
            match cur {
                None => acc,
                Some(s) => acc.push((s, last_nonblank(ls, s, i - 1))),
            },
        )
    } else {
        file_sec_rec(ls, i + 1, cur, acc)
    }
}

/// The line spans of the indexed sections of raw content, in order.
pub open spec fn file_section_spans(content: Seq<char>) -> Seq<(int, int)> {
    file_sec_rec(split_lines(content), 0, None, Seq::empty())
}

/// The section record describes the span `span` of the lines `ls` and
/// stands at position `k`.
pub open spec fn file_section_at(sec: FileSection, ls: Seq<Seq<char>>, span: (int, int), k: int) -> bool {
    &&& sec.index as int == k
    &&& sec.type_ == section_type_of(ls[span.0])
    &&& sec.position.start_line as int == span.0
    &&& sec.position.end_line as int == span.1
    &&& sec.text@ == join_lines(ls, span.0, span.1 + 1)
}

/// Builds the indexed section spanning `lines[start ..= end]`.
fn create_file_section(lines: &[String], start: usize, end: usize, index: usize) -> (r: FileSection)
    requires
        start <= end < lines@.len(),
    ensures
        file_section_at(r, lines.deep_view(), (start as int, end as int), index as int),
{
    proof {
        assert(lines.deep_view()[start as int] == lines@[start as int]@);
    }
    let first_line = trim_blanks(lines[start].as_str());
    let section_type = if str_starts_with(first_line, "Show") {
        SectionType::Show
    } else {
        SectionType::Hide
    };
    FileSection {
        index,
        type_: section_type,
        position: SectionPosition { start_line: start, end_line: end },
        text: join_range(lines, start, end),
    }
}

/// Splits raw content into indexed sections at `Show`/`Hide` header lines.
/// A section closed by the next header ends at its last non-blank line, so
/// blank lines before a header belong to no section; the final section runs
/// to the last line of the file. Each section carries its 0-based index and
/// a `Show` tag exactly when its trimmed header line starts with `Show`.
pub fn parse_filter_file(content: &str) -> (r: Result<Vec<FileSection>, ParseError>)
    ensures
        r is Ok,
        r matches Ok(v) ==> ({
            let ls = split_lines(content@);
            let spans = file_section_spans(content@);
            v@.len() == spans.len() && (forall|k: int|
                0 <= k < v@.len() ==> file_section_at(#[trigger] v@[k], ls, spans[k], k))
        }),
{
    let lines = split_physical_lines(content);
    let slice = lines.as_slice();
    let ghost ls = lines.deep_view();
    proof {
        assert(slice.deep_view() =~= ls);
    }
    let mut sections: Vec<FileSection> = Vec::new();
    let ghost mut spans_acc: Seq<(int, int)> = Seq::empty();
    let mut current_section_start: Option<usize> = None;
    let mut section_index: usize = 0;
    let n = lines.len();
    let mut i: usize = 0;
    while i < n
        invariant
            i <= n,
            n == ls.len(),
            ls == lines.deep_view(),
            n == slice@.len(),
            slice.deep_view() == ls,
            section_index == sections@.len(),
            sections@.len() <= i,
            file_sec_rec(
                ls,
                i as int,
                match current_section_start {
                    None => None,
                    Some(s) => Some(s as int),
                },
                spans_acc,
            ) == file_section_spans(content@),
            sections@.len() == spans_acc.len(),
            forall|k: int|
                0 <= k < sections@.len() ==> file_section_at(
                    #[trigger] sections@[k],
                    ls,
                    spans_acc[k],
                    k,
                ),
            current_section_start matches Some(s) ==> s < i,
        decreases n - i,
    {
        proof {
            assert(ls[i as int] == lines@[i as int]@);
        }
        let trimmed = trim_blanks(lines[i].as_str());
        if str_starts_with(trimmed, "Show") || str_starts_with(trimmed, "Hide") {
            match current_section_start {
                Some(start) => {
                    let mut end = i - 1;
                    while end > start && trim_blanks(lines[end].as_str()).unicode_len() == 0
                        invariant
                            start <= end < n,
                            n == ls.len(),
                            ls == lines.deep_view(),
                            n == lines@.len(),
                            last_nonblank(ls, start as int, i as int - 1) == last_nonblank(
                                ls,
                                start as int,
                                end as int,
                            ),
                        decreases end,
                    {
                        proof {
                            assert(ls[end as int] == lines@[end as int]@);
                        }
                        end -= 1;
                    }
                    proof {
                        assert(ls[end as int] == lines@[end as int]@);
                        assert(last_nonblank(ls, start as int, end as int) == end as int);
                    }
                    sections.push(create_file_section(slice, start, end, section_index));
                    section_index += 1;
                    proof {
                        spans_acc = spans_acc.push(
                            (start as int, last_nonblank(ls, start as int, i as int - 1)),
                        );
                    }
                },
                None => {},
            }
            current_section_start = Some(i);
        }
        i += 1;
    }
    match current_section_start {
        Some(start) => {
            sections.push(create_file_section(slice, start, n - 1, section_index));
            proof {
                spans_acc = spans_acc.push((start as int, n as int - 1));
            }
        },
        None => {},
    }
    Ok(sections)
}

} // verus!
