//! Source locations: the line/column spans stored in a descriptor's source
//! code info, and their conversion to byte ranges of the source text.
use vstd::prelude::*;
use vstd::string::*;

verus! {

/// A range of the source text, as a byte offset and a length in bytes.
#[derive(Clone, Copy, Debug, PartialEq, Eq)]
pub struct SourceSpan {
    pub offset: usize,
    pub len: usize,
}

impl SourceSpan {
    pub fn new(offset: usize, len: usize) -> (res: SourceSpan)
        ensures
            res.offset == offset,
            res.len == len,
    {
        SourceSpan { offset, len }
    }

    pub fn offset(&self) -> (res: usize)
        ensures
            res == self.offset,
    {
        self.offset
    }

    pub fn len(&self) -> (res: usize)
        ensures
            res == self.len,
    {
        self.len
    }
}

/// A location span has three elements (start line, start column, end column:
/// the span ends on the line it starts on) or four (start line, start column,
/// end line, end column); anything else is no span.
pub open spec fn spec_normalize_span(span: Seq<i32>) -> Option<Seq<i32>> {
    if span.len() == 3 {
        Some(seq![span[0], span[1], span[0], span[2]])
    } else if span.len() == 4 {
        Some(span)
    } else {
        None
    }
}

/// Brings a location span to its four-element form.
pub fn normalize_span(span: &[i32]) -> (res: Option<[i32; 4]>)
    ensures
        match res {
            Some(s) => spec_normalize_span(span@) == Some(s@),
            None => spec_normalize_span(span@) is None,
        },
{
    if span.len() == 3 {
        let res = [span[0], span[1], span[0], span[2]];
        assert(res@ =~= seq![span@[0], span@[1], span@[0], span@[2]]);
        Some(res)
    } else if span.len() == 4 {
        let res = [span[0], span[1], span[2], span[3]];
        assert(res@ =~= span@);
        Some(res)
    } else {
        None
    }
}

/// Byte offset at which line `line` (counted from 0) starts, scanning from
/// byte `i` with `line` newlines still to pass; `None` when the text has too
/// few lines.
pub open spec fn line_start_from(text: Seq<u8>, line: nat, i: int) -> Option<int>
    decreases text.len() - i,
{
    if line == 0 {
        Some(i)
    } else if i < 0 || i >= text.len() {
        None
    } else if text[i] == 10u8 {
        line_start_from(text, (line - 1) as nat, i + 1)
    } else {
        line_start_from(text, line, i + 1)
    }
}

/// Byte offset of (`line`, `col`) in `text`: the start of the line plus the column.
pub open spec fn spec_line_col_offset(text: Seq<u8>, line: int, col: int) -> Option<int> {
    if line < 0 || col < 0 {
        None
    } else {
        match line_start_from(text, line as nat, 0) {
            Some(start) => Some(start + col),
            None => None,
        }
    }
}

/// The byte range of the text that a four-element span covers: it exists
/// when there is a text, both ends resolve, and the start does not come
/// after the end.
pub open spec fn spec_make_span(span: Seq<i32>, text: Option<Seq<u8>>) -> Option<SourceSpan> {
    match text {
        None => None,
        Some(t) => match (
            spec_line_col_offset(t, span[0] as int, span[1] as int),
            spec_line_col_offset(t, span[2] as int, span[3] as int),
        ) {
            (Some(start), Some(end)) => if start <= end && end <= usize::MAX {
                Some(SourceSpan { offset: start as usize, len: (end - start) as usize })
            } else {
                None
            },
            _ => None,
        },
    }
}

/// The UTF-8 bytes of an optional source text.
pub open spec fn source_bytes(source: Option<&str>) -> Option<Seq<u8>> {
    match source {
        Some(s) => Some(s.spec_bytes()),
        None => None,
    }
}

/// Byte offset of (`line`, `col`) in `text`.
pub fn line_col_offset(text: &[u8], line: i32, col: i32) -> (res: Option<usize>)
    ensures
        match res {
            Some(o) => spec_line_col_offset(text@, line as int, col as int) == Some(o as int),
            None => match spec_line_col_offset(text@, line as int, col as int) {
                Some(o) => o > usize::MAX,
                None => true,
            },
        },
{
    if line < 0 || col < 0 {
        return None;
    }
    let mut remaining: u32 = line as u32;
    let mut i: usize = 0;
    while remaining > 0 && i < text.len()
        invariant
            0 <= i <= text.len(),
            line >= 0,
            line_start_from(text@, line as nat, 0) == line_start_from(
                text@,
                remaining as nat,
                i as int,
            ),
        decreases text.len() - i,
    {
        if text[i] == 10u8 {
            remaining = remaining - 1;
        }
        i = i + 1;
    }
    if remaining > 0 {
        return None;
    }
    i.checked_add(col as usize)
}

/// The byte range of `source` that a four-element line/column span covers.
pub fn make_span(span: [i32; 4], source: Option<&str>) -> (res: Option<SourceSpan>)
    ensures
        res == spec_make_span(span@, source_bytes(source)),
{
    match source {
        None => None,
        Some(s) => {
            let text = s.as_bytes();
            let start = line_col_offset(text, span[0], span[1]);
            let end = line_col_offset(text, span[2], span[3]);
            match (start, end) {
                (Some(start), Some(end)) => {
                    if start <= end {
                        Some(SourceSpan { offset: start, len: end - start })
                    } else {
                        None
                    }
                },
                _ => None,
            }
        },
    }
}

} // verus!
