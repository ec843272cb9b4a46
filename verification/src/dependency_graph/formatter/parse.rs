//! The scanner for format templates.
//!
//! A template is literal text with placeholders in braces, such as
//! `{p} ({l})`. A doubled brace, `{{` or `}}`, stands for the brace itself.

use vstd::prelude::*;
use crate::text::chars_of;

verus! {

/// Whether a character has the Unicode property Alphabetic.
pub uninterp spec fn alphabetic(c: char) -> bool;

/// Whether a character is alphabetic or a Unicode number.
pub uninterp spec fn alphanumeric(c: char) -> bool;

/// `char::is_alphabetic` tells whether the character has the Unicode
/// property Alphabetic.
pub assume_specification[ char::is_alphabetic ](c: char) -> (r: bool)
    ensures
        r == alphabetic(c),
;

/// `char::is_alphanumeric` tells whether the character is alphabetic or a
/// Unicode number.
pub assume_specification[ char::is_alphanumeric ](c: char) -> (r: bool)
    ensures
        r == alphanumeric(c),
;

/// Whether a placeholder's name can begin with `c`: with a letter.
pub open spec fn name_start(c: char) -> bool {
    if c <= '\u{7f}' {
        ('a' <= c && c <= 'z') || ('A' <= c && c <= 'Z')
    } else {
        alphabetic(c)
    }
}

/// Whether a placeholder's name can go on with `c`: with a letter or a
/// digit.
pub open spec fn name_part(c: char) -> bool {
    if c <= '\u{7f}' {
        ('a' <= c && c <= 'z') || ('A' <= c && c <= 'Z') || ('0' <= c && c <= '9')
    } else {
        alphanumeric(c)
    }
}

/// Whether a placeholder's name can begin with `c`.
pub fn is_name_start(c: char) -> (r: bool)
    ensures
        r == name_start(c),
{
    if c <= '\u{7f}' {
        ('a' <= c && c <= 'z') || ('A' <= c && c <= 'Z')
    } else {
        c.is_alphabetic()
    }
}

/// Whether a placeholder's name can go on with `c`.
pub fn is_name_part(c: char) -> (r: bool)
    ensures
        r == name_part(c),
{
    if c <= '\u{7f}' {
        ('a' <= c && c <= 'z') || ('A' <= c && c <= 'Z') || ('0' <= c && c <= '9')
    } else {
        c.is_alphanumeric()
    }
}

/// What is wrong with the braces of a template.
#[derive(Debug, Clone, Copy, PartialEq, Eq, Structural)]
pub enum ParseError {
    /// A `{` is not followed by a name and a `}`.
    MissingClose,
    /// A `}` stands alone.
    StrayClose,
}

/// One piece of a template.
#[derive(Debug)]
pub enum RawChunk {
    /// Text to show as it is.
    Text(String),
    /// A placeholder, with the name that stands between its braces.
    Argument(String),
    /// A place where the braces are wrong.
    Error(ParseError),
}

/// What a [`RawChunk`] holds, as mathematical values.
pub ghost enum RawChunkView {
    Text(Seq<char>),
    Argument(Seq<char>),
    Error(ParseError),
}

impl View for RawChunk {
    type V = RawChunkView;

    open spec fn view(&self) -> RawChunkView {
        match *self {
            RawChunk::Text(t) => RawChunkView::Text(t@),
            RawChunk::Argument(a) => RawChunkView::Argument(a@),
            RawChunk::Error(e) => RawChunkView::Error(e),
        }
    }
}

/// Whether `c` is one of the two braces.
pub open spec fn is_brace(c: char) -> bool {
    c == '{' || c == '}'
}

/// The first place from `from` on that holds a brace, or the end of `s`.
pub open spec fn text_end(s: Seq<char>, from: int) -> int
    decreases s.len() - from,
{
    if from >= s.len() || is_brace(s[from]) {
        from
    } else {
        text_end(s, from + 1)
    }
}

/// The first place from `from` on that does not hold a letter or a digit, or
/// the end of `s`.
pub open spec fn name_end(s: Seq<char>, from: int) -> int
    decreases s.len() - from,
{
    if from >= s.len() || !name_part(s[from]) {
        from
    } else {
        name_end(s, from + 1)
    }
}

/// Where the name ends that stands behind the `{` at `open`: a name is a
/// letter followed by letters and digits, and is empty where no letter
/// follows the brace.
pub open spec fn name_close(s: Seq<char>, open: int) -> int {
    if open + 1 < s.len() && name_start(s[open + 1]) {
        name_end(s, open + 2)
    } else {
        open + 1
    }
}

/// The piece of the template `s` that begins at `pos`, and the place where
/// the next piece begins.
///
/// A doubled brace is the text of one brace. A `{` opens a placeholder, which
/// must be closed behind its name; where it is not, the rest of the template
/// is given up. A single `}` is an error. Anything else is text up to the
/// next brace.
pub open spec fn chunk_at(s: Seq<char>, pos: int) -> (RawChunkView, int) {
    if s[pos] == '{' {
        if pos + 1 < s.len() && s[pos + 1] == '{' {
            (RawChunkView::Text(seq!['{']), pos + 2)
        } else {
            let end = name_close(s, pos);
            if end < s.len() && s[end] == '}' {
                (RawChunkView::Argument(s.subrange(pos + 1, end)), end + 1)
            } else {
                (RawChunkView::Error(ParseError::MissingClose), s.len() as int)
            }
        }
    } else if s[pos] == '}' {
        if pos + 1 < s.len() && s[pos + 1] == '}' {
            (RawChunkView::Text(seq!['}']), pos + 2)
        } else {
            (RawChunkView::Error(ParseError::StrayClose), pos + 1)
        }
    } else {
        (RawChunkView::Text(s.subrange(pos, text_end(s, pos))), text_end(s, pos))
    }
}

/// `text_end` lies between `from` and the end of `s`.
pub proof fn lemma_text_end_bounds(s: Seq<char>, from: int)
    requires
        0 <= from <= s.len(),
    ensures
        from <= text_end(s, from) <= s.len(),
        from < s.len() && !is_brace(s[from]) ==> from < text_end(s, from),
    decreases s.len() - from,
{
    if from < s.len() && !is_brace(s[from]) {
        lemma_text_end_bounds(s, from + 1);
    }
}

/// `name_end` lies between `from` and the end of `s`.
pub proof fn lemma_name_end_bounds(s: Seq<char>, from: int)
    requires
        0 <= from <= s.len(),
    ensures
        from <= name_end(s, from) <= s.len(),
    decreases s.len() - from,
{
    if from < s.len() && name_part(s[from]) {
        lemma_name_end_bounds(s, from + 1);
    }
}

/// Every piece is at least one character long and ends within the template.
pub proof fn lemma_chunk_at_advances(s: Seq<char>, pos: int)
    requires
        0 <= pos < s.len(),
    ensures
        pos < chunk_at(s, pos).1 <= s.len(),
{
    lemma_text_end_bounds(s, pos);
    if pos + 1 < s.len() && name_start(s[pos + 1]) {
        lemma_name_end_bounds(s, pos + 2);
    }
}

/// The pieces of the template `s` from `pos` on, in order.
pub open spec fn chunks_from(s: Seq<char>, pos: int) -> Seq<RawChunkView>
    decreases s.len() - pos,
{
    if 0 <= pos < s.len() {
        proof {
            lemma_chunk_at_advances(s, pos);
        }
        seq![chunk_at(s, pos).0] + chunks_from(s, chunk_at(s, pos).1)
    } else {
        Seq::empty()
    }
}

/// The pieces of a template, in order.
pub open spec fn chunks(s: Seq<char>) -> Seq<RawChunkView> {
    chunks_from(s, 0)
}

/// The piece of `format` that begins at `pos`, and the place where the next
/// piece begins.
fn next_chunk(format: &str, chars: &Vec<char>, pos: usize) -> (r: (RawChunk, usize))
    requires
        chars@ == format@,
        pos < chars@.len(),
    ensures
        r.0@ == chunk_at(format@, pos as int).0,
        r.1 == chunk_at(format@, pos as int).1,
        pos < r.1 <= chars@.len(),
{
    let len = chars.len();
    let c = chars[pos];
    proof {
        lemma_chunk_at_advances(format@, pos as int);
    }
    if c == '{' {
        if pos + 1 < len && chars[pos + 1] == '{' {
            let text = format.substring_char(pos, pos + 1).to_owned();
            assert(text@ =~= seq!['{']);
            return (RawChunk::Text(text), pos + 2);
        }
        let mut end: usize = pos + 1;
        if end < len && is_name_start(chars[end]) {
            end = end + 1;
            while end < len && is_name_part(chars[end])
                invariant
                    chars@ == format@,
                    len == chars@.len(),
                    pos + 2 <= end <= len,
                    name_end(format@, end as int) == name_end(format@, pos + 2),
                decreases len - end,
            {
                end = end + 1;
            }
        }
        assert(end == name_close(format@, pos as int));
        if end < len && chars[end] == '}' {
            let name = format.substring_char(pos + 1, end).to_owned();
            return (RawChunk::Argument(name), end + 1);
        }
        (RawChunk::Error(ParseError::MissingClose), len)
    } else if c == '}' {
        if pos + 1 < len && chars[pos + 1] == '}' {
            let text = format.substring_char(pos, pos + 1).to_owned();
            assert(text@ =~= seq!['}']);
            return (RawChunk::Text(text), pos + 2);
        }
        (RawChunk::Error(ParseError::StrayClose), pos + 1)
    } else {
        let mut end: usize = pos + 1;
        while end < len && chars[end] != '{' && chars[end] != '}'
            invariant
                chars@ == format@,
                len == chars@.len(),
                pos < end <= len,
                text_end(format@, end as int) == text_end(format@, pos as int),
            decreases len - end,
        {
            end = end + 1;
        }
        let text = format.substring_char(pos, end).to_owned();
        (RawChunk::Text(text), end)
    }
}

/// The pieces of a template, each as its view.
pub open spec fn raw_views(raw: Seq<RawChunk>) -> Seq<RawChunkView> {
    raw.map_values(|c: RawChunk| c@)
}

/// Cuts a template into its pieces.
pub fn scan(format: &str) -> (raw: Vec<RawChunk>)
    ensures
        raw_views(raw@) == chunks(format@),
{
    let chars = chars_of(format);
    let mut raw: Vec<RawChunk> = Vec::new();
    let mut pos: usize = 0;
    while pos < chars.len()
        invariant
            chars@ == format@,
            pos <= chars@.len(),
            raw_views(raw@) + chunks_from(format@, pos as int) == chunks(format@),
        decreases chars@.len() - pos,
    {
        let ghost before = raw_views(raw@);
        let (chunk, next) = next_chunk(format, &chars, pos);
        raw.push(chunk);
        proof {
            assert(raw_views(raw@) =~= before + seq![chunk_at(format@, pos as int).0]);
            assert(raw_views(raw@) + chunks_from(format@, next as int) =~= before + chunks_from(
                format@,
                pos as int,
            ));
        }
        pos = next;
    }
    proof {
        assert(raw_views(raw@) + chunks_from(format@, pos as int) =~= raw_views(raw@));
    }
    raw
}

} // verus!
