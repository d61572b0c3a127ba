//! The records a journal is read into, and their mathematical views.

use vstd::prelude::*;
use crate::text::{from_chars, push_str};

verus! {

/// The marker that introduced a comment.
#[derive(Debug, Clone, Copy, PartialEq, Eq, Structural)]
pub enum Delimiter {
    /// `#`
    Hash,
    /// `;`
    Semicolon,
    /// No literal marker: a whole-line comment, kept verbatim.
    Bare,
}

/// A comment: the marker it was introduced by and the text behind it.
#[derive(Debug, Clone, PartialEq, Eq)]
pub struct Comment {
    pub delimiter: Delimiter,
    pub text: String,
}

/// What a line of a journal is.
#[derive(Debug, Clone, PartialEq, Eq)]
pub enum LineKind {
    /// The head of a transaction: a line that begins with a digit.
    Date,
    /// An indented line, with the fields it was cut into: the account
    /// first, the amount second.
    Posting(Vec<String>),
    /// A line that is a comment as a whole.
    Comment,
    /// Anything else, blank lines included.
    Other,
    /// A line that was not classified yet.
    Undetermined,
}

/// One line of a journal.
#[derive(Debug, Clone, PartialEq, Eq)]
pub struct Line {
    pub kind: LineKind,
    pub content: Option<String>,
    pub comment: Option<Comment>,
}

/// Why a journal could not be formatted.
#[derive(Debug, Clone, PartialEq, Eq)]
pub enum FormatError {
    /// A comment block was opened at this line and never closed.
    UnterminatedCommentBlock(usize),
    /// `end comment` at this line, with no comment block open.
    UnexpectedEndComment(usize),
    /// A line reached the layout without a kind.
    UndeterminedLineKind,
    /// The amount field of a posting is no amount.
    AmountParseError(String),
}

/// The texts of a list of strings.
pub open spec fn views_of(v: Seq<String>) -> Seq<Seq<char>> {
    Seq::new(v.len(), |i: int| v[i]@)
}

/// A comment, with its text as a sequence of characters.
#[verifier::ext_equal]
pub struct CommentView {
    pub delimiter: Delimiter,
    pub text: Seq<char>,
}

/// The kind of a line, with the fields of a posting as sequences of
/// characters.
#[verifier::ext_equal]
pub enum KindView {
    Date,
    Posting(Seq<Seq<char>>),
    Comment,
    Other,
    Undetermined,
}

/// A line of a journal as the contracts speak of it.
#[verifier::ext_equal]
pub struct LineView {
    pub kind: KindView,
    pub content: Option<Seq<char>>,
    pub comment: Option<CommentView>,
}

/// An error as the contracts speak of it.
#[verifier::ext_equal]
pub enum ErrorView {
    UnterminatedCommentBlock(nat),
    UnexpectedEndComment(nat),
    UndeterminedLineKind,
    AmountParseError(Seq<char>),
}

impl View for Comment {
    type V = CommentView;

    open spec fn view(&self) -> CommentView {
        CommentView { delimiter: self.delimiter, text: self.text@ }
    }
}

impl View for LineKind {
    type V = KindView;

    open spec fn view(&self) -> KindView {
        match self {
            LineKind::Date => KindView::Date,
            LineKind::Posting(fields) => KindView::Posting(views_of(fields@)),
            LineKind::Comment => KindView::Comment,
            LineKind::Other => KindView::Other,
            LineKind::Undetermined => KindView::Undetermined,
        }
    }
}

impl View for Line {
    type V = LineView;

    open spec fn view(&self) -> LineView {
        LineView {
            kind: self.kind@,
            content: match self.content {
                Some(c) => Some(c@),
                None => None,
            },
            comment: match self.comment {
                Some(c) => Some(c@),
                None => None,
            },
        }
    }
}

impl View for FormatError {
    type V = ErrorView;

    open spec fn view(&self) -> ErrorView {
        match self {
            FormatError::UnterminatedCommentBlock(n) => ErrorView::UnterminatedCommentBlock(
                *n as nat,
            ),
            FormatError::UnexpectedEndComment(n) => ErrorView::UnexpectedEndComment(*n as nat),
            FormatError::UndeterminedLineKind => ErrorView::UndeterminedLineKind,
            FormatError::AmountParseError(t) => ErrorView::AmountParseError(t@),
        }
    }
}

/// The views of a list of lines.
pub open spec fn line_views(v: Seq<Line>) -> Seq<LineView> {
    Seq::new(v.len(), |i: int| v[i]@)
}

/// The literal marker of a delimiter.
pub open spec fn delimiter_text(d: Delimiter) -> Seq<char> {
    match d {
        Delimiter::Hash => seq!['#'],
        Delimiter::Semicolon => seq![';'],
        Delimiter::Bare => Seq::empty(),
    }
}

/// A comment as it is written out: its marker, then its text.
pub open spec fn comment_text(c: CommentView) -> Seq<char> {
    delimiter_text(c.delimiter) + c.text
}

impl LineView {
    /// The fields that the layout reads are there: a comment line has its
    /// comment, any other line its content, and a posting its account.
    pub open spec fn wf(self) -> bool {
        &&& self.kind is Comment ==> self.comment is Some
        &&& !(self.kind is Comment) ==> self.content is Some
        &&& self.kind matches KindView::Posting(fields) ==> fields.len() > 0
    }
}

impl Line {
    /// The fields that the layout reads are there.
    pub open spec fn wf(&self) -> bool {
        self@.wf()
    }
}

impl Comment {
    /// The comment as it is written out: its marker, then its text.
    pub fn to_text(&self) -> (s: String)
        ensures
            s@ == comment_text(self@),
    {
        let mut out: Vec<char> = Vec::new();
        push_comment(&mut out, self);
        from_chars(&out)
    }
}

/// Appends a comment, as it is written out, to `out`.
pub(crate) fn push_comment(out: &mut Vec<char>, c: &Comment)
    ensures
        final(out)@ == old(out)@ + comment_text(c@),
{
    match c.delimiter {
        Delimiter::Hash => out.push('#'),
        Delimiter::Semicolon => out.push(';'),
        Delimiter::Bare => {},
    }
    push_str(out, c.text.as_str());
    assert(out@ =~= old(out)@ + comment_text(c@));
}

/// The strings made of each character vector of a list.
pub(crate) fn fields_from_chars(fields: &Vec<Vec<char>>) -> (r: Vec<String>)
    ensures
        views_of(r@) == crate::text::texts(fields@),
{
    let mut r: Vec<String> = Vec::new();
    let mut i: usize = 0;
    while i < fields.len()
        invariant
            i <= fields.len(),
            r.len() == i,
            forall|j: int| 0 <= j < i ==> (#[trigger] r@[j])@ == fields@[j]@,
        decreases fields.len() - i,
    {
        let s = from_chars(&fields[i]);
        r.push(s);
        i += 1;
    }
    assert(views_of(r@) =~= crate::text::texts(fields@));
    r
}

} // verus!
