//! A canonicalizing formatter for plain-text double-entry accounting
//! journals, with a line-level differ for checking that a journal already
//! is in canonical form.
//!
//! A journal is read line by line into records ([`classify`]), the records
//! are laid out in columns ([`layout`]), and [`format`] does both. The
//! amounts of postings go through the codec of [`amount`]. [`diff`] compares
//! a journal with its canonical form.
//!
//! Every function is verified against a contract over sequences of
//! characters. Beyond the contracts the crate proves what holds of the
//! formatter as a whole:
//!
//! - the canonical form of a journal is its own canonical form
//!   ([`fixpoint::lemma_canonical_idempotent`]);
//! - an amount that the codec has written reads back as itself
//!   ([`amount::lemma_parse_render_roundtrip`]);
//! - the amounts of all postings begin at the same column, and so do the
//!   trailing comments of all lines that fit the line width
//!   ([`layout::lemma_amounts_aligned`], [`layout::lemma_comment_column`]);
//! - inside a comment block every line is a comment
//!   ([`classify::lemma_block_lines_are_comments`]);
//! - the differ reports nothing exactly when two texts are the same line
//!   for line ([`diff::make_diff`]).

use vstd::prelude::*;

pub mod text;
pub mod types;
pub mod amount;
pub mod classify;
pub mod layout;
pub mod diff;
pub mod fields;
pub mod stable;
pub mod fixpoint;

pub use crate::types::{Comment, Delimiter, FormatError, Line, LineKind};
pub use crate::amount::{Amount, Currency};
pub use crate::diff::{DiffLine, Mismatch};
use crate::types::{line_views, ErrorView};
use crate::classify::classify;
use crate::layout::{all_wf, canonical, finish, journal_body, layout};
use crate::fixpoint::lemma_canonical_idempotent;

verus! {

/// Formats a journal: appends its canonical form to `buffer`, trims the
/// buffer at its end and closes it with one line feed.
///
/// Fails, and leaves the buffer as it was,
/// - with `UnexpectedEndComment` at the first `end comment` outside a
///   comment block,
/// - else with `UnterminatedCommentBlock` if a comment block is open at
///   the end of the journal,
/// - else with `AmountParseError` at the first posting whose second field
///   is no amount.
///
/// What is written into an empty buffer is the canonical form of the
/// journal, and formatting it again gives the same text.
pub fn format(buffer: &mut String, input: &str) -> (r: Result<(), FormatError>)
    ensures
        match journal_body(input@) {
            Ok(body) => r is Ok && final(buffer)@ == finish(old(buffer)@ + body),
            Err(e) => r is Err && r.unwrap_err()@ == e && final(buffer)@ == old(buffer)@,
        },
        r is Ok && old(buffer)@.len() == 0 ==> canonical(input@) == Ok::<Seq<char>, ErrorView>(
            final(buffer)@,
        ) && canonical(final(buffer)@) == canonical(input@),
{
    match classify(input) {
        Err(e) => Err(e),
        Ok(lines) => {
            assert(all_wf(line_views(lines@))) by {
                assert forall|i: int| 0 <= i < line_views(lines@).len() implies (
                #[trigger] line_views(lines@)[i]).wf() by {
                    assert(lines@[i].wf());
                }
            }
            proof {
                if journal_body(input@) is Ok {
                    lemma_canonical_idempotent(input@);
                    assert(Seq::<char>::empty() + journal_body(input@)->Ok_0 =~= journal_body(
                        input@,
                    )->Ok_0);
                    if old(buffer)@.len() == 0 {
                        assert(old(buffer)@ =~= Seq::<char>::empty());
                    }
                }
            }
            layout(buffer, &lines)
        },
    }
}

} // verus!
