//! Command lines as words.

use vstd::prelude::*;

use crate::text;

verus! {

/// The words of a command line as a POSIX shell splits them, if its quotes are closed.
pub uninterp spec fn shell_words(line: Seq<char>) -> Option<Seq<Seq<char>>>;

/// The texts of an optional list.
pub open spec fn optional_texts(words: Option<Vec<String>>) -> Option<Seq<Seq<char>>> {
    match words {
        Some(list) => Some(text::texts(list@)),
        None => None,
    }
}

/// Splits with `shlex::split`. Trusted: the outcome depends on the line's text alone.
#[verifier::external_body]
pub(crate) fn split_words(line: &str) -> (words: Option<Vec<String>>)
    ensures
        optional_texts(words) == shell_words(line@),
{
    shlex::split(line)
}

} // verus!
