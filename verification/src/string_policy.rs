//! How string leaves are normalized before conversion.

use vstd::prelude::*;

use qubit_datatype::BlankStringPolicy;
use qubit_datatype::StringConversionPolicy;

verus! {

/// What a blank string stands for.
#[derive(Debug, Clone, Copy, PartialEq, Eq, Structural)]
pub enum BlankStrings {
    /// A blank string is a value like any other.
    Preserve,
    /// A blank string stands for a missing value.
    TreatAsMissing,
    /// A blank string is an error.
    Reject,
}

/// The string part of a reader's conversion policy.
#[derive(Debug, Clone, Copy, PartialEq, Eq, Structural)]
pub struct StringPolicy {
    /// Whether surrounding whitespace is removed.
    pub trim: bool,
    /// What a blank string stands for.
    pub blank_strings: BlankStrings,
}

/// Outcome of normalizing one string leaf.
#[derive(Debug, Clone, Copy, PartialEq, Eq, Structural)]
pub enum StringOutcome {
    /// The string is kept as a value.
    Kept,
    /// The string stands for a missing value.
    Missing,
    /// The string is rejected.
    Rejected,
}

/// Characters with the Unicode `White_Space` property, which
/// `char::is_whitespace` and `str::trim` go by.
pub open spec fn is_white_space(c: char) -> bool {
    ||| ('\u{9}' <= c && c <= '\u{d}')
    ||| c == ' '
    ||| c == '\u{85}'
    ||| c == '\u{a0}'
    ||| c == '\u{1680}'
    ||| ('\u{2000}' <= c && c <= '\u{200a}')
    ||| c == '\u{2028}'
    ||| c == '\u{2029}'
    ||| c == '\u{202f}'
    ||| c == '\u{205f}'
    ||| c == '\u{3000}'
}

/// A blank text: nothing but whitespace, possibly nothing at all.
pub open spec fn is_blank(text: Seq<char>) -> bool {
    forall|i: int| 0 <= i < text.len() ==> is_white_space(#[trigger] text[i])
}

/// What normalizing a string does under a blank-string policy.
pub open spec fn string_outcome(blank_strings: BlankStrings, blank: bool) -> StringOutcome {
    if !blank {
        StringOutcome::Kept
    } else {
        match blank_strings {
            BlankStrings::Preserve => StringOutcome::Kept,
            BlankStrings::TreatAsMissing => StringOutcome::Missing,
            BlankStrings::Reject => StringOutcome::Rejected,
        }
    }
}

/// `StringConversionPolicy::normalize_optional` of qubit-datatype, for the
/// policy with these settings. Its source trims the text when asked and then
/// tests whether the rest trims to nothing: a text that is not blank is kept,
/// and a blank one is kept, treated as missing (`Ok(None)`) or rejected as
/// the blank-string policy says. Trimming never changes whether a text is
/// blank, so the outcome depends on the blank-string policy and on blankness
/// alone.
#[verifier::external_body]
pub(crate) fn normalize_optional(policy: StringPolicy, text: &str) -> (outcome: StringOutcome)
    ensures
        outcome == string_outcome(policy.blank_strings, is_blank(text@)),
{
    let blank = match policy.blank_strings {
        BlankStrings::Preserve => BlankStringPolicy::Preserve,
        BlankStrings::TreatAsMissing => BlankStringPolicy::TreatAsMissing,
        BlankStrings::Reject => BlankStringPolicy::Reject,
    };
    let policy = StringConversionPolicy::builder().trim(policy.trim).blank_string_policy(blank).build();
    match policy.normalize_optional(text) {
        Ok(Some(_)) => StringOutcome::Kept,
        Ok(None) => StringOutcome::Missing,
        Err(_) => StringOutcome::Rejected,
    }
}

} // verus!
