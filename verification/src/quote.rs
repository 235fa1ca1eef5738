//! Labels as an outline shows them.

use vstd::prelude::*;
use vstd::string::StringExecFns;

verus! {

/// The text that std's `Debug` for `str` writes for `label`: the label
/// between double quotes, with the characters escaped that `Debug`
/// escapes. It depends on the label alone.
pub uninterp spec fn debug_quoted(label: Seq<char>) -> Seq<char>;

/// The label as `{:?}` writes it.
///
/// This calls `format!("{:?}", label)`, which runs `<str as Debug>::fmt`
/// into a new `String`. Nothing is proved of it. The contract only gives
/// the text its name, which claims that the same label always gives the
/// same text; what the text holds is left to std.
#[verifier::external_body]
pub(crate) fn quoted(label: &str) -> (text: String)
    ensures
        text@ == debug_quoted(label@),
{
    format!("{:?}", label)
}

/// A line of an outline: `text` behind `indent`.
pub fn indented(indent: &str, text: &str) -> (line: String)
    ensures
        line@ == indent@ + text@,
{
    let mut line = String::from_str(indent);
    line.append(text);
    line
}

} // verus!
