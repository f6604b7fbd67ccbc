//! Interpretation of the one line of input read at the confirmation
//! prompt: the answer is affirmative exactly when it reads "y" or "yes"
//! once case-folded and trimmed of surrounding whitespace.

use vstd::prelude::*;

verus! {

/// The lowercase form that `str::to_lowercase` gives a string.
pub uninterp spec fn lower_of(s: Seq<char>) -> Seq<char>;

/// The form that `str::trim` gives a string: the string less its
/// leading and trailing whitespace.
pub uninterp spec fn trim_of(s: Seq<char>) -> Seq<char>;

/// Relies on str::to_lowercase: the result is the Unicode lowercase
/// mapping of the input and depends on its characters alone.
#[verifier::external_body]
fn lowercased(s: &str) -> (r: String)
    ensures
        r@ == lower_of(s@),
{
    s.to_lowercase()
}

/// Relies on str::trim: the result is the input less its leading and
/// trailing whitespace and depends on the input's characters alone.
#[verifier::external_body]
fn trimmed(s: &str) -> (r: &str)
    ensures
        r@ == trim_of(s@),
{
    s.trim()
}

/// An already-normalized answer that counts as a yes.
pub open spec fn affirmative(s: Seq<char>) -> bool {
    s == "y"@ || s == "yes"@
}

/// Decides one already-folded, already-trimmed token.
pub fn is_affirmative_token(s: &str) -> (r: bool)
    ensures
        r == affirmative(s@),
{
    let own: String = s.to_owned();
    let y: String = "y".to_owned();
    let yes: String = "yes".to_owned();
    own == y || own == yes
}

/// Reads one raw answer line: affirmative exactly when it is "y" or
/// "yes" after case folding and trimming of surrounding whitespace.
/// Any other line, the empty line included, declines.
pub fn is_affirmative(line: &str) -> (r: bool)
    ensures
        r == affirmative(trim_of(lower_of(line@))),
{
    let low = lowercased(line);
    let t = trimmed(low.as_str());
    is_affirmative_token(t)
}

} // verus!
