//! The operator's answer to an offered transfer.
use vstd::prelude::*;
use vstd::string::StrSliceExecFns;

verus! {

/// `s` without its leading and trailing white space.
pub uninterp spec fn trim_of(s: Seq<char>) -> Seq<char>;

/// `s` in lower case.
pub uninterp spec fn lower_of(s: Seq<char>) -> Seq<char>;

/// Relies on `str::trim`: the result depends on the characters alone.
#[verifier::external_body]
fn trim(s: &str) -> (r: &str)
    ensures
        r@ == trim_of(s@),
{
    s.trim()
}

/// Relies on `str::to_lowercase`: the result depends on the characters alone.
#[verifier::external_body]
fn to_lowercase(s: &str) -> (r: String)
    ensures
        r@ == lower_of(s@),
{
    s.to_lowercase()
}

/// The decision that a trimmed, lower-cased answer stands for: accept on
/// `y`, reject on `n`, none otherwise.
pub open spec fn consent_of(folded: Seq<char>) -> Option<bool> {
    if folded == seq!['y'] {
        Some(true)
    } else if folded == seq!['n'] {
        Some(false)
    } else {
        None
    }
}

/// The decision of an answer that is already trimmed and lower-cased.
pub fn consent_from_folded(folded: &str) -> (r: Option<bool>)
    ensures
        r == consent_of(folded@),
{
    if folded.unicode_len() != 1 {
        return None;
    }
    let c = folded.get_char(0);
    if c == 'y' {
        assert(folded@ =~= seq!['y']);
        Some(true)
    } else if c == 'n' {
        assert(folded@ =~= seq!['n']);
        Some(false)
    } else {
        None
    }
}

/// The decision of an answer line as typed: `y` or `n` in either case,
/// white space around it ignored.
pub fn parse_consent(input: &str) -> (r: Option<bool>)
    ensures
        r == consent_of(lower_of(trim_of(input@))),
{
    let t = trim(input);
    let folded = to_lowercase(t);
    consent_from_folded(folded.as_str())
}

} // verus!
