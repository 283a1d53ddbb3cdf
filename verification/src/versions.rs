//! Conda versions, as `rattler_conda_types` reads and orders them.
//!
//! A version is handed round as its text; the crate reads the text each time
//! that two versions are compared.
use rattler_conda_types::Version;
use std::str::FromStr;
use vstd::prelude::*;

verus! {

/// What is wrong with `text` as a conda version, in the words of
/// `rattler_conda_types`; `None` where it is one.
pub uninterp spec fn version_fault(text: Seq<char>) -> Option<Seq<char>>;

/// Whether both texts are conda versions and the first comes before the second.
pub uninterp spec fn version_less(a: Seq<char>, b: Seq<char>) -> bool;

/// Whether both texts are conda versions and the two are equal.
pub uninterp spec fn version_same(a: Seq<char>, b: Seq<char>) -> bool;

/// Whether a character can stand in a conda version.
pub open spec fn is_version_char(c: char) -> bool {
    ||| '0' <= c <= '9'
    ||| 'a' <= c <= 'z'
    ||| 'A' <= c <= 'Z'
    ||| c == '.' || c == '-' || c == '_' || c == '!' || c == '+'
}

/// Whether a text is made of what conda versions are made of.
pub open spec fn is_version_text(text: Seq<char>) -> bool {
    text.len() > 0 && forall|i: int| 0 <= i < text.len() ==> is_version_char(#[trigger] text[i])
}

/// `rattler_conda_types::Version::from_str`: the text of the error that it
/// gives on `text`, or `None` where it gives a version. A version is not empty, and
/// is made of ASCII letters and digits, separators, the mark of an epoch and that of
/// a local part.
#[verifier::external_body]
pub(crate) fn parse_fault(text: &str) -> (fault: Option<String>)
    ensures
        fault.deep_view() == version_fault(text@),
        fault is None ==> is_version_text(text@),
{
    Version::from_str(text).err().map(|e| e.to_string())
}

/// `<` on two values of `rattler_conda_types::Version`, and `false` where one of
/// the texts is not a version. The order is total: no version comes before
/// itself, and of two versions at most one comes before the other.
#[verifier::external_body]
pub(crate) fn less(a: &str, b: &str) -> (r: bool)
    ensures
        r == version_less(a@, b@),
        r ==> version_fault(a@) is None && version_fault(b@) is None,
        a@ == b@ ==> !r,
        r ==> !version_less(b@, a@),
{
    match (Version::from_str(a), Version::from_str(b)) {
        (Ok(x), Ok(y)) => x < y,
        _ => false,
    }
}

/// `==` on two values of `rattler_conda_types::Version`, and `false` where one
/// of the texts is not a version. It is symmetric, and neither of two equal
/// versions comes before the other.
#[verifier::external_body]
pub(crate) fn same(a: &str, b: &str) -> (r: bool)
    ensures
        r == version_same(a@, b@),
        r == version_same(b@, a@),
        r ==> !version_less(a@, b@) && !version_less(b@, a@),
{
    match (Version::from_str(a), Version::from_str(b)) {
        (Ok(x), Ok(y)) => x == y,
        _ => false,
    }
}

} // verus!
