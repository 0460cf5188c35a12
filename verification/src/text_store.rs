//! Immutable node names, backed by `smol_str`.
use smol_str::SmolStr;
use vstd::prelude::*;

verus! {

#[verifier::external_type_specification]
#[verifier::external_body]
pub struct ExSmolStr(SmolStr);

/// The text that `SmolStr::as_str` returns for a string.
pub uninterp spec fn smol_text(s: SmolStr) -> Seq<char>;

/// `SmolStr::new`: a string holding a copy of `text`.
#[verifier::external_body]
pub(crate) fn smol_new(text: &str) -> (s: SmolStr)
    ensures
        smol_text(s) == text@,
{
    SmolStr::new(text)
}

/// `SmolStr::default`: the empty string.
#[verifier::external_body]
pub(crate) fn smol_empty() -> (s: SmolStr)
    ensures
        smol_text(s) == Seq::<char>::empty(),
{
    SmolStr::default()
}

/// `SmolStr::as_str`: the text that the string holds.
#[verifier::external_body]
pub(crate) fn smol_as_str(s: &SmolStr) -> (text: &str)
    ensures
        text@ == smol_text(*s),
{
    s.as_str()
}

/// `SmolStr::clone`: a string holding the same text.
#[verifier::external_body]
pub(crate) fn smol_clone(s: &SmolStr) -> (copy: SmolStr)
    ensures
        smol_text(copy) == smol_text(*s),
{
    s.clone()
}

} // verus!
