//! The few places where this crate leans on code it does not verify:
//! symbol demangling, and two pieces of std that vstd leaves unspecified.

use vstd::prelude::*;

verus! {

/// The display form that demangling gives a mangled symbol name.  It depends
/// on the characters of the name alone.
pub uninterp spec fn demangled_of(s: Seq<char>) -> Seq<char>;

/// Relies on `rustc_demangle::demangle`: turns a mangled symbol name into its
/// display form (the alternate rendering, without the trailing hash), and
/// hands back the input unchanged when it is not a mangled name.  The result
/// is a pure function of the input string.
#[verifier::external_body]
pub fn demangle_symbol(s: &str) -> (r: String)
    ensures
        r@ == demangled_of(s@),
{
    format!("{:#}", rustc_demangle::demangle(s))
}

/// Whether Unicode classes a character as alphanumeric.
pub uninterp spec fn unicode_alphanumeric(c: char) -> bool;

/// Relies on `char::is_alphanumeric` of std: a character class given by the
/// Unicode tables, depending on the character alone.
#[verifier::external_body]
pub fn char_is_alphanumeric(c: char) -> (r: bool)
    ensures
        r == unicode_alphanumeric(c),
{
    c.is_alphanumeric()
}

/// Relies on `String::push` of std: appends one character at the end.
pub assume_specification[ String::push ](s: &mut String, c: char)
    ensures
        final(s)@ == old(s)@.push(c),
;

} // verus!
