//! Character-level helpers the library relies on from the standard
//! library: appending one character to a `String`, and turning a code
//! point back into a `char`.

use vstd::prelude::*;

verus! {

/// Whether `u` is a Unicode scalar value, i.e. the code of some `char`:
/// any code point except the surrogate range.
pub open spec fn valid_code(u: u32) -> bool {
    u < 0xD800 || (0xE000 <= u && u <= 0x10FFFF)
}

/// Every `char` carries a valid scalar value, and casting it to `u32`
/// and back is the identity.
pub proof fn lemma_char_code(c: char)
    ensures
        valid_code(c as u32),
        ((c as u32) as char) == c,
{
    vstd::utf8::char_is_scalar(c);
    vstd::utf8::char_u32_cast(c, c as u32);
}

/// Relies on `String::push`: appends exactly the given character at the
/// end of the string.
#[verifier::external_body]
pub fn push_char(s: &mut String, c: char)
    ensures
        final(s)@ == old(s)@.push(c),
{
    s.push(c);
}

/// Relies on `char::from_u32`: returns the character with code `u`
/// exactly when `u` is a Unicode scalar value, and `None` otherwise.
#[verifier::external_body]
pub fn char_from_code(u: u32) -> (c: Option<char>)
    ensures
        c == if valid_code(u) {
            Some(u as char)
        } else {
            None::<char>
        },
{
    char::from_u32(u)
}

} // verus!
