//! Constants for the delimiter in a search-path variable, in each of the
//! type-preserving forms the rest of the crate needs.
//!
//! All forms are derived from one canonical byte value, so they are
//! definitionally equal; [`lemma_separator_forms_agree`] records that fact.

use vstd::prelude::*;
use crate::sys::byte_repr::NativeString;

verus! {

/// The search-path separator as a byte.
pub const U8: u8 = 58;

/// The search-path separator as a character.
pub const CHAR: char = ':';

/// The search-path separator as a string.
pub const STR: &'static str = ":";

/// The search-path separator as a platform-native string.
pub fn os_str() -> (r: NativeString)
    ensures
        r@ == seq![U8],
{
    let mut r = NativeString::new();
    r.push_byte(U8);
    proof {
        assert(r@ =~= seq![U8]);
    }
    r
}

/// The byte, character and string forms of the separator denote the same
/// value.
pub proof fn lemma_separator_forms_agree()
    ensures
        CHAR as u8 == U8,
        STR@ == seq![CHAR],
{
    reveal_strlit(":");
    assert(STR@ =~= seq![CHAR]);
}

} // verus!
