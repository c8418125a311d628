//! Names for backup artifacts: random 128-bit identifiers in their
//! hyphenated lower-case text form.

use vstd::prelude::*;
use crate::path::{is_entry_name, join, joined};

verus! {

/// Whether `c` is a lower-case hexadecimal digit.
pub open spec fn is_lower_hex(c: char) -> bool {
    ('0' <= c && c <= '9') || ('a' <= c && c <= 'f')
}

/// Whether position `i` of a hyphenated identifier holds a hyphen.
pub open spec fn is_hyphen_position(i: int) -> bool {
    i == 8 || i == 13 || i == 18 || i == 23
}

/// The text shape of a hyphenated identifier: 36 characters, hyphens after
/// the groups of 8, 4, 4 and 4 digits, lower-case hexadecimal digits elsewhere.
pub open spec fn is_hyphenated_id(text: Seq<char>) -> bool {
    &&& text.len() == 36
    &&& forall|i: int|
        0 <= i < 36 ==> if is_hyphen_position(i) {
            #[trigger] text[i] == '-'
        } else {
            is_lower_hex(text[i])
        }
}

/// The text shape of a random identifier: a hyphenated identifier whose
/// third group starts with the version digit 4 and whose fourth group
/// starts with one of the variant digits 8, 9, a and b.
pub open spec fn is_random_id(text: Seq<char>) -> bool {
    &&& is_hyphenated_id(text)
    &&& text[14] == '4'
    &&& text[19] == '8' || text[19] == '9' || text[19] == 'a' || text[19] == 'b'
}

/// Draws a version-4 identifier with `uuid::Uuid::new_v4` and renders it with
/// `Hyphenated::encode_lower`.
///
/// Trusted: the text has the shape of a random identifier. Nothing is
/// claimed about which identifier is drawn; two calls may return anything of
/// that shape. The draw aborts the process if the host has no source of
/// randomness.
#[verifier::external_body]
pub(crate) fn fresh_id() -> (text: String)
    ensures
        is_random_id(text@),
{
    let mut buffer = uuid::Uuid::encode_buffer();
    let text: &str = uuid::Uuid::new_v4().to_hyphenated().encode_lower(&mut buffer);
    text.to_string()
}

/// A hyphenated identifier can name a directory entry.
pub proof fn lemma_id_is_entry_name(text: Seq<char>)
    requires
        is_hyphenated_id(text),
    ensures
        is_entry_name(text),
{
    assert forall|i: int| 0 <= i < text.len() implies text[i] != '/' by {
        if is_hyphen_position(i) {
            assert(text[i] == '-');
        } else {
            assert(is_lower_hex(text[i]));
        }
    }
    assert(text != seq!['.']) by {
        assert(seq!['.'].len() == 1);
    }
    assert(text != seq!['.', '.']) by {
        assert(seq!['.', '.'].len() == 2);
    }
}

/// Where the backup artifact called `name` lives under `temp_dir`.
pub fn backup_location(temp_dir: &str, name: &str) -> (path: String)
    ensures
        path@ == joined(temp_dir@, name@),
        name@.len() > 0 ==> path@.len() > 0,
{
    join(temp_dir, name)
}

} // verus!
