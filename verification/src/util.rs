//! Name helpers working on the raw stored name parts.

use vstd::prelude::*;
use vstd::string::StringSliceAdditionalSpecFns;

use crate::error::FsError;
use crate::name::encode_name_bytes;
use crate::name::reserved_component;
use crate::name::short_name_spec;
use crate::name::upper_chars;
use crate::name::decoded_text;
use crate::name::lossy_string;
use crate::name::to_ascii_uppercase;

verus! {

/// Encodes an 8.3 name into its stored, space-padded, upper-case base and extension.
pub fn encode_short_name(name: &str) -> (r: Result<([u8; 8], [u8; 3]), FsError>)
    ensures
        match short_name_spec(name.spec_bytes()) {
            Some((base, ext)) => r is Ok && (r->Ok_0).0@ == base && (r->Ok_0).1@ == ext,
            None => (r matches Err(FsError::InvalidName(s)) && s@ == name@),
        },
{
    match encode_name_bytes(name.as_bytes()) {
        Some(parts) => Ok(parts),
        None => Err(FsError::InvalidName(name.to_owned())),
    }
}

/// The stored bytes with trailing spaces removed.
pub open spec fn trim_trailing_spaces(b: Seq<u8>) -> Seq<u8>
    decreases b.len(),
{
    if b.len() > 0 && b.last() == 32 {
        trim_trailing_spaces(b.drop_last())
    } else {
        b
    }
}

/// The text of a stored name part: its bytes without the trailing spaces.
pub fn decode_name_part(bytes: &[u8]) -> (s: String)
    ensures
        s@ == decoded_text(trim_trailing_spaces(bytes@)),
{
    let mut end = bytes.len();
    assert(bytes@.take(bytes@.len() as int) =~= bytes@);
    while end > 0 && bytes[end - 1] == 32
        invariant
            end <= bytes@.len(),
            trim_trailing_spaces(bytes@.take(end as int)) == trim_trailing_spaces(bytes@),
        decreases end,
    {
        assert(bytes@.take(end as int).drop_last() =~= bytes@.take(end - 1));
        end -= 1;
    }
    assert(trim_trailing_spaces(bytes@.take(end as int)) == bytes@.take(end as int));
    let part = vstd::slice::slice_subrange(bytes, 0, end);
    assert(part@ =~= bytes@.take(end as int));
    lossy_string(part)
}

/// Checks that `component` is a usable 8.3 name and returns it in upper case; the same check as
/// [`crate::name::normalize_component`], which it calls.
pub fn normalize_component(component: &str) -> (r: Result<String, FsError>)
    ensures
        !reserved_component(component@) && short_name_spec(component.spec_bytes()) is Some ==> r
            is Ok && r->Ok_0@ == upper_chars(component@),
        reserved_component(component@) || short_name_spec(component.spec_bytes()) is None ==> (r
            matches Err(FsError::InvalidName(s)) && s@ == component@),
{
    crate::name::normalize_component(component)
}

} // verus!
