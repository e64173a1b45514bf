//! Naming the files of an uploaded object: written under a temporary name,
//! committed by renaming to its UUID's canonical form.
use vstd::prelude::*;
use vstd::string::StringExecFns;

verus! {

/// The lowercase hexadecimal digit of `n` (below 16).
pub open spec fn hex_digit(n: u128) -> char {
    seq!['0', '1', '2', '3', '4', '5', '6', '7', '8', '9', 'a', 'b', 'c', 'd', 'e', 'f'][n as int]
}

/// Which hexadecimal digit of the value stands at place `i` of the text,
/// the hyphens skipped.
pub open spec fn digit_at(i: int) -> int {
    if i < 8 {
        i
    } else if i < 13 {
        i - 1
    } else if i < 18 {
        i - 2
    } else if i < 23 {
        i - 3
    } else {
        i - 4
    }
}

/// The canonical hyphenated text of a UUID value: its 32 hexadecimal
/// digits, most significant first, lowercase, with hyphens at places 8, 13,
/// 18 and 23.
pub open spec fn hyphenated_of(v: u128) -> Seq<char> {
    Seq::new(
        36,
        |i: int|
            if i == 8 || i == 13 || i == 18 || i == 23 {
                '-'
            } else {
                hex_digit((v >> ((124 - 4 * digit_at(i)) as u128)) & 0xf)
            },
    )
}

/// Relies on uuid's `Uuid::from_u128` (the value's bytes, most significant
/// first) and the `Display` of `Uuid::hyphenated` (lowercase hexadecimal
/// digits of those bytes in groups of 8, 4, 4, 4 and 12, joined by hyphens).
#[verifier::external_body]
fn hyphenated(v: u128) -> (r: String)
    ensures
        r@ == hyphenated_of(v),
{
    uuid::Uuid::from_u128(v).hyphenated().to_string()
}

/// The suffix of an object's name until it is committed.
pub open spec fn temp_suffix() -> Seq<char> {
    seq!['.', 't', 'm', 'p']
}

/// The name of the object `id` in the repository directory.
pub fn object_file_name(id: u128) -> (r: String)
    ensures
        r@ == hyphenated_of(id),
        r@.len() == 36,
{
    hyphenated(id)
}

/// The temporary name that goes with an object's name: the name and `.tmp`.
pub fn temp_name_for(object_name: String) -> (r: String)
    ensures
        r@ == object_name@ + temp_suffix(),
{
    let r = object_name.concat(".tmp");
    proof {
        reveal_strlit(".tmp");
        assert(".tmp"@ =~= temp_suffix());
    }
    r
}

/// The name the object `id` is written under until it is committed.
pub fn temp_file_name(id: u128) -> (r: String)
    ensures
        r@ == hyphenated_of(id) + temp_suffix(),
        r@.len() == 40,
{
    temp_name_for(hyphenated(id))
}

} // verus!
