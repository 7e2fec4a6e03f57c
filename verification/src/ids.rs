//! Identifiers of subjects and entries: 128-bit UUIDs, written in the
//! canonical lower-case hyphenated form when stored as text.

use vstd::prelude::*;
use vstd::arithmetic::power2::pow2;

verus! {

/// The lower-case hexadecimal digit for a nibble value in `0..16`.
pub open spec fn hex_digit_lower(n: int) -> char {
    if n < 10 {
        (n + 48) as char
    } else {
        (n + 87) as char
    }
}

/// The `j`-th nibble of `id`, counted from the most significant one (`0..32`).
pub open spec fn uuid_nibble(id: u128, j: int) -> int {
    (id as int / pow2((4 * (31 - j)) as nat) as int) % 16
}

/// How many hyphens precede position `k` of the hyphenated form.
pub open spec fn hyphens_before(k: int) -> int {
    if k < 9 {
        0
    } else if k < 14 {
        1
    } else if k < 19 {
        2
    } else if k < 24 {
        3
    } else {
        4
    }
}

/// The hyphenated text of a UUID, such as `67e55044-10b1-426f-9247-bb680e5fe0c8`:
/// 32 lower-case hex digits, most significant first, grouped 8-4-4-4-12.
pub open spec fn uuid_hyphenated(id: u128) -> Seq<char> {
    Seq::new(
        36,
        |k: int|
            if k == 8 || k == 13 || k == 18 || k == 23 {
                '-'
            } else {
                hex_digit_lower(uuid_nibble(id, k - hyphens_before(k)))
            },
    )
}

/// The version field of a UUID (its 13th hex digit).
pub open spec fn uuid_version(id: u128) -> int {
    uuid_nibble(id, 12)
}

/// The two variant bits of a UUID (the top bits of its 17th hex digit).
pub open spec fn uuid_variant_bits(id: u128) -> int {
    uuid_nibble(id, 16) / 4
}

/// What `uuid::Uuid::parse_str` gives for a text, as a 128-bit value.
pub uninterp spec fn spec_parse_uuid(s: Seq<char>) -> Option<u128>;

/// Calls `uuid::Uuid::parse_str`. The result is named by `spec_parse_uuid`;
/// the one fact stated of it is that the hyphenated text of a UUID reads back
/// as that UUID (the crate accepts its own hyphenated output). Which other
/// texts it accepts (simple, braced and URN forms, upper case) is left unsaid.
#[verifier::external_body]
pub(crate) fn parse_uuid(s: &str) -> (r: Option<u128>)
    ensures
        r == spec_parse_uuid(s@),
        forall|u: u128| s@ == uuid_hyphenated(u) ==> r == Some(u),
{
    match uuid::Uuid::parse_str(s) {
        Ok(u) => Some(u.as_u128()),
        Err(_) => None,
    }
}

/// Calls `Uuid::to_string` (the `Display` impl, which writes the
/// lower-case hyphenated form) on the UUID with the given value. That text
/// is what `Uuid::parse_str` reads back as the same UUID.
#[verifier::external_body]
pub(crate) fn uuid_to_string(id: u128) -> (r: String)
    ensures
        r@ == uuid_hyphenated(id),
        spec_parse_uuid(r@) == Some(id),
{
    uuid::Uuid::from_u128(id).to_string()
}

/// Calls `uuid::Uuid::now_v7`. The value depends on the clock and on a
/// random source; all that is stated is that it carries version 7 and the
/// RFC 4122 variant bits (`10`), as the crate's encoder always sets them.
#[verifier::external_body]
pub(crate) fn new_uuid_v7() -> (r: u128)
    ensures
        uuid_version(r) == 7,
        uuid_variant_bits(r) == 2,
{
    uuid::Uuid::now_v7().as_u128()
}

/// Calls `uuid::Uuid::now_v7` `n` times, in order. Besides the version and
/// variant bits of each id, the crate documents that the UUIDs one process
/// makes this way are ordered by their creation (its shared v7 context
/// keeps a counter for ids made within the same millisecond), so the ids
/// come out strictly increasing. Their values depend on the clock and on a
/// random source, and nothing is stated of how they compare with ids made
/// by another process.
#[verifier::external_body]
pub(crate) fn new_uuid_v7_batch(n: usize) -> (r: Vec<u128>)
    ensures
        r@.len() == n,
        forall|k: int| 0 <= k < n ==> uuid_version(#[trigger] r@[k]) == 7,
        forall|k: int| 0 <= k < n ==> uuid_variant_bits(#[trigger] r@[k]) == 2,
        forall|i: int, j: int| 0 <= i < j < n ==> #[trigger] r@[i] < #[trigger] r@[j],
{
    (0..n).map(|_| uuid::Uuid::now_v7().as_u128()).collect()
}

} // verus!
