//! Generation of item identifiers

use vstd::prelude::*;

verus! {

/// A lower-case hexadecimal digit
pub open spec fn lower_hex_digit(c: char) -> bool {
    (48 <= (c as u32) <= 57) || (97 <= (c as u32) <= 102)
}

/// Whether `i` is the position of one of the four hyphens of a hyphenated
/// UUID
pub open spec fn hyphen_position(i: int) -> bool {
    i == 8 || i == 13 || i == 18 || i == 23
}

/// The text of a version 4 UUID in its hyphenated lower-case form: 36
/// characters, hyphens after the 8th, 12th, 16th and 20th hex digit, the
/// version digit `4`, and a variant digit among `8`, `9`, `a` and `b`
pub open spec fn uuid_v4_text(s: Seq<char>) -> bool {
    &&& s.len() == 36
    &&& forall|i: int| 0 <= i < 36 ==> (if hyphen_position(i) { s[i] == '-' } else { lower_hex_digit(#[trigger] s[i]) })
    &&& s[14] == '4'
    &&& (s[19] == '8' || s[19] == '9' || s[19] == 'a' || s[19] == 'b')
}

/// Calls `uuid::Uuid::new_v4` and writes the result with
/// `hyphenated().to_string()`. The value is random: only its shape is stated.
/// (The crate panics where the system offers no random bytes.)
#[verifier::external_body]
fn random_uuid_text() -> (s: String)
    ensures
        uuid_v4_text(s@),
{
    uuid::Uuid::new_v4().hyphenated().to_string()
}

/// How item identifiers are generated
#[derive(Debug, Clone, Copy, PartialEq, Eq, Structural)]
pub enum IdGenerator {
    /// UUID v4 (random)
    UUIDv4,
}

impl Default for IdGenerator {
    fn default() -> (g: IdGenerator)
        ensures
            g == IdGenerator::UUIDv4,
    {
        IdGenerator::UUIDv4
    }
}

impl IdGenerator {
    /// A new identifier; for `UUIDv4`, a random UUID in hyphenated form
    pub fn generate(&self) -> (s: String)
        ensures
            uuid_v4_text(s@),
    {
        match self {
            IdGenerator::UUIDv4 => random_uuid_text(),
        }
    }
}

} // verus!
