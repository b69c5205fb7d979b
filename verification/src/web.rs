//! Decisions of the web interface: whether a record submitted through it
//! links to the latest records, and the entity tag of the content it serves

use vstd::prelude::*;
use crate::hash::{blake2b_digest, HashingAlgorithm};
use crate::text::{chars_of, is_prefix};

verus! {

/// A lower-case hexadecimal digit for a value under 16
pub open spec fn hex_digit(v: int) -> char {
    if v < 10 {
        (48 + v) as char
    } else {
        (87 + v) as char
    }
}

/// Bytes written as lower-case hexadecimal, two digits per byte, high
/// digit first
pub open spec fn hex_lower(data: Seq<u8>) -> Seq<char>
    decreases data.len(),
{
    if data.len() == 0 {
        Seq::empty()
    } else {
        let b = data.last() as int;
        hex_lower(data.drop_last()) + seq![hex_digit(b / 16), hex_digit(b % 16)]
    }
}

/// Calls `hex::encode`, which writes every byte as two lower-case hex
/// digits, high digit first
#[verifier::external_body]
fn hex_encode(data: &[u8]) -> (res: String)
    ensures
        res@ == hex_lower(data@),
{
    hex::encode(data)
}

/// The entity tag of served content: its 20-byte BLAKE2b digest in
/// lower-case hexadecimal
pub fn etag(content: &[u8]) -> (res: String)
    ensures
        res@ == hex_lower(blake2b_digest(20, content@)),
{
    let mut hasher = HashingAlgorithm::Blake2b { size: 20 }.hasher();
    hasher.process(content);
    proof {
        assert(Seq::<u8>::empty() + content@ == content@);
    }
    let digest = hasher.result();
    hex_encode(digest.as_slice())
}

/// Whether a record submitted through the web interface links to the latest
/// records: unless one of its files already is a link (`.prev/...`)
pub fn submitted_record_links_parents(names: &Vec<String>) -> (res: bool)
    ensures
        res == !(exists|i: int| 0 <= i < names@.len() && is_prefix(".prev/"@, #[trigger] names@[i]@)),
{
    proof {
        reveal_strlit(".prev/");
    }
    let prefix = chars_of(".prev/");
    let mut i: usize = 0;
    while i < names.len()
        invariant
            i <= names@.len(),
            prefix@ == ".prev/"@,
            forall|k: int| 0 <= k < i ==> !is_prefix(".prev/"@, #[trigger] names@[k]@),
        decreases names@.len() - i,
    {
        let cs = chars_of(names[i].as_str());
        if crate::text::starts_with(cs.as_slice(), prefix.as_slice()) {
            return false;
        }
        i = i + 1;
    }
    true
}

} // verus!
