//! Binary identifier encodings

use vstd::prelude::*;

verus! {

/// What `data_encoding::BASE32.encode` returns for the given bytes.
pub uninterp spec fn base32_encoded(data: Seq<u8>) -> Seq<char>;

/// What `data_encoding::BASE32.decode` returns for the bytes of the given text
/// (`None` when it reports an error).
pub uninterp spec fn base32_decoded(text: Seq<char>) -> Option<Seq<u8>>;

/// Available encodings
#[derive(Debug, Clone, Copy, PartialEq, Eq, Structural)]
pub enum Encoding {
    /// Base32 encoding (RFC 4648, with padding)
    Base32,
}

/// Calls `data_encoding::BASE32.encode`. The crate documents that its encodings
/// are correct (decoding the output gives back the input) and that BASE32
/// conforms to RFC 4648: every character is one of `A`-`Z`, `2`-`7` or `=`.
/// `encode_len` may panic above `usize::MAX / 512` input bytes.
#[verifier::external_body]
fn base32_encode(data: &[u8]) -> (res: String)
    requires
        data@.len() <= usize::MAX / 512,
    ensures
        res@ == base32_encoded(data@),
        base32_decoded(res@) == Some(data@),
{
    data_encoding::BASE32.encode(data)
}

/// Calls `data_encoding::BASE32.decode` on the UTF-8 bytes of `text` and keeps
/// only whether it succeeded and what it produced. `decode_len`, which
/// `decode` calls, asserts that the input is at most `usize::MAX / 8` bytes
/// long; the output is truncated to at most `decode_len` bytes, which for
/// BASE32 is five eighths of the input length.
#[verifier::external_body]
fn base32_decode(text: &str) -> (res: Option<Vec<u8>>)
    requires
        vstd::utf8::encode_utf8(text@).len() <= usize::MAX / 8,
    ensures
        res matches Some(v) ==> base32_decoded(text@) == Some(v@) && v@.len() <= vstd::utf8::encode_utf8(text@).len(),
        res is None ==> base32_decoded(text@) is None,
{
    data_encoding::BASE32.decode(text.as_bytes()).ok()
}

impl Encoding {
    /// The default encoding
    pub fn default_encoding() -> (e: Encoding)
        ensures
            e == Encoding::Base32,
    {
        Encoding::Base32
    }

    /// Number of bits carried by one character of the encoding
    pub open spec fn spec_bit_width(self) -> nat {
        match self {
            Encoding::Base32 => 5,
        }
    }

    /// Number of bits carried by one character of the encoding
    pub fn bit_width(&self) -> (w: usize)
        ensures
            w == self.spec_bit_width(),
    {
        match self {
            Encoding::Base32 => 5,
        }
    }

    /// Spec of `encode`
    pub open spec fn spec_encode(self, data: Seq<u8>) -> Seq<char> {
        match self {
            Encoding::Base32 => base32_encoded(data),
        }
    }

    /// Spec of `decode`
    pub open spec fn spec_decode(self, text: Seq<char>) -> Option<Seq<u8>> {
        match self {
            Encoding::Base32 => base32_decoded(text),
        }
    }

    /// Encodes bytes into text
    pub fn encode(&self, data: &[u8]) -> (res: String)
        requires
            data@.len() <= usize::MAX / 512,
        ensures
            res@ == self.spec_encode(data@),
            self.spec_decode(res@) == Some(data@),
    {
        match self {
            Encoding::Base32 => base32_encode(data),
        }
    }

    /// Decodes text into bytes, `None` if the text is not a valid encoding
    pub fn decode(&self, text: &str) -> (res: Option<Vec<u8>>)
        requires
            vstd::utf8::encode_utf8(text@).len() <= usize::MAX / 8,
        ensures
            res matches Some(v) ==> self.spec_decode(text@) == Some(v@) && v@.len() <= vstd::utf8::encode_utf8(text@).len(),
            res is None ==> self.spec_decode(text@) is None,
    {
        match self {
            Encoding::Base32 => base32_decode(text),
        }
    }
}

} // verus!
