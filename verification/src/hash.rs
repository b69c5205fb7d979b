//! SIT uses hashing for content-addressable entities (such as records)

use vstd::prelude::*;

verus! {

/// The BLAKE2b digest of `data` with an output of `size` bytes, as computed by
/// `blake2::Blake2bVar`.
pub uninterp spec fn blake2b_digest(size: nat, data: Seq<u8>) -> Seq<u8>;

/// The SHA-1 digest of `data`, as computed by `sha1::Sha1`.
pub uninterp spec fn sha1_digest(data: Seq<u8>) -> Seq<u8>;

/// Computes BLAKE2b over `data` with `blake2::Blake2bVar` (`new`, `update`,
/// `finalize_variable`). `Blake2bVar::new` refuses output sizes above 64 bytes;
/// the output buffer has exactly `size` bytes, so `finalize_variable` succeeds.
/// The contract states the output length and names the digest.
#[verifier::external_body]
fn blake2b(size: usize, data: &[u8]) -> (res: Vec<u8>)
    requires
        1 <= size <= 64,
    ensures
        res@ == blake2b_digest(size as nat, data@),
        res@.len() == size,
{
    let mut hasher = <blake2::Blake2bVar as blake2::digest::VariableOutput>::new(size).unwrap();
    blake2::digest::Update::update(&mut hasher, data);
    let mut out = vec![0u8; size];
    blake2::digest::VariableOutput::finalize_variable(hasher, &mut out).unwrap();
    out
}

/// Computes SHA-1 over `data` with `sha1::Sha1` (`new`, `update`, `finalize`),
/// whose output is always 20 bytes long.
#[verifier::external_body]
fn sha1(data: &[u8]) -> (res: Vec<u8>)
    ensures
        res@ == sha1_digest(data@),
        res@.len() == 20,
{
    let mut hasher = <sha1::Sha1 as sha1::Digest>::new();
    sha1::Digest::update(&mut hasher, data);
    sha1::Digest::finalize(hasher).to_vec()
}

/// Enumerates known hashing algorithms
#[derive(Debug, Clone, Copy, PartialEq, Eq, Structural)]
pub enum HashingAlgorithm {
    /// BLAKE2b algorithm
    Blake2b {
        /// digest size
        size: usize,
    },
    /// SHA-1 algorithm
    SHA1,
}

impl HashingAlgorithm {
    /// The default algorithm: BLAKE2b with a 20-byte digest
    pub fn default_algorithm() -> (a: HashingAlgorithm)
        ensures
            a == (HashingAlgorithm::Blake2b { size: 20 }),
    {
        HashingAlgorithm::Blake2b { size: 20 }
    }

    /// Whether a hasher can be created for this algorithm
    pub open spec fn valid(self) -> bool {
        match self {
            HashingAlgorithm::Blake2b { size } => 1 <= size <= 64,
            HashingAlgorithm::SHA1 => true,
        }
    }

    /// Length of the digest in bytes
    pub open spec fn spec_len(self) -> nat {
        match self {
            HashingAlgorithm::Blake2b { size } => size as nat,
            HashingAlgorithm::SHA1 => 20,
        }
    }

    /// Length of the digest in bytes
    pub fn len(&self) -> (n: usize)
        ensures
            n == self.spec_len(),
    {
        match self {
            HashingAlgorithm::Blake2b { size } => *size,
            HashingAlgorithm::SHA1 => 20,
        }
    }

    /// The digest of `data` under this algorithm
    pub open spec fn digest(self, data: Seq<u8>) -> Seq<u8> {
        match self {
            HashingAlgorithm::Blake2b { size } => blake2b_digest(size as nat, data),
            HashingAlgorithm::SHA1 => sha1_digest(data),
        }
    }

    /// Creates a [`Hasher`] for the algorithm
    pub fn hasher(&self) -> (h: Hasher)
        requires
            self.valid(),
        ensures
            h.algorithm() == *self,
            h.input() == Seq::<u8>::empty(),
    {
        Hasher { algorithm: *self, input: Vec::new() }
    }
}

/// A hasher: collects the input it is fed and produces the digest of all of it
pub struct Hasher {
    algorithm: HashingAlgorithm,
    input: Vec<u8>,
}

impl Hasher {
    /// The algorithm of this hasher
    pub closed spec fn algorithm(self) -> HashingAlgorithm {
        self.algorithm
    }

    /// Everything processed so far, in order
    pub closed spec fn input(self) -> Seq<u8> {
        self.input@
    }

    /// Process stream input
    pub fn process(&mut self, data: &[u8])
        ensures
            final(self).algorithm() == old(self).algorithm(),
            final(self).input() == old(self).input() + data@,
    {
        self.input.extend_from_slice(data);
    }

    /// Produce the hash of everything processed
    pub fn result(self) -> (res: Vec<u8>)
        requires
            self.algorithm().valid(),
        ensures
            res@ == self.algorithm().digest(self.input()),
            res@.len() == self.algorithm().spec_len(),
    {
        match self.algorithm {
            HashingAlgorithm::Blake2b { size } => blake2b(size, self.input.as_slice()),
            HashingAlgorithm::SHA1 => sha1(self.input.as_slice()),
        }
    }

    /// Produce the hash of everything processed (same as [`result`])
    pub fn result_box(self) -> (res: Vec<u8>)
        requires
            self.algorithm().valid(),
        ensures
            res@ == self.algorithm().digest(self.input()),
            res@.len() == self.algorithm().spec_len(),
    {
        self.result()
    }
}

} // verus!
