//! The hashing algorithm and the encoding that turn record contents into
//! record names.

use vstd::prelude::*;
use blake2::Digest;

use crate::error::RepositoryError;

verus! {

/// What the padded RFC 4648 base32 encoding makes of a byte sequence.
pub uninterp spec fn base32_of(b: Seq<u8>) -> Seq<char>;

/// The 160-bit BLAKE2b digest of a byte sequence.
pub uninterp spec fn blake2b_160_of(b: Seq<u8>) -> Seq<u8>;

/// Relies on `data_encoding::BASE32.encode`: padded base32 text of the bytes.
/// That function panics on inputs longer than `usize::MAX / 512`.
#[verifier::external_body]
fn base32_encode(b: &[u8]) -> (r: String)
    requires
        b@.len() <= usize::MAX / 512,
    ensures
        r@ == base32_of(b@),
{
    data_encoding::BASE32.encode(b)
}

/// Relies on `data_encoding::BASE32.decode`, which is documented to be the
/// inverse of `encode`: decoding an encoded sequence gives back that sequence.
#[verifier::external_body]
fn base32_decode(s: &str) -> (r: Result<Vec<u8>, data_encoding::DecodeError>)
    ensures
        forall|v: Seq<u8>| #[trigger] base32_of(v) == s@ ==> (r is Ok && r->Ok_0@ == v),
{
    data_encoding::BASE32.decode(s.as_bytes())
}

/// Relies on `blake2::Blake2b<U20>::digest`: a 20-byte digest of the data.
#[verifier::external_body]
fn blake2b_160(data: &[u8]) -> (r: Vec<u8>)
    ensures
        r@ == blake2b_160_of(data@),
        r@.len() == 20,
{
    blake2::Blake2b::<blake2::digest::consts::U20>::digest(data).to_vec()
}

/// Encoding of hashes into record names.
#[derive(PartialEq, Eq, Debug, Clone, Copy, Structural)]
pub enum Encoding {
    /// Padded RFC 4648 base32.
    Base32,
}

impl Encoding {
    pub open spec fn spec_encode(&self, b: Seq<u8>) -> Seq<char> {
        match self {
            Encoding::Base32 => base32_of(b),
        }
    }

    /// Encodes bytes as text.
    pub fn encode(&self, b: &[u8]) -> (r: String)
        requires
            b@.len() <= usize::MAX / 512,
        ensures
            r@ == self.spec_encode(b@),
    {
        match self {
            Encoding::Base32 => base32_encode(b),
        }
    }

    /// Decodes text produced by `encode`. Text that is the encoding of some
    /// bytes always decodes to exactly those bytes.
    pub fn decode(&self, s: &str) -> (r: Result<Vec<u8>, RepositoryError>)
        ensures
            forall|v: Seq<u8>| #[trigger] self.spec_encode(v) == s@ ==> (r is Ok && r->Ok_0@ == v),
            r is Err ==> r->Err_0 is BaseDecodeError,
    {
        match self {
            Encoding::Base32 => match base32_decode(s) {
                Ok(v) => Ok(v),
                Err(e) => Err(RepositoryError::BaseDecodeError(e)),
            },
        }
    }
}

impl Default for Encoding {
    fn default() -> (r: Self)
        ensures
            r == Encoding::Base32,
    {
        Encoding::Base32
    }
}

/// Hashing algorithm used to name records.
#[derive(PartialEq, Eq, Debug, Clone, Copy, Structural)]
pub enum HashingAlgorithm {
    /// BLAKE2b with a 160-bit digest.
    Blake2b,
}

impl HashingAlgorithm {
    pub open spec fn spec_hash(&self, data: Seq<u8>) -> Seq<u8> {
        match self {
            HashingAlgorithm::Blake2b => blake2b_160_of(data),
        }
    }

    pub open spec fn digest_len(&self) -> nat {
        match self {
            HashingAlgorithm::Blake2b => 20,
        }
    }

    /// Hashes a byte stream.
    pub fn hash(&self, data: &[u8]) -> (r: Vec<u8>)
        ensures
            r@ == self.spec_hash(data@),
            r@.len() == self.digest_len(),
    {
        match self {
            HashingAlgorithm::Blake2b => blake2b_160(data),
        }
    }
}

impl Default for HashingAlgorithm {
    fn default() -> (r: Self)
        ensures
            r == HashingAlgorithm::Blake2b,
    {
        HashingAlgorithm::Blake2b
    }
}

/// Generator of fresh item names.
#[derive(PartialEq, Eq, Debug, Clone, Copy, Structural)]
pub enum IdGenerator {
    /// Random (version 4) UUIDs in hyphenated form.
    Uuid,
}

impl Default for IdGenerator {
    fn default() -> (r: Self)
        ensures
            r == IdGenerator::Uuid,
    {
        IdGenerator::Uuid
    }
}

} // verus!
