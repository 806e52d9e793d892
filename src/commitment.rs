//! Commitment hashing for commit-reveal votes.
//!
//! A commitment is the 256-bit BLAKE2b digest of the voter's account id
//! (SCALE-encoded, eight little-endian bytes), followed by the 32-byte
//! secret, followed by the 32-byte outcome. The same encoding is used when
//! a commitment is computed and when a reveal is checked against it.

use vstd::prelude::*;

verus! {

/// A 32-byte value: a vote outcome, a secret or a commitment.
pub type VoteOutcome = [u8; 32];

/// The eight bytes of `x`, least significant first.
pub open spec fn u64_le_bytes(x: u64) -> Seq<u8> {
    seq![
        (x % 0x100) as u8,
        ((x / 0x100) % 0x100) as u8,
        ((x / 0x1_0000) % 0x100) as u8,
        ((x / 0x100_0000) % 0x100) as u8,
        ((x / 0x1_0000_0000) % 0x100) as u8,
        ((x / 0x100_0000_0000) % 0x100) as u8,
        ((x / 0x1_0000_0000_0000) % 0x100) as u8,
        ((x / 0x100_0000_0000_0000) % 0x100) as u8,
    ]
}

/// The 256-bit BLAKE2b digest (no key) of a byte string.
pub uninterp spec fn blake2_256_of(data: Seq<u8>) -> Seq<u8>;

/// The bytes that a commitment hashes: account, then secret, then outcome.
pub open spec fn commitment_preimage(sender: u64, secret: Seq<u8>, outcome: Seq<u8>) -> Seq<u8> {
    u64_le_bytes(sender) + secret + outcome
}

/// The commitment of `sender` to `outcome` under `secret`.
pub open spec fn commitment_spec(sender: u64, secret: Seq<u8>, outcome: Seq<u8>) -> Seq<u8> {
    blake2_256_of(commitment_preimage(sender, secret, outcome))
}

/// Relies on parity_codec's `Encode` for `u64`: the value's eight bytes,
/// least significant first.
#[verifier::external_body]
fn encode_account(account: u64) -> (r: Vec<u8>)
    ensures
        r@ == u64_le_bytes(account),
{
    parity_codec::Encode::encode(&account)
}

/// Relies on parity_codec's `Encode` for `[u8; 32]`: the 32 bytes as they
/// stand, with no length prefix.
#[verifier::external_body]
fn encode_bytes32(value: &VoteOutcome) -> (r: Vec<u8>)
    ensures
        r@ == value@,
{
    parity_codec::Encode::encode(value)
}

/// Relies on blake2_rfc::blake2b::blake2b with a 32-byte output and an
/// empty key: the digest depends on the input bytes alone.
#[verifier::external_body]
fn blake2_256(data: &Vec<u8>) -> (r: VoteOutcome)
    ensures
        r@ == blake2_256_of(data@),
{
    let digest = blake2_rfc::blake2b::blake2b(32, &[], data.as_slice());
    let mut out = [0u8; 32];
    out.copy_from_slice(digest.as_bytes());
    out
}

/// The commitment that `sender` submits to vote for `outcome`, hiding it
/// under `secret`.
pub fn commitment_of(sender: u64, secret: &VoteOutcome, outcome: &VoteOutcome) -> (r: VoteOutcome)
    ensures
        r@ == commitment_spec(sender, secret@, outcome@),
{
    let mut buf = encode_account(sender);
    let mut s = encode_bytes32(secret);
    let mut o = encode_bytes32(outcome);
    buf.append(&mut s);
    buf.append(&mut o);
    blake2_256(&buf)
}

/// Whether two 32-byte values are equal, compared byte for byte.
pub fn bytes32_eq(a: &VoteOutcome, b: &VoteOutcome) -> (r: bool)
    ensures
        r == (a@ == b@),
        r == (*a == *b),
{
    let mut i: usize = 0;
    while i < 32
        invariant
            0 <= i <= 32,
            forall|j: int| 0 <= j < i ==> a@[j] == b@[j],
        decreases 32 - i,
    {
        if a[i] != b[i] {
            assert(a@[i as int] != b@[i as int]);
            return false;
        }
        i += 1;
    }
    assert(a@ =~= b@);
    proof {
        broadcast use vstd::array::group_array_axioms;
        assert(*a =~= *b);
    }
    true
}

} // verus!
