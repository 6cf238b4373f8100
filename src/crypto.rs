//! The primitives of the onion format: AES-128 in counter mode, HMAC-SHA3-256, Shamir secret
//! sharing of the layer nonces, and the random source.
use aes::cipher::{KeyIvInit, StreamCipher};
use hmac::{Hmac, Mac};
use rand::rngs::StdRng;
use rand::Rng;
use sha3::{Digest, Sha3_256};
use shamir_secret_sharing::num_bigint::{BigInt, Sign};
use shamir_secret_sharing::ShamirSecretSharing;
use vstd::prelude::*;

verus! {

/// Byte `position` of the AES-128 key stream in counter mode (64-bit little-endian block
/// counter) for a key and an initial counter block.
pub uninterp spec fn aes128_ctr_keystream(key: Seq<u8>, iv: Seq<u8>, position: nat) -> u8;

/// The secret that Lagrange interpolation at zero over the prime field recovers from the shares
/// `(xs[i], ys[i])`, as a little-endian integer.
pub uninterp spec fn shamir_interpolated(prime: Seq<u8>, xs: Seq<usize>, ys: Seq<Seq<u8>>) -> Seq<u8>;

/// The SHA3-256 digest of a message.
pub uninterp spec fn sha3_256(message: Seq<u8>) -> Seq<u8>;

/// HMAC-SHA3-256 of a message under a key.
pub uninterp spec fn hmac_sha3_256(key: Seq<u8>, message: Seq<u8>) -> Seq<u8>;

/// The data XORed with the key stream, byte by byte from the start of the stream.
pub open spec fn xor_keystream(key: Seq<u8>, iv: Seq<u8>, data: Seq<u8>) -> Seq<u8> {
    Seq::new(data.len(), |i: int| data[i] ^ aes128_ctr_keystream(key, iv, i as nat))
}

/// Relies on `ctr::Ctr64LE<aes::Aes128>`: `KeyIvInit::new` starts the stream at its beginning and
/// `StreamCipher::apply_keystream` XORs byte `i` of the buffer with byte `i` of the stream.
#[verifier::external_body]
pub(crate) fn aes128_ctr_apply(key: &[u8; 16], iv: &[u8; 16], data: &mut Vec<u8>)
    ensures
        final(data)@ == Seq::new(
            old(data)@.len(),
            |i: int| old(data)@[i] ^ aes128_ctr_keystream(key@, iv@, i as nat),
        ),
{
    let mut cipher = ctr::Ctr64LE::<aes::Aes128>::new(key.into(), iv.into());
    cipher.apply_keystream(data.as_mut_slice());
}

/// Relies on `hmac::Hmac<sha3::Sha3_256>`: `new_from_slice` accepts a key of any length, and
/// `finalize` returns the 32 bytes of the MAC of what was fed to `update`.
#[verifier::external_body]
pub(crate) fn hmac_sha3_256_of(key: &[u8], message: &[u8]) -> (r: [u8; 32])
    ensures
        r@ == hmac_sha3_256(key@, message@),
{
    let mut mac = <Hmac<Sha3_256> as Mac>::new_from_slice(key).unwrap();
    mac.update(message);
    mac.finalize().into_bytes().into()
}

#[verifier::external_type_specification]
#[verifier::external_body]
pub struct ExStdRng(StdRng);

/// The value of a little-endian byte string.
pub open spec fn le_value(s: Seq<u8>) -> nat
    decreases s.len(),
{
    if s.len() == 0 {
        0
    } else {
        (s[0] + 256 * le_value(s.drop_first())) as nat
    }
}

/// Relies on `rand::Rng::gen`: sixteen bytes from the generator.
#[verifier::external_body]
pub(crate) fn random_nonce(rng: &mut StdRng) -> (r: [u8; 16]) {
    rng.gen()
}

/// Relies on `shamir_secret_sharing::ShamirSecretSharing::split`: the shares of the secret (a
/// little-endian integer) at `x = 1..=share_amount`, in that order, under a polynomial of degree
/// `threshold - 1` over the prime field. Every share is reduced modulo the prime, and
/// `BigInt::to_bytes_le` writes no byte above the highest non-zero one, so a share never takes
/// more bytes than the prime. The integers pass as little-endian bytes.
#[verifier::external_body]
pub(crate) fn shamir_split(prime: &[u8], threshold: usize, share_amount: usize, secret: &[u8]) -> (r: Vec<(usize, Vec<u8>)>)
    requires
        1 <= threshold < share_amount,
        le_value(prime@) >= 2,
    ensures
        r.len() == share_amount,
        forall|i: int| 0 <= i < r.len() ==> (#[trigger] r[i]).0 == i + 1,
        forall|i: int| 0 <= i < r.len() ==> (#[trigger] r[i]).1.len() <= prime.len(),
        forall|i: int| 0 <= i < r.len() ==> le_value((#[trigger] r[i]).1@) < le_value(prime@),
{
    let sharing = ShamirSecretSharing { threshold, share_amount, prime: BigInt::from_bytes_le(Sign::Plus, prime) };
    sharing.split(BigInt::from_bytes_le(Sign::Plus, secret))
        .into_iter()
        .map(|(x, y)| (x, y.to_bytes_le().1))
        .collect()
}

/// Relies on `shamir_secret_sharing::ShamirSecretSharing::recover`: Lagrange interpolation at
/// zero of the shares over the prime field, which yields the secret when the shares are those
/// that `split` made. The integers pass as little-endian bytes.
#[verifier::external_body]
pub(crate) fn shamir_recover(prime: &[u8], threshold: usize, share_amount: usize, shares: &[(usize, Vec<u8>)]) -> (r: Vec<u8>)
    requires
        shares.len() == threshold,
        le_value(prime@) >= 2,
    ensures
        r@ == shamir_interpolated(
            prime@,
            shares@.map_values(|p: (usize, Vec<u8>)| p.0),
            shares@.map_values(|p: (usize, Vec<u8>)| p.1@),
        ),
{
    let sharing = ShamirSecretSharing { threshold, share_amount, prime: BigInt::from_bytes_le(Sign::Plus, prime) };
    let shares: Vec<(usize, BigInt)> =
        shares.iter().map(|(x, y)| (*x, BigInt::from_bytes_le(Sign::Plus, y))).collect();
    sharing.recover(&shares).to_bytes_le().1
}

/// Relies on `sha3::Sha3_256` (`Digest::digest`): the 32 bytes of the digest of the message.
#[verifier::external_body]
pub(crate) fn sha3_256_of(message: &[u8]) -> (r: [u8; 32])
    ensures
        r@ == sha3_256(message@),
{
    Sha3_256::digest(message).into()
}

} // verus!
