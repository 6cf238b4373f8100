//! The onion format: layered encryption of a header and a payload, one layer per hop.
//!
//! Each layer is keyed by a 16-byte nonce. The header holds one slot per hop; a slot holds the
//! hop's delay, the MAC tag of the layer, and the identity and shares of the next layer.
use crate::crypto::{
    aes128_ctr_apply, aes128_ctr_keystream, hmac_sha3_256, hmac_sha3_256_of, le_value,
    random_nonce, shamir_interpolated, shamir_recover, shamir_split, xor_keystream,
};
use crate::hibe::{hibe_decrypt, hibe_encrypt, hibe_payload, hibe_plaintext, node_bits, NodenameMapper};
use crate::nodename::{leaf_of, HIERARCHY_DEPTH, NodeName};
use hohibe::kem::{PrivateKey, PublicKey};
use rand::rngs::StdRng;
use vstd::prelude::*;

verus! {

pub type Identity = u64;

pub type Tag = [u8; 32];

/// Bytes of the little-endian integer that a share of a nonce is (the prime has 160 bits).
pub const INT_SIZE: usize = 20;

/// Bytes that hybrid HIBE encryption adds: a G1 point, a G2 point and a length prefix.
pub const HIBE_OVERHEAD: usize = 152;

/// Bytes of one encrypted share.
pub const SHARE_SIZE: usize = 172;

/// Bytes of the tag.
pub const TAG_SIZE: usize = 32;

/// Bytes of a hop's information that the tag covers: the delay.
pub const HOP_MACCED_PREFIX_LEN: usize = 4;

/// Bytes of a hop's information: the delay, then the tag.
pub const HOP_INFO_SIZE: usize = 36;

/// One share of a layer's nonce, encrypted to the hop's identity. All zero bytes when the slot
/// holds no share.
#[derive(Clone, Copy, Debug, PartialEq, Eq)]
pub struct Share(pub [u8; SHARE_SIZE]);

#[derive(Clone, Debug)]
pub struct Onion {
    pub identity: Identity,
    pub shares: Vec<Share>,
    pub header: Vec<u8>,
    pub payload: Vec<u8>,
}

/// What a hop learns when it removes its layer.
#[derive(Clone, Copy, Debug, PartialEq, Eq)]
pub struct HopInfo {
    pub delay: u32,
    pub tag: Tag,
}

#[derive(Clone, Copy, Debug, PartialEq, Eq)]
pub enum FormatError {
    /// The numbers of identities and delays, or of shares and keys, differ.
    MismatchedLengths,
    /// No authority key was given.
    NoAuthorities,
    /// The header is shorter than one hop slot.
    MalformedOnion,
    /// A share is too large, or encrypting it failed.
    ShareEncryption,
    /// A share could not be decrypted.
    ShareDecryption,
    /// The tag does not match the layer.
    MacMismatch,
    /// The hop slot does not hold as many shares as the onion.
    Deserialization,
}

pub open spec fn zero_bytes(n: nat) -> Seq<u8> {
    Seq::new(n, |i: int| 0u8)
}

pub open spec fn u32_le(x: u32) -> Seq<u8> {
    seq![x as u8, (x >> 8u32) as u8, (x >> 16u32) as u8, (x >> 24u32) as u8]
}

pub open spec fn u64_le(x: u64) -> Seq<u8> {
    seq![
        x as u8,
        (x >> 8u64) as u8,
        (x >> 16u64) as u8,
        (x >> 24u64) as u8,
        (x >> 32u64) as u8,
        (x >> 40u64) as u8,
        (x >> 48u64) as u8,
        (x >> 56u64) as u8,
    ]
}

/// The shares one after the other.
pub open spec fn shares_bytes(shares: Seq<Share>) -> Seq<u8>
    decreases shares.len(),
{
    if shares.len() == 0 {
        Seq::empty()
    } else {
        shares_bytes(shares.drop_last()) + shares.last().0@
    }
}

/// The size of one hop slot for a number of authorities.
pub open spec fn per_hop_len(num_authorities: nat) -> nat {
    (HOP_INFO_SIZE + 8 + 8 + num_authorities * SHARE_SIZE) as nat
}

/// A hop slot: delay and tag, then the identity and the length-prefixed shares of the layer
/// below.
pub open spec fn hop_slot(delay: u32, tag: Seq<u8>, identity: u64, shares: Seq<Share>) -> Seq<u8> {
    u32_le(delay) + tag + u64_le(identity) + u64_le(shares.len() as u64) + shares_bytes(shares)
}

/// What the tag of a layer covers: everything but the tag itself.
pub open spec fn mac_input(identity: u64, shares: Seq<Share>, header: Seq<u8>, payload: Seq<u8>) -> Seq<u8> {
    u64_le(identity) + u64_le(shares.len() as u64) + shares_bytes(shares) + header.take(
        HOP_MACCED_PREFIX_LEN as int,
    ) + header.skip(HOP_INFO_SIZE as int) + payload
}

/// The data XORed with the key stream of a nonce, from the start of the stream.
pub open spec fn layer_xor(nonce: Seq<u8>, data: Seq<u8>) -> Seq<u8> {
    xor_keystream(nonce, zero_bytes(16), data)
}

/// The header with the tag written into its first hop slot.
pub open spec fn with_tag(header: Seq<u8>, tag: Seq<u8>) -> Seq<u8> {
    header.take(HOP_MACCED_PREFIX_LEN as int) + tag + header.skip(HOP_INFO_SIZE as int)
}

/// The size that the serialized onion takes.
pub open spec fn serialized_len(o: Onion) -> nat {
    (8 + 8 + o.shares.len() * SHARE_SIZE + 8 + o.header.len() + 8 + o.payload.len()) as nat
}

/// The lengths of the onion are small enough for the layer arithmetic.
pub open spec fn fits(o: Onion) -> bool {
    o.header.len() + per_hop_len(o.shares.len() as nat) + o.payload.len() + 64 <= usize::MAX
}

/// The header after the filler of one layer: the header with a slot of zeros appended, XORed
/// with the nonce's key stream, without its first slot.
pub open spec fn filler_step(header: Seq<u8>, nonce: Seq<u8>, slot_len: nat) -> Seq<u8> {
    layer_xor(nonce, header + zero_bytes(slot_len)).skip(slot_len as int)
}

pub fn per_hop_size(num_authorities: usize) -> (r: usize)
    requires
        per_hop_len(num_authorities as nat) <= usize::MAX,
    ensures
        r == per_hop_len(num_authorities as nat),
{
    HOP_INFO_SIZE + 8 + 8 + num_authorities * SHARE_SIZE
}

fn zero_iv() -> (r: [u8; 16])
    ensures
        r@ == zero_bytes(16),
{
    let r = [0u8; 16];
    assert(r@ =~= zero_bytes(16));
    r
}

fn push_u32_le(buf: &mut Vec<u8>, x: u32)
    ensures
        final(buf)@ == old(buf)@ + u32_le(x),
{
    buf.push(x as u8);
    buf.push((x >> 8u32) as u8);
    buf.push((x >> 16u32) as u8);
    buf.push((x >> 24u32) as u8);
    assert(buf@ =~= old(buf)@ + u32_le(x));
}

fn push_u64_le(buf: &mut Vec<u8>, x: u64)
    ensures
        final(buf)@ == old(buf)@ + u64_le(x),
{
    buf.push(x as u8);
    buf.push((x >> 8u64) as u8);
    buf.push((x >> 16u64) as u8);
    buf.push((x >> 24u64) as u8);
    buf.push((x >> 32u64) as u8);
    buf.push((x >> 40u64) as u8);
    buf.push((x >> 48u64) as u8);
    buf.push((x >> 56u64) as u8);
    assert(buf@ =~= old(buf)@ + u64_le(x));
}

fn read_u32_le(b: &Vec<u8>, at: usize) -> (r: u32)
    requires
        at + 4 <= b.len(),
    ensures
        u32_le(r) == b@.subrange(at as int, at + 4),
{
    let b0 = b[at];
    let b1 = b[at + 1];
    let b2 = b[at + 2];
    let b3 = b[at + 3];
    let r = (b0 as u32) | ((b1 as u32) << 8u32) | ((b2 as u32) << 16u32) | ((b3 as u32) << 24u32);
    assert(r as u8 == b0 && (r >> 8u32) as u8 == b1 && (r >> 16u32) as u8 == b2 && (r >> 24u32) as u8
        == b3) by (bit_vector)
        requires
            r == (b0 as u32) | ((b1 as u32) << 8u32) | ((b2 as u32) << 16u32) | ((b3 as u32) << 24u32),
    ;
    assert(u32_le(r) =~= b@.subrange(at as int, at + 4));
    r
}

fn read_u64_le(b: &Vec<u8>, at: usize) -> (r: u64)
    requires
        at + 8 <= b.len(),
    ensures
        u64_le(r) == b@.subrange(at as int, at + 8),
{
    let b0 = b[at];
    let b1 = b[at + 1];
    let b2 = b[at + 2];
    let b3 = b[at + 3];
    let b4 = b[at + 4];
    let b5 = b[at + 5];
    let b6 = b[at + 6];
    let b7 = b[at + 7];
    let lo = (b0 as u64) | ((b1 as u64) << 8u64) | ((b2 as u64) << 16u64) | ((b3 as u64) << 24u64);
    let hi = ((b4 as u64) << 32u64) | ((b5 as u64) << 40u64) | ((b6 as u64) << 48u64) | ((b7 as u64)
        << 56u64);
    let r = lo | hi;
    assert(r as u8 == b0 && (r >> 8u64) as u8 == b1 && (r >> 16u64) as u8 == b2 && (r >> 24u64) as u8
        == b3 && (r >> 32u64) as u8 == b4 && (r >> 40u64) as u8 == b5 && (r >> 48u64) as u8 == b6 && (r
        >> 56u64) as u8 == b7) by (bit_vector)
        requires
            lo == (b0 as u64) | ((b1 as u64) << 8u64) | ((b2 as u64) << 16u64) | ((b3 as u64) << 24u64),
            hi == ((b4 as u64) << 32u64) | ((b5 as u64) << 40u64) | ((b6 as u64) << 48u64) | ((b7 as u64)
                << 56u64),
            r == lo | hi,
    ;
    assert(u64_le(r) =~= b@.subrange(at as int, at + 8));
    r
}

/// Appends `src[start..end]` to `dst`.
fn append_range(dst: &mut Vec<u8>, src: &[u8], start: usize, end: usize)
    requires
        start <= end <= src.len(),
    ensures
        final(dst)@ == old(dst)@ + src@.subrange(start as int, end as int),
{
    let mut i = start;
    while i < end
        invariant
            start <= i <= end <= src.len(),
            dst@ == old(dst)@ + src@.subrange(start as int, i as int),
        decreases end - i,
    {
        dst.push(src[i]);
        i = i + 1;
        assert(dst@ =~= old(dst)@ + src@.subrange(start as int, i as int));
    }
}

fn copy_range(src: &[u8], start: usize, end: usize) -> (r: Vec<u8>)
    requires
        start <= end <= src.len(),
    ensures
        r@ == src@.subrange(start as int, end as int),
{
    let mut r: Vec<u8> = Vec::new();
    append_range(&mut r, src, start, end);
    assert(r@ =~= src@.subrange(start as int, end as int));
    r
}

fn append_shares(dst: &mut Vec<u8>, shares: &[Share])
    ensures
        final(dst)@ == old(dst)@ + shares_bytes(shares@),
{
    let mut j: usize = 0;
    while j < shares.len()
        invariant
            j <= shares.len(),
            dst@ == old(dst)@ + shares_bytes(shares@.take(j as int)),
        decreases shares.len() - j,
    {
        let bytes = shares[j].0.as_slice();
        append_range(dst, bytes, 0, SHARE_SIZE);
        proof {
            assert(shares@.take(j + 1).drop_last() =~= shares@.take(j as int));
            assert(bytes@.subrange(0, SHARE_SIZE as int) =~= shares[j as int].0@);
            assert(dst@ =~= old(dst)@ + shares_bytes(shares@.take(j + 1)));
        }
        j = j + 1;
    }
    assert(shares@.take(j as int) =~= shares@);
}

/// The prime of the field in which the nonces are shared, as little-endian bytes.
pub open spec fn prime_bytes() -> Seq<u8> {
    seq![145u8, 69, 12, 209, 178, 170, 35, 173, 7, 146, 54, 188, 85, 190, 234, 58, 175, 173, 125, 162]
}

/// Share `j` carries a 20-byte integer encrypted to the leaf of `identity` under authority `j`'s
/// public key.
pub open spec fn shares_encrypt_to(shares: Seq<Share>, keys: Seq<PublicKey>, identity: u64) -> bool {
    forall|j: int|
        0 <= j < shares.len() ==> ((#[trigger] hibe_payload(
            keys[j],
            node_bits(leaf_of(identity as nat)),
            shares[j].0@,
        )) matches Some(p) && p.len() == INT_SIZE)
}

/// Every share decrypts under the private key of its authority.
pub open spec fn shares_decrypt(shares: Seq<Share>, keys: Seq<PrivateKey>) -> bool {
    forall|j: int| 0 <= j < shares.len() ==> (#[trigger] hibe_plaintext(keys[j], shares[j].0@)) is Some
}

/// The integer that Lagrange interpolation recovers from the decrypted shares at `x = 1..=A`.
pub open spec fn recovered_secret(shares: Seq<Share>, keys: Seq<PrivateKey>) -> Seq<u8> {
    shamir_interpolated(
        prime_bytes(),
        Seq::new(shares.len(), |j: int| (j + 1) as usize),
        Seq::new(shares.len(), |j: int| hibe_plaintext(keys[j], shares[j].0@)->Some_0),
    )
}

/// A little-endian integer of at most 16 bytes as a 16-byte nonce.
pub open spec fn padded_nonce(secret: Seq<u8>) -> Seq<u8> {
    secret + zero_bytes((16 - secret.len()) as nat)
}

/// The prime of the field in which the nonces are shared: 927659228076472818176252176283652096798126523793,
/// as 20 little-endian bytes. It is large enough for any 128-bit nonce.
pub fn shamir_prime() -> (r: Vec<u8>)
    ensures
        r@ == prime_bytes(),
        r.len() == INT_SIZE,
        le_value(r@) >= 2,
{
    let r: Vec<u8> = vec![
        145u8, 69, 12, 209, 178, 170, 35, 173, 7, 146, 54, 188, 85, 190, 234, 58, 175, 173, 125, 162,
    ];
    assert(r@[0] == 145u8);
    assert(le_value(r@) == r@[0] + 256 * le_value(r@.drop_first()));
    assert(r@ =~= prime_bytes());
    r
}

impl Share {
    pub open spec fn spec_is_empty(self) -> bool {
        self.0@ == zero_bytes(SHARE_SIZE as nat)
    }

    pub fn empty() -> (r: Share)
        ensures
            r.spec_is_empty(),
    {
        let r = Share([0u8; SHARE_SIZE]);
        assert(r.0@ =~= zero_bytes(SHARE_SIZE as nat));
        r
    }

    /// The share that a ciphertext of exactly `SHARE_SIZE` bytes is.
    pub fn from_bytes(bytes: &[u8]) -> (r: Option<Share>)
        ensures
            bytes.len() != SHARE_SIZE ==> r is None,
            bytes.len() == SHARE_SIZE ==> (r matches Some(s) && s.0@ == bytes@),
    {
        if bytes.len() != SHARE_SIZE {
            return None;
        }
        let mut a = [0u8; SHARE_SIZE];
        let mut i: usize = 0;
        while i < SHARE_SIZE
            invariant
                i <= SHARE_SIZE,
                bytes.len() == SHARE_SIZE,
                forall|k: int| 0 <= k < i ==> a@[k] == bytes@[k],
            decreases SHARE_SIZE - i,
        {
            a[i] = bytes[i];
            i = i + 1;
        }
        assert(a@ =~= bytes@);
        Some(Share(a))
    }

    /// Encrypts one share of a nonce (a little-endian integer of at most `INT_SIZE` bytes) to the
    /// leaf that `identity` names.
    pub fn wrap(rng: &mut StdRng, identity: Identity, public_key: &PublicKey, share: &Vec<u8>) -> (r:
        Result<Share, FormatError>)
        ensures
            share.len() > INT_SIZE ==> r == Err::<Share, FormatError>(FormatError::ShareEncryption),
            share.len() <= INT_SIZE ==> r is Ok,
            r matches Ok(s) ==> hibe_payload(*public_key, node_bits(leaf_of(identity as nat)), s.0@)
                == Some(share@ + zero_bytes((INT_SIZE - share.len()) as nat)),
    {
        if share.len() > INT_SIZE {
            return Err(FormatError::ShareEncryption);
        }
        let mut padded: Vec<u8> = Vec::new();
        append_range(&mut padded, share.as_slice(), 0, share.len());
        assert(padded@ =~= share@ + zero_bytes(0));
        while padded.len() < INT_SIZE
            invariant
                share.len() <= padded.len() <= INT_SIZE,
                padded@ == share@ + zero_bytes((padded.len() - share.len()) as nat),
            decreases INT_SIZE - padded.len(),
        {
            padded.push(0);
            assert(padded@ =~= share@ + zero_bytes((padded.len() - share.len()) as nat));
        }
        let bits = NodenameMapper.bits(NodeName::number(identity));
        match hibe_encrypt(rng, HIERARCHY_DEPTH as usize, public_key, bits, padded.as_slice()) {
            Ok(ciphertext) => match Share::from_bytes(ciphertext.as_slice()) {
                Some(s) => Ok(s),
                None => Err(FormatError::ShareEncryption),
            },
            Err(_) => Err(FormatError::ShareEncryption),
        }
    }

    /// Decrypts the share: a little-endian integer.
    pub fn unwrap(&self, public_key: &PublicKey, private_key: &PrivateKey) -> (r: Result<
        Vec<u8>,
        FormatError,
    >)
        ensures
            r is Ok <==> hibe_plaintext(*private_key, self.0@) is Some,
            r is Ok ==> hibe_plaintext(*private_key, self.0@) == Some(r->Ok_0@),
            r is Err ==> r == Err::<Vec<u8>, FormatError>(FormatError::ShareDecryption),
    {
        match hibe_decrypt(HIERARCHY_DEPTH as usize, public_key, private_key, self.0.as_slice()) {
            Ok(bytes) => Ok(bytes),
            Err(_) => Err(FormatError::ShareDecryption),
        }
    }

    pub fn is_empty(&self) -> (r: bool)
        ensures
            r == self.spec_is_empty(),
    {
        let mut i: usize = 0;
        while i < SHARE_SIZE
            invariant
                i <= SHARE_SIZE,
                forall|k: int| 0 <= k < i ==> self.0@[k] == 0,
            decreases SHARE_SIZE - i,
        {
            if self.0[i] != 0 {
                assert(self.0@[i as int] != zero_bytes(SHARE_SIZE as nat)[i as int]);
                return false;
            }
            i = i + 1;
        }
        assert(self.0@ =~= zero_bytes(SHARE_SIZE as nat));
        true
    }
}

/// The hop slot as bytes.
fn encode_hop_slot(hop: &HopInfo, identity: Identity, shares: &[Share]) -> (r: Vec<u8>)
    ensures
        r@ == hop_slot(hop.delay, hop.tag@, identity, shares@),
{
    let mut r: Vec<u8> = Vec::new();
    push_u32_le(&mut r, hop.delay);
    append_range(&mut r, hop.tag.as_slice(), 0, TAG_SIZE);
    push_u64_le(&mut r, identity);
    push_u64_le(&mut r, shares.len() as u64);
    append_shares(&mut r, shares);
    assert(hop.tag@.subrange(0, TAG_SIZE as int) =~= hop.tag@);
    assert(r@ =~= hop_slot(hop.delay, hop.tag@, identity, shares@));
    r
}

/// The tag of a layer: the MAC, under the layer's nonce, of everything but the tag itself.
fn tag_onion(key: &[u8], identity: Identity, shares: &[Share], header: &[u8], payload: &[u8]) -> (r:
    Tag)
    requires
        header.len() >= HOP_INFO_SIZE,
    ensures
        r@ == hmac_sha3_256(key@, mac_input(identity, shares@, header@, payload@)),
{
    let mut message: Vec<u8> = Vec::new();
    push_u64_le(&mut message, identity);
    push_u64_le(&mut message, shares.len() as u64);
    append_shares(&mut message, shares);
    append_range(&mut message, header, 0, HOP_MACCED_PREFIX_LEN);
    append_range(&mut message, header, HOP_INFO_SIZE, header.len());
    append_range(&mut message, payload, 0, payload.len());
    proof {
        assert(header@.subrange(0, HOP_MACCED_PREFIX_LEN as int) =~= header@.take(
            HOP_MACCED_PREFIX_LEN as int,
        ));
        assert(header@.subrange(HOP_INFO_SIZE as int, header.len() as int) =~= header@.skip(
            HOP_INFO_SIZE as int,
        ));
        assert(payload@.subrange(0, payload.len() as int) =~= payload@);
        assert(message@ =~= mac_input(identity, shares@, header@, payload@));
    }
    hmac_sha3_256_of(key, message.as_slice())
}

/// Writes the tag into the first hop slot of the header.
fn write_tag(header: &mut Vec<u8>, tag: &Tag)
    requires
        old(header).len() >= HOP_INFO_SIZE,
    ensures
        final(header)@ == with_tag(old(header)@, tag@),
{
    let mut i: usize = 0;
    while i < TAG_SIZE
        invariant
            i <= TAG_SIZE,
            old(header).len() >= HOP_INFO_SIZE,
            header.len() == old(header).len(),
            forall|k: int|
                0 <= k < header.len() ==> #[trigger] header@[k] == if HOP_MACCED_PREFIX_LEN <= k
                    < HOP_MACCED_PREFIX_LEN + i {
                    tag@[k - HOP_MACCED_PREFIX_LEN]
                } else {
                    old(header)@[k]
                },
        decreases TAG_SIZE - i,
    {
        header.set(HOP_MACCED_PREFIX_LEN + i, tag[i]);
        i = i + 1;
    }
    assert(header@ =~= with_tag(old(header)@, tag@));
}

/// The tag that the first hop slot of the header holds.
fn read_tag(header: &Vec<u8>) -> (r: Tag)
    requires
        header.len() >= HOP_INFO_SIZE,
    ensures
        r@ == header@.subrange(HOP_MACCED_PREFIX_LEN as int, HOP_INFO_SIZE as int),
{
    let mut r = [0u8; 32];
    let mut i: usize = 0;
    while i < TAG_SIZE
        invariant
            i <= TAG_SIZE,
            header.len() >= HOP_INFO_SIZE,
            forall|k: int| 0 <= k < i ==> r@[k] == header@[HOP_MACCED_PREFIX_LEN + k],
        decreases TAG_SIZE - i,
    {
        r[i] = header[HOP_MACCED_PREFIX_LEN + i];
        i = i + 1;
    }
    assert(r@ =~= header@.subrange(HOP_MACCED_PREFIX_LEN as int, HOP_INFO_SIZE as int));
    r
}

fn tags_equal(a: &Tag, b: &Tag) -> (r: bool)
    ensures
        r == (a@ == b@),
{
    let mut i: usize = 0;
    while i < TAG_SIZE
        invariant
            i <= TAG_SIZE,
            forall|k: int| 0 <= k < i ==> a@[k] == b@[k],
        decreases TAG_SIZE - i,
    {
        if a[i] != b[i] {
            return false;
        }
        i = i + 1;
    }
    assert(a@ =~= b@);
    true
}

/// The bytes that a layer encrypts, XORed with its key stream: a hop slot with a zero tag
/// holding the inner onion's identity and shares, then the inner header, then the inner payload.
pub open spec fn sealed(inner: Onion, nonce: Seq<u8>, delay: u32) -> Seq<u8> {
    layer_xor(
        nonce,
        hop_slot(delay, zero_bytes(TAG_SIZE as nat), inner.identity, inner.shares@) + inner.header@
            + inner.payload@,
    )
}

/// The header of a wrapped layer before its tag is written: as long as the inner header.
pub open spec fn sealed_header(inner: Onion, nonce: Seq<u8>, delay: u32) -> Seq<u8> {
    sealed(inner, nonce, delay).take(inner.header.len() as int)
}

/// The payload of a wrapped layer.
pub open spec fn sealed_payload(inner: Onion, nonce: Seq<u8>, delay: u32) -> Seq<u8> {
    sealed(inner, nonce, delay).skip(per_hop_len(inner.shares.len() as nat) + inner.header.len())
}

/// `outer` is `inner` wrapped in one layer for `identity`, keyed by `nonce`, carrying `shares`.
pub open spec fn is_wrap_of(
    outer: Onion,
    inner: Onion,
    nonce: Seq<u8>,
    identity: u64,
    shares: Seq<Share>,
    delay: u32,
) -> bool {
    let header = sealed_header(inner, nonce, delay);
    let payload = sealed_payload(inner, nonce, delay);
    &&& outer.identity == identity
    &&& outer.shares@ == shares
    &&& outer.payload@ == payload
    &&& outer.header.len() == header.len()
    &&& outer.header@.take(HOP_MACCED_PREFIX_LEN as int) == header.take(HOP_MACCED_PREFIX_LEN as int)
    &&& outer.header@.skip(HOP_INFO_SIZE as int) == header.skip(HOP_INFO_SIZE as int)
    &&& outer.header@.subrange(HOP_MACCED_PREFIX_LEN as int, HOP_INFO_SIZE as int) == hmac_sha3_256(
        nonce,
        mac_input(identity, shares, header, payload),
    )
}

/// The header of an onion with a slot of zeros appended, then its payload, XORed with the key
/// stream of the nonce: the first slot of this is the hop slot, the rest the next onion.
pub open spec fn opened(outer: Onion, nonce: Seq<u8>) -> Seq<u8> {
    layer_xor(nonce, outer.header@ + zero_bytes(per_hop_len(outer.shares.len() as nat)) + outer.payload@)
}

/// The tag in the first hop slot is the MAC of the onion under the nonce.
pub open spec fn tag_valid(outer: Onion, nonce: Seq<u8>) -> bool {
    hmac_sha3_256(nonce, mac_input(outer.identity, outer.shares@, outer.header@, outer.payload@))
        == outer.header@.subrange(HOP_MACCED_PREFIX_LEN as int, HOP_INFO_SIZE as int)
}

/// The opened hop slot holds as many shares as the onion.
pub open spec fn slot_holds_shares(outer: Onion, nonce: Seq<u8>) -> bool {
    opened(outer, nonce).subrange(44, 52) == u64_le(outer.shares.len() as u64)
}

/// `(hop, next)` is what removing the layer keyed by `nonce` from `outer` reveals.
pub open spec fn is_unwrap_of(hop: HopInfo, next: Onion, outer: Onion, nonce: Seq<u8>) -> bool {
    let o = opened(outer, nonce);
    let phs = per_hop_len(outer.shares.len() as nat);
    let h = outer.header.len();
    &&& u32_le(hop.delay) == o.subrange(0, 4)
    &&& hop.tag@ == o.subrange(HOP_MACCED_PREFIX_LEN as int, HOP_INFO_SIZE as int)
    &&& u64_le(next.identity) == o.subrange(36, 44)
    &&& next.shares.len() == outer.shares.len()
    &&& shares_bytes(next.shares@) == o.subrange(52, phs as int)
    &&& next.header@ == o.subrange(phs as int, h + phs)
    &&& next.payload@ == o.skip(h + phs)
}

/// The last hop slot of the header is the key stream of the nonce right after the header: what
/// a hop that removes the layer of this nonce appends to the header.
pub open spec fn has_filler(inner: Onion, nonce: Seq<u8>) -> bool {
    let p = per_hop_len(inner.shares.len() as nat);
    let h = inner.header.len();
    &&& h >= p
    &&& forall|k: int|
        0 <= k < p ==> inner.header@[h - p + k] == #[trigger] aes128_ctr_keystream(
            nonce,
            zero_bytes(16),
            (h + k) as nat,
        )
}

/// `outer` is `inner` wrapped in one layer, with some shares of the nonce.
pub open spec fn is_layer_of(outer: Onion, inner: Onion, nonce: Seq<u8>, identity: u64, delay: u32) -> bool {
    &&& outer.shares.len() == inner.shares.len()
    &&& exists|shares: Seq<Share>| #[trigger] is_wrap_of(outer, inner, nonce, identity, shares, delay)
}

/// `layers[k]` is `layers[k + 1]` wrapped for hop `k`, and the filler of every layer is in
/// place: the onion that hop `k` receives is `layers[k]`.
pub open spec fn is_onion_chain(
    layers: Seq<Onion>,
    nonces: Seq<Seq<u8>>,
    identities: Seq<u64>,
    delays: Seq<u32>,
) -> bool {
    let n = identities.len();
    &&& layers.len() == n + 1
    &&& nonces.len() == n
    &&& delays.len() == n
    &&& forall|k: int|
        0 <= k < n ==> #[trigger] is_layer_of(layers[k], layers[k + 1], nonces[k], identities[k], delays[k])
    &&& forall|k: int| 0 <= k < n ==> #[trigger] has_filler(layers[k + 1], nonces[k])
}

/// Two onions with the same contents.
pub open spec fn same_contents(a: Onion, b: Onion) -> bool {
    &&& a.identity == b.identity
    &&& a.shares@ == b.shares@
    &&& a.header@ == b.header@
    &&& a.payload@ == b.payload@
}

/// The headers that running the filler of each nonce in turn over a zero header gives:
/// `headers[0]` is the zero header, `headers[i + 1]` the filler of `nonces[i]` over `headers[i]`.
pub open spec fn filler_chain(headers: Seq<Seq<u8>>, nonces: Seq<Seq<u8>>, slot_len: nat) -> bool {
    &&& headers.len() == nonces.len() + 1
    &&& forall|i: int| 0 <= i < nonces.len() ==> #[trigger] headers[i + 1] == filler_step(headers[i], nonces[i], slot_len)
}

/// What removing the layer keyed by `nonce` from `o` gives: an error for a short header, a bad
/// tag or a hop slot with the wrong number of shares, and otherwise the hop and the next onion.
pub open spec fn layer_removed(o: Onion, nonce: Seq<u8>, r: Result<(HopInfo, Onion), FormatError>) -> bool {
    &&& o.header.len() < per_hop_len(o.shares.len() as nat) ==> r == Err::<(HopInfo, Onion), FormatError>(FormatError::MalformedOnion)
    &&& o.header.len() >= per_hop_len(o.shares.len() as nat) ==> {
        &&& !tag_valid(o, nonce) ==> r == Err::<(HopInfo, Onion), FormatError>(FormatError::MacMismatch)
        &&& tag_valid(o, nonce) && !slot_holds_shares(o, nonce) ==> r == Err::<(HopInfo, Onion), FormatError>(FormatError::Deserialization)
        &&& tag_valid(o, nonce) && slot_holds_shares(o, nonce) ==> r is Ok
    }
    &&& r matches Ok((hop, next)) ==> is_unwrap_of(hop, next, o, nonce) && serialized_len(next)
        == serialized_len(o) && fits(next)
}

pub proof fn lemma_shares_bytes_len(shares: Seq<Share>)
    ensures
        shares_bytes(shares).len() == shares.len() * SHARE_SIZE,
    decreases shares.len(),
{
    if shares.len() > 0 {
        lemma_shares_bytes_len(shares.drop_last());
    }
}

/// Shares are told apart by their bytes.
pub proof fn lemma_shares_bytes_injective(a: Seq<Share>, b: Seq<Share>)
    requires
        a.len() == b.len(),
        shares_bytes(a) == shares_bytes(b),
    ensures
        a == b,
    decreases a.len(),
{
    if a.len() > 0 {
        lemma_shares_bytes_len(a.drop_last());
        lemma_shares_bytes_len(b.drop_last());
        let n = shares_bytes(a.drop_last()).len() as int;
        assert(shares_bytes(a.drop_last()) =~= shares_bytes(a).take(n));
        assert(shares_bytes(b.drop_last()) =~= shares_bytes(b).take(n));
        assert(a.last().0@ =~= shares_bytes(a).skip(n));
        assert(b.last().0@ =~= shares_bytes(b).skip(n));
        lemma_shares_bytes_injective(a.drop_last(), b.drop_last());
        assert(a.last().0 == b.last().0);
        assert(a =~= a.drop_last().push(a.last()));
        assert(b =~= b.drop_last().push(b.last()));
    }
}

pub proof fn lemma_u32_le_injective(a: u32, b: u32)
    requires
        u32_le(a) == u32_le(b),
    ensures
        a == b,
{
    assert(u32_le(a)[0] == u32_le(b)[0]);
    assert(u32_le(a)[1] == u32_le(b)[1]);
    assert(u32_le(a)[2] == u32_le(b)[2]);
    assert(u32_le(a)[3] == u32_le(b)[3]);
    assert(a == b) by (bit_vector)
        requires
            a as u8 == b as u8,
            (a >> 8u32) as u8 == (b >> 8u32) as u8,
            (a >> 16u32) as u8 == (b >> 16u32) as u8,
            (a >> 24u32) as u8 == (b >> 24u32) as u8,
    ;
}

pub proof fn lemma_u64_le_injective(a: u64, b: u64)
    requires
        u64_le(a) == u64_le(b),
    ensures
        a == b,
{
    assert(u64_le(a)[0] == u64_le(b)[0]);
    assert(u64_le(a)[1] == u64_le(b)[1]);
    assert(u64_le(a)[2] == u64_le(b)[2]);
    assert(u64_le(a)[3] == u64_le(b)[3]);
    assert(u64_le(a)[4] == u64_le(b)[4]);
    assert(u64_le(a)[5] == u64_le(b)[5]);
    assert(u64_le(a)[6] == u64_le(b)[6]);
    assert(u64_le(a)[7] == u64_le(b)[7]);
    assert(a == b) by (bit_vector)
        requires
            a as u8 == b as u8,
            (a >> 8u64) as u8 == (b >> 8u64) as u8,
            (a >> 16u64) as u8 == (b >> 16u64) as u8,
            (a >> 24u64) as u8 == (b >> 24u64) as u8,
            (a >> 32u64) as u8 == (b >> 32u64) as u8,
            (a >> 40u64) as u8 == (b >> 40u64) as u8,
            (a >> 48u64) as u8 == (b >> 48u64) as u8,
            (a >> 56u64) as u8 == (b >> 56u64) as u8,
    ;
}

proof fn lemma_xor_twice(x: u8, k: u8)
    ensures
        (x ^ k) ^ k == x,
        0u8 ^ k == k,
{
    assert((x ^ k) ^ k == x) by (bit_vector);
    assert(0u8 ^ k == k) by (bit_vector);
}

impl Onion {
    /// An onion that has not been wrapped yet: identity 0, empty shares, a zero header with room
    /// for `path_length` hop slots.
    pub fn fresh(num_authorities: usize, path_length: usize, data: Vec<u8>) -> (r: Onion)
        requires
            path_length * per_hop_len(num_authorities as nat) <= usize::MAX,
        ensures
            r.identity == 0,
            r.shares.len() == num_authorities,
            forall|j: int| 0 <= j < r.shares.len() ==> (#[trigger] r.shares[j]).spec_is_empty(),
            r.header@ == zero_bytes((path_length * per_hop_len(num_authorities as nat)) as nat),
            r.payload@ == data@,
    {
        proof {
            if path_length > 0 {
                assert(per_hop_len(num_authorities as nat) <= path_length * per_hop_len(
                    num_authorities as nat,
                )) by (nonlinear_arith)
                    requires
                        path_length > 0,
                ;
            }
        }
        let mut shares: Vec<Share> = Vec::new();
        let mut j: usize = 0;
        while j < num_authorities
            invariant
                j <= num_authorities,
                shares.len() == j,
                forall|k: int| 0 <= k < j ==> (#[trigger] shares[k]).spec_is_empty(),
            decreases num_authorities - j,
        {
            shares.push(Share::empty());
            j = j + 1;
        }
        let len: usize = if path_length == 0 {
            0
        } else {
            path_length * per_hop_size(num_authorities)
        };
        let mut header: Vec<u8> = Vec::new();
        let mut i: usize = 0;
        while i < len
            invariant
                i <= len,
                header@ == zero_bytes(i as nat),
            decreases len - i,
        {
            header.push(0);
            i = i + 1;
            assert(header@ =~= zero_bytes(i as nat));
        }
        Onion { identity: 0, shares, header, payload: data }
    }

    /// Runs the header through the key stream of one layer, as a hop of that layer will: append
    /// a slot of zeros, apply the stream, drop the first slot.
    pub fn compute_filler(&mut self, nonce: &[u8; 16])
        requires
            fits(*old(self)),
        ensures
            final(self).identity == old(self).identity,
            final(self).shares@ == old(self).shares@,
            final(self).payload@ == old(self).payload@,
            final(self).header@ == filler_step(
                old(self).header@,
                nonce@,
                per_hop_len(old(self).shares.len() as nat),
            ),
    {
        let phs = per_hop_size(self.shares.len());
        let ghost before = self.header@;
        let mut i: usize = 0;
        while i < phs
            invariant
                i <= phs,
                phs == per_hop_len(self.shares.len() as nat),
                self.header@ == before + zero_bytes(i as nat),
                self.shares@ == old(self).shares@,
                self.identity == old(self).identity,
                self.payload@ == old(self).payload@,
                fits(*old(self)),
                before == old(self).header@,
            decreases phs - i,
        {
            self.header.push(0);
            i = i + 1;
            assert(self.header@ =~= before + zero_bytes(i as nat));
        }
        let iv = zero_iv();
        aes128_ctr_apply(nonce, &iv, &mut self.header);
        let header = copy_range(self.header.as_slice(), phs, self.header.len());
        self.header = header;
        proof {
            assert(self.header@ =~= filler_step(before, nonce@, phs as nat));
        }
    }

    /// The onion has reached its destination: identity 0 and no share.
    pub fn is_final_destination(&self) -> (r: bool)
        ensures
            r == (self.identity == 0 && forall|j: int|
                0 <= j < self.shares.len() ==> (#[trigger] self.shares[j]).spec_is_empty()),
    {
        if self.identity != 0 {
            return false;
        }
        let mut j: usize = 0;
        while j < self.shares.len()
            invariant
                j <= self.shares.len(),
                forall|k: int| 0 <= k < j ==> (#[trigger] self.shares[k]).spec_is_empty(),
            decreases self.shares.len() - j,
        {
            if !self.shares[j].is_empty() {
                return false;
            }
            j = j + 1;
        }
        true
    }

    /// The number of bytes that the onion takes on the wire.
    pub fn serialized_size(&self) -> (r: usize)
        requires
            fits(*self),
        ensures
            r == serialized_len(*self),
    {
        32 + self.shares.len() * SHARE_SIZE + self.header.len() + self.payload.len()
    }

    /// Wraps the onion in one layer for `identity`, keyed by `nonce`, with the already encrypted
    /// `shares` of the nonce.
    pub fn wrap_layer(&self, nonce: &[u8; 16], identity: Identity, shares: Vec<Share>, delay: u32) -> (r:
        Onion)
        requires
            fits(*self),
            shares.len() == self.shares.len(),
            self.header.len() >= per_hop_len(self.shares.len() as nat),
        ensures
            is_wrap_of(r, *self, nonce@, identity, shares@, delay),
            serialized_len(r) == serialized_len(*self),
            fits(r),
    {
        let phs = per_hop_size(self.shares.len());
        let h = self.header.len();
        let hop = HopInfo { delay, tag: [0u8; 32] };
        let mut buf = encode_hop_slot(&hop, self.identity, self.shares.as_slice());
        proof {
            lemma_shares_bytes_len(self.shares@);
            assert(hop.tag@ =~= zero_bytes(TAG_SIZE as nat));
        }
        append_range(&mut buf, self.header.as_slice(), 0, h);
        append_range(&mut buf, self.payload.as_slice(), 0, self.payload.len());
        proof {
            assert(buf@ =~= hop_slot(delay, zero_bytes(TAG_SIZE as nat), self.identity, self.shares@)
                + self.header@ + self.payload@);
        }
        let iv = zero_iv();
        aes128_ctr_apply(nonce, &iv, &mut buf);
        let mut header = copy_range(buf.as_slice(), 0, h);
        let payload = copy_range(buf.as_slice(), phs + h, buf.len());
        proof {
            assert(header@ =~= sealed_header(*self, nonce@, delay));
            assert(payload@ =~= sealed_payload(*self, nonce@, delay));
        }
        let tag = tag_onion(nonce.as_slice(), identity, shares.as_slice(), header.as_slice(), payload.as_slice());
        write_tag(&mut header, &tag);
        proof {
            let hs = sealed_header(*self, nonce@, delay);
            assert(header@.take(HOP_MACCED_PREFIX_LEN as int) =~= hs.take(HOP_MACCED_PREFIX_LEN as int));
            assert(header@.skip(HOP_INFO_SIZE as int) =~= hs.skip(HOP_INFO_SIZE as int));
            assert(header@.subrange(HOP_MACCED_PREFIX_LEN as int, HOP_INFO_SIZE as int) =~= tag@);
        }
        Onion { identity, shares, header, payload }
    }

    /// Removes the layer keyed by `nonce`: checks the tag, decrypts, and splits off the first hop
    /// slot.
    pub fn unwrap_layer(self, nonce: &[u8; 16]) -> (r: Result<(HopInfo, Onion), FormatError>)
        requires
            fits(self),
        ensures
            layer_removed(self, nonce@, r),
    {
        let a = self.shares.len();
        let phs = per_hop_size(a);
        let h = self.header.len();
        if h < phs {
            return Err(FormatError::MalformedOnion);
        }
        let expected = tag_onion(nonce.as_slice(), self.identity, self.shares.as_slice(), self.header.as_slice(), self.payload.as_slice());
        let found = read_tag(&self.header);
        if !tags_equal(&expected, &found) {
            return Err(FormatError::MacMismatch);
        }
        let mut buf: Vec<u8> = Vec::new();
        append_range(&mut buf, self.header.as_slice(), 0, h);
        let mut i: usize = 0;
        while i < phs
            invariant
                i <= phs,
                buf@ == self.header@ + zero_bytes(i as nat),
            decreases phs - i,
        {
            buf.push(0);
            i = i + 1;
            assert(buf@ =~= self.header@ + zero_bytes(i as nat));
        }
        append_range(&mut buf, self.payload.as_slice(), 0, self.payload.len());
        proof {
            assert(self.header@.subrange(0, h as int) =~= self.header@);
            assert(buf@ =~= self.header@ + zero_bytes(phs as nat) + self.payload@);
        }
        let iv = zero_iv();
        aes128_ctr_apply(nonce, &iv, &mut buf);
        assert(buf@ =~= opened(self, nonce@));
        let count = read_u64_le(&buf, 44);
        if count != a as u64 {
            proof {
                if slot_holds_shares(self, nonce@) {
                    lemma_u64_le_injective(count, a as u64);
                }
            }
            return Err(FormatError::Deserialization);
        }
        let delay = read_u32_le(&buf, 0);
        let mut tag = [0u8; 32];
        let mut k: usize = 0;
        while k < TAG_SIZE
            invariant
                k <= TAG_SIZE,
                buf.len() >= HOP_INFO_SIZE,
                forall|m: int| 0 <= m < k ==> tag@[m] == buf@[HOP_MACCED_PREFIX_LEN + m],
            decreases TAG_SIZE - k,
        {
            tag[k] = buf[HOP_MACCED_PREFIX_LEN + k];
            k = k + 1;
        }
        assert(tag@ =~= buf@.subrange(HOP_MACCED_PREFIX_LEN as int, HOP_INFO_SIZE as int));
        let identity = read_u64_le(&buf, 36);
        let mut shares: Vec<Share> = Vec::new();
        let mut j: usize = 0;
        while j < a
            invariant
                j <= a,
                phs == per_hop_len(a as nat),
                buf.len() >= phs,
                shares.len() == j,
                shares_bytes(shares@) == buf@.subrange(52, 52 + j * SHARE_SIZE),
            decreases a - j,
        {
            let start = 52 + j * SHARE_SIZE;
            let mut bytes = [0u8; SHARE_SIZE];
            let mut m: usize = 0;
            while m < SHARE_SIZE
                invariant
                    m <= SHARE_SIZE,
                    start + SHARE_SIZE <= buf.len(),
                    forall|q: int| 0 <= q < m ==> bytes@[q] == buf@[start + q],
                decreases SHARE_SIZE - m,
            {
                bytes[m] = buf[start + m];
                m = m + 1;
            }
            proof {
                assert(bytes@ =~= buf@.subrange(start as int, start + SHARE_SIZE));
                assert(shares@.push(Share(bytes)).drop_last() =~= shares@);
            }
            shares.push(Share(bytes));
            j = j + 1;
            assert(shares_bytes(shares@) =~= buf@.subrange(52, 52 + j * SHARE_SIZE));
        }
        let header = copy_range(buf.as_slice(), phs, h + phs);
        let payload = copy_range(buf.as_slice(), h + phs, buf.len());
        proof {
            assert(payload@ =~= buf@.skip(h + phs));
        }
        Ok((HopInfo { delay, tag }, Onion { identity, shares, header, payload }))
    }
}

impl Onion {
    /// Wraps the onion in one layer for `identity`, keyed by `nonce`: the nonce is split into one
    /// Shamir share per authority (threshold: all of them), and each share is encrypted to the
    /// identity under that authority's key.
    pub fn wrap_with_nonce(
        &self,
        rng: &mut StdRng,
        nonce: &[u8; 16],
        identity: Identity,
        public_keys: &[PublicKey],
        delay: u32,
    ) -> (r: Result<Onion, FormatError>)
        requires
            fits(*self),
        ensures
            public_keys.len() == 0 ==> r == Err::<Onion, FormatError>(FormatError::NoAuthorities),
            public_keys.len() > 0 && self.shares.len() != public_keys.len() ==> r == Err::<
                Onion,
                FormatError,
            >(FormatError::MismatchedLengths),
            public_keys.len() > 0 && self.shares.len() == public_keys.len() && self.header.len()
                < per_hop_len(self.shares.len() as nat) ==> r == Err::<Onion, FormatError>(
                FormatError::MalformedOnion,
            ),
            public_keys.len() > 0 && self.shares.len() == public_keys.len() && self.header.len()
                >= per_hop_len(self.shares.len() as nat) ==> r is Ok,
            r matches Ok(o) ==> (exists|shares: Seq<Share>|
                #[trigger] is_wrap_of(o, *self, nonce@, identity, shares, delay)) && serialized_len(o)
                == serialized_len(*self) && fits(o) && o.shares.len() == self.shares.len()
                && shares_encrypt_to(o.shares@, public_keys@, identity),
    {
        let a = public_keys.len();
        if a == 0 {
            return Err(FormatError::NoAuthorities);
        }
        if self.shares.len() != a {
            return Err(FormatError::MismatchedLengths);
        }
        if self.header.len() < per_hop_size(a) {
            return Err(FormatError::MalformedOnion);
        }
        let prime = shamir_prime();
        let split = shamir_split(prime.as_slice(), a, a + 1, nonce.as_slice());
        let mut shares: Vec<Share> = Vec::new();
        let mut j: usize = 0;
        while j < a
            invariant
                j <= a,
                a == public_keys.len(),
                a == self.shares.len(),
                self.header.len() >= per_hop_len(a as nat),
                split.len() == a + 1,
                prime.len() == INT_SIZE,
                forall|m: int| 0 <= m < split.len() ==> (#[trigger] split[m]).1.len() <= prime.len(),
                shares.len() == j,
                shares_encrypt_to(shares@, public_keys@, identity),
            decreases a - j,
        {
            let share = Share::wrap(rng, identity, &public_keys[j], &split[j].1)?;
            proof {
                let old_shares = shares@;
                assert forall|m: int| 0 <= m < old_shares.push(share).len() implies (#[trigger] hibe_payload(
                    public_keys@[m],
                    node_bits(leaf_of(identity as nat)),
                    old_shares.push(share)[m].0@,
                )) is Some && hibe_payload(
                    public_keys@[m],
                    node_bits(leaf_of(identity as nat)),
                    old_shares.push(share)[m].0@,
                )->Some_0.len() == INT_SIZE by {
                    if m < old_shares.len() {
                        assert(old_shares.push(share)[m] == old_shares[m]);
                    }
                }
            }
            shares.push(share);
            j = j + 1;
        }
        let ghost sh = shares@;
        let o = self.wrap_layer(nonce, identity, shares, delay);
        assert(is_wrap_of(o, *self, nonce@, identity, sh, delay));
        Ok(o)
    }

    /// Wraps the onion in one layer for `identity` with a fresh random nonce.
    pub fn wrap(&self, rng: &mut StdRng, identity: Identity, public_keys: &[PublicKey], delay: u32) -> (r:
        Result<Onion, FormatError>)
        requires
            fits(*self),
        ensures
            public_keys.len() == 0 ==> r == Err::<Onion, FormatError>(FormatError::NoAuthorities),
            public_keys.len() > 0 && self.shares.len() != public_keys.len() ==> r == Err::<
                Onion,
                FormatError,
            >(FormatError::MismatchedLengths),
            public_keys.len() > 0 && self.shares.len() == public_keys.len() && self.header.len()
                < per_hop_len(self.shares.len() as nat) ==> r == Err::<Onion, FormatError>(
                FormatError::MalformedOnion,
            ),
            public_keys.len() > 0 && self.shares.len() == public_keys.len() && self.header.len()
                >= per_hop_len(self.shares.len() as nat) ==> r is Ok,
            r matches Ok(o) ==> (exists|nonce: Seq<u8>, shares: Seq<Share>|
                #[trigger] is_wrap_of(o, *self, nonce, identity, shares, delay)) && serialized_len(o)
                == serialized_len(*self),
    {
        let nonce = random_nonce(rng);
        let r = self.wrap_with_nonce(rng, &nonce, identity, public_keys, delay);
        proof {
            if r is Ok {
                let o = r->Ok_0;
                let shares = choose|shares: Seq<Share>| #[trigger] is_wrap_of(o, *self, nonce@, identity, shares, delay);
                assert(is_wrap_of(o, *self, nonce@, identity, shares, delay));
            }
        }
        r
    }

    /// Removes this hop's layer: decrypts the shares with the hop's private keys (one per
    /// authority, in the order of the shares), recovers the nonce, checks the tag and decrypts.
    pub fn unwrap(self, public_keys: &[PublicKey], private_keys: &[PrivateKey]) -> (r: Result<
        (HopInfo, Onion),
        FormatError,
    >)
        requires
            fits(self),
        ensures
            public_keys.len() < self.shares.len() || private_keys.len() < self.shares.len() ==> r
                == Err::<(HopInfo, Onion), FormatError>(FormatError::MismatchedLengths),
            public_keys.len() >= self.shares.len() && private_keys.len() >= self.shares.len() ==> {
                let secret = recovered_secret(self.shares@, private_keys@);
                &&& !shares_decrypt(self.shares@, private_keys@) ==> r == Err::<(HopInfo, Onion), FormatError>(
                    FormatError::ShareDecryption,
                )
                &&& shares_decrypt(self.shares@, private_keys@) && secret.len() > 16 ==> r == Err::<
                    (HopInfo, Onion),
                    FormatError,
                >(FormatError::MacMismatch)
                &&& shares_decrypt(self.shares@, private_keys@) && secret.len() <= 16 ==> layer_removed(
                    self,
                    padded_nonce(secret),
                    r,
                )
            },
    {
        let a = self.shares.len();
        if public_keys.len() < a || private_keys.len() < a {
            return Err(FormatError::MismatchedLengths);
        }
        let mut points: Vec<(usize, Vec<u8>)> = Vec::new();
        let mut j: usize = 0;
        while j < a
            invariant
                j <= a,
                a == self.shares.len(),
                public_keys.len() >= a,
                private_keys.len() >= a,
                points.len() == j,
                forall|k: int| 0 <= k < j ==> (#[trigger] points[k]).0 == k + 1,
                forall|k: int|
                    0 <= k < j ==> hibe_plaintext(private_keys@[k], self.shares@[k].0@) == Some(
                        (#[trigger] points[k]).1@,
                    ),
            decreases a - j,
        {
            let value = match self.shares[j].unwrap(&public_keys[j], &private_keys[j]) {
                Ok(v) => v,
                Err(e) => {
                    assert(!shares_decrypt(self.shares@, private_keys@)) by {
                        assert(hibe_plaintext(private_keys@[j as int], self.shares@[j as int].0@) is None);
                    }
                    return Err(e);
                },
            };
            points.push((j + 1, value));
            j = j + 1;
        }
        let prime = shamir_prime();
        let secret = shamir_recover(prime.as_slice(), a, a + 1, points.as_slice());
        proof {
            assert(points@.map_values(|p: (usize, Vec<u8>)| p.0) =~= Seq::new(
                a as nat,
                |k: int| (k + 1) as usize,
            ));
            assert(points@.map_values(|p: (usize, Vec<u8>)| p.1@) =~= Seq::new(
                a as nat,
                |k: int| hibe_plaintext(private_keys@[k], self.shares@[k].0@)->Some_0,
            ));
            assert(secret@ == recovered_secret(self.shares@, private_keys@));
            assert(shares_decrypt(self.shares@, private_keys@)) by {
                assert forall|k: int| 0 <= k < self.shares@.len() implies (#[trigger] hibe_plaintext(
                    private_keys@[k],
                    self.shares@[k].0@,
                )) is Some by {
                    assert(hibe_plaintext(private_keys@[k], self.shares@[k].0@) == Some(points[k].1@));
                }
            }
        }
        if secret.len() > 16 {
            return Err(FormatError::MacMismatch);
        }
        let mut nonce = [0u8; 16];
        let mut k: usize = 0;
        while k < secret.len()
            invariant
                k <= secret.len() <= 16,
                forall|m: int| 0 <= m < k ==> nonce@[m] == secret@[m],
                forall|m: int| secret.len() <= m < 16 ==> nonce@[m] == 0,
            decreases secret.len() - k,
        {
            nonce[k] = secret[k];
            k = k + 1;
        }
        assert(nonce@ =~= padded_nonce(secret@));
        self.unwrap_layer(&nonce)
    }
}

/// Filler headers keep the length of the header.
proof fn lemma_filler_len(header: Seq<u8>, nonce: Seq<u8>, slot_len: nat)
    ensures
        filler_step(header, nonce, slot_len).len() == header.len(),
{
}

/// When the last slot of a header is that of the filler of `nonce` over `before`, the header has
/// the filler of `nonce`.
proof fn lemma_filler_in_place(inner: Onion, nonce: Seq<u8>, before: Seq<u8>)
    requires
        before.len() == inner.header.len(),
        inner.header.len() >= per_hop_len(inner.shares.len() as nat),
        forall|i: int|
            inner.header.len() - per_hop_len(inner.shares.len() as nat) <= i < inner.header.len()
                ==> inner.header@[i] == #[trigger] filler_step(
                before,
                nonce,
                per_hop_len(inner.shares.len() as nat),
            )[i],
    ensures
        has_filler(inner, nonce),
{
    let p = per_hop_len(inner.shares.len() as nat);
    let h = inner.header.len() as int;
    let after = filler_step(before, nonce, p);
    assert forall|k: int| 0 <= k < p implies inner.header@[h - p + k] == #[trigger] aes128_ctr_keystream(
        nonce,
        zero_bytes(16),
        (h + k) as nat,
    ) by {
        let ks = aes128_ctr_keystream(nonce, zero_bytes(16), (h + k) as nat);
        lemma_xor_twice(0u8, ks);
        assert(after[h - p + k] == (before + zero_bytes(p))[h + k] ^ ks);
    }
}

/// Wrapping a layer over a header whose tail from `start - p` on is the filler of `nonce` over
/// `before` gives a header whose tail from `start` on is `before`.
proof fn lemma_tail_after_layer(
    inner: Onion,
    outer: Onion,
    nonce: Seq<u8>,
    identity: u64,
    shares: Seq<Share>,
    delay: u32,
    before: Seq<u8>,
    start: int,
)
    requires
        is_wrap_of(outer, inner, nonce, identity, shares, delay),
        before.len() == inner.header.len(),
        2 * per_hop_len(inner.shares.len() as nat) <= start + per_hop_len(inner.shares.len() as nat),
        start <= inner.header.len(),
        forall|i: int|
            start - per_hop_len(inner.shares.len() as nat) <= i < inner.header.len() ==> inner.header@[i]
                == #[trigger] filler_step(before, nonce, per_hop_len(inner.shares.len() as nat))[i],
    ensures
        forall|i: int| start <= i < inner.header.len() ==> outer.header@[i] == #[trigger] before[i],
{
    let p = per_hop_len(inner.shares.len() as nat) as int;
    let h = inner.header.len() as int;
    let slot = hop_slot(delay, zero_bytes(TAG_SIZE as nat), inner.identity, inner.shares@);
    let plain = slot + inner.header@ + inner.payload@;
    let sealed_h = sealed_header(inner, nonce, delay);
    lemma_shares_bytes_len(inner.shares@);
    assert(slot.len() == p);
    assert forall|i: int| start <= i < h implies outer.header@[i] == #[trigger] before[i] by {
        let ks = aes128_ctr_keystream(nonce, zero_bytes(16), i as nat);
        assert(outer.header@[i] == outer.header@.skip(HOP_INFO_SIZE as int)[i - 36]);
        assert(outer.header@[i] == sealed_h[i]);
        assert(sealed_h[i] == plain[i] ^ ks);
        assert(plain[i] == inner.header@[i - p]);
        assert(inner.header@[i - p] == filler_step(before, nonce, p as nat)[i - p]);
        assert(filler_step(before, nonce, p as nat)[i - p] == (before + zero_bytes(p as nat))[i] ^ ks);
        lemma_xor_twice(before[i], ks);
    }
}

/// Wraps `data` in one layer per hop: `identities[0]` and `delays[0]` are the first hop's. The
/// public keys are those of the authorities.
///
/// The result is the first of a chain of layers: hop `k` receives `layers[k]`, removes its
/// layer with `nonces[k]`, and finds `layers[k + 1]`; the last is a fresh onion with the data.
pub fn wrap(
    rng: &mut StdRng,
    identities: &[Identity],
    delays: &[u32],
    public_keys: &[PublicKey],
    data: &[u8],
) -> (r: Result<Onion, FormatError>)
    requires
        identities.len() * per_hop_len(public_keys.len() as nat) + per_hop_len(public_keys.len() as nat)
            + data.len() + 64 <= usize::MAX,
    ensures
        identities.len() != delays.len() ==> r == Err::<Onion, FormatError>(
            FormatError::MismatchedLengths,
        ),
        identities.len() == delays.len() && public_keys.len() == 0 ==> r == Err::<Onion, FormatError>(
            FormatError::NoAuthorities,
        ),
        identities.len() == delays.len() && public_keys.len() > 0 ==> r is Ok,
        r matches Ok(o) ==> {
            &&& o.shares.len() == public_keys.len()
            &&& o.header.len() == identities.len() * per_hop_len(public_keys.len() as nat)
            &&& o.payload.len() == data.len()
            &&& identities.len() > 0 ==> o.identity == identities[0]
            &&& exists|layers: Seq<Onion>, nonces: Seq<Seq<u8>>|
                #[trigger] is_onion_chain(layers, nonces, identities@, delays@) && layers[0] == o
                    && layers.last().identity == 0 && layers.last().payload@ == data@
                    && layers.last().shares.len() == public_keys.len() && forall|j: int|
                    0 <= j < layers.last().shares.len() ==> (
                    #[trigger] layers.last().shares[j]).spec_is_empty()
        },
{
    if identities.len() != delays.len() {
        return Err(FormatError::MismatchedLengths);
    }
    let a = public_keys.len();
    if a == 0 {
        return Err(FormatError::NoAuthorities);
    }
    let n = identities.len();
    let mut nonces: Vec<[u8; 16]> = Vec::new();
    let mut i: usize = 0;
    while i < n
        invariant
            i <= n,
            nonces.len() == i,
        decreases n - i,
    {
        nonces.push(random_nonce(rng));
        i = i + 1;
    }
    let ghost nv: Seq<Seq<u8>> = nonces@.map_values(|x: [u8; 16]| x@);
    let ghost p = per_hop_len(a as nat);
    let ghost h = n * p;
    let mut payload: Vec<u8> = Vec::new();
    append_range(&mut payload, data, 0, data.len());
    proof {
        assert(n * per_hop_len(a as nat) + per_hop_len(a as nat) <= usize::MAX);
        assert(payload@ =~= data@);
    }
    let mut onion = Onion::fresh(a, n, payload);
    let ghost mut fillers: Seq<Seq<u8>> = seq![onion.header@];
    i = 0;
    while i < n
        invariant
            i <= n,
            n == identities.len(),
            nonces.len() == n,
            nv == nonces@.map_values(|x: [u8; 16]| x@),
            p == per_hop_len(a as nat),
            h == n * p,
            onion.identity == 0,
            onion.shares.len() == a,
            forall|j: int| 0 <= j < onion.shares.len() ==> (#[trigger] onion.shares[j]).spec_is_empty(),
            onion.header.len() == h,
            onion.payload@ == data@,
            n * per_hop_len(a as nat) + per_hop_len(a as nat) + data.len() + 64 <= usize::MAX,
            filler_chain(fillers, nv.take(i as int), p),
            fillers[i as int] == onion.header@,
            forall|j: int| 0 <= j <= i ==> (#[trigger] fillers[j]).len() == h,
        decreases n - i,
    {
        let ghost before = onion.header@;
        onion.compute_filler(&nonces[i]);
        proof {
            lemma_filler_len(before, nv[i as int], p);
            let old_fillers = fillers;
            fillers = fillers.push(onion.header@);
            assert forall|j: int| 0 <= j < nv.take(i + 1).len() implies #[trigger] fillers[j + 1]
                == filler_step(fillers[j], nv.take(i + 1)[j], p) by {
                if j < i {
                    assert(old_fillers[j + 1] == filler_step(old_fillers[j], nv.take(i as int)[j], p));
                }
            }
        }
        i = i + 1;
    }
    proof {
        assert(nv.take(n as int) =~= nv);
    }
    let ghost base = onion;
    let ghost mut chain: Seq<Onion> = seq![onion];
    let mut k: usize = n;
    while k > 0
        invariant
            k <= n,
            n == identities.len(),
            n == delays.len(),
            a == public_keys.len(),
            a > 0,
            nonces.len() == n,
            nv == nonces@.map_values(|x: [u8; 16]| x@),
            nv.len() == n,
            p == per_hop_len(a as nat),
            h == n * p,
            onion.shares.len() == a,
            onion.header.len() == h,
            onion.payload.len() == data.len(),
            n * per_hop_len(a as nat) + per_hop_len(a as nat) + data.len() + 64 <= usize::MAX,
            k < n ==> onion.identity == identities[k as int],
            filler_chain(fillers, nv, p),
            forall|j: int| 0 <= j <= n ==> (#[trigger] fillers[j]).len() == h,
            forall|j: int| (n - k) * p <= j < h ==> onion.header@[j] == #[trigger] fillers[k as int][j],
            chain.len() == n - k + 1,
            chain[0] == onion,
            chain[n - k] == base,
            base.identity == 0,
            base.payload@ == data@,
            base.shares.len() == a,
            forall|j: int| 0 <= j < base.shares.len() ==> (#[trigger] base.shares[j]).spec_is_empty(),
            forall|j: int|
                0 <= j < n - k ==> #[trigger] is_layer_of(
                    chain[j],
                    chain[j + 1],
                    nv[k + j],
                    identities[k + j],
                    delays[k + j],
                ),
            forall|j: int| 0 <= j < n - k ==> #[trigger] has_filler(chain[j + 1], nv[k + j]),
        decreases k,
    {
        let ghost kh = k as int;
        k = k - 1;
        proof {
            assert(per_hop_len(a as nat) <= n * per_hop_len(a as nat)) by (nonlinear_arith)
                requires
                    k < n,
            ;
            assert((n - k - 1) * p <= h - p) by (nonlinear_arith)
                requires
                    h == n * p,
                    k < n,
            ;
            assert(fillers[k + 1] == filler_step(fillers[k as int], nv[k as int], p));
            lemma_filler_in_place(onion, nv[k as int], fillers[k as int]);
        }
        let ghost inner = onion;
        assert(nonces[k as int]@ == nv[k as int]);
        onion = onion.wrap_with_nonce(rng, &nonces[k], identities[k], public_keys, delays[k])?;
        proof {
            let shares = choose|shares: Seq<Share>| #[trigger] is_wrap_of(onion, inner, nv[k as int], identities[k as int], shares, delays[k as int]);
            assert(is_wrap_of(onion, inner, nv[k as int], identities[k as int], shares, delays[k as int]));
            assert((n - k) * p == (n - k - 1) * p + p) by (nonlinear_arith);
            assert((n - k) * p >= p) by (nonlinear_arith)
                requires
                    k < n,
            ;
            lemma_tail_after_layer(inner, onion, nv[k as int], identities[k as int], shares, delays[k as int], fillers[k as int], (n - k) * p);
            let old_chain = chain;
            chain = seq![onion] + chain;
            assert(is_layer_of(chain[0], chain[1], nv[k as int], identities[k as int], delays[k as int]));
            assert forall|j: int|
                0 <= j < n - k implies #[trigger] is_layer_of(
                    chain[j],
                    chain[j + 1],
                    nv[k + j],
                    identities[k + j],
                    delays[k + j],
                ) by {
                if j > 0 {
                    let m = j - 1;
                    assert(chain[j] == old_chain[m]);
                    assert(chain[j + 1] == old_chain[m + 1]);
                    assert(kh + m == k + j);
                    assert(is_layer_of(old_chain[m], old_chain[m + 1], nv[kh + m], identities[kh + m], delays[kh + m]));
                }
            }
            assert forall|j: int| 0 <= j < n - k implies #[trigger] has_filler(chain[j + 1], nv[k + j]) by {
                if j > 0 {
                    let m = j - 1;
                    assert(chain[j + 1] == old_chain[m + 1]);
                    assert(kh + m == k + j);
                    assert(has_filler(old_chain[m + 1], nv[kh + m]));
                }
            }
        }
    }
    proof {
        assert forall|j: int| 0 <= j < n implies #[trigger] is_layer_of(
            chain[j],
            chain[j + 1],
            nv[j],
            identities@[j],
            delays@[j],
        ) by {
            assert(k + j == j);
            assert(is_layer_of(chain[j], chain[j + 1], nv[k + j], identities[k + j], delays[k + j]));
        }
        assert forall|j: int| 0 <= j < n implies #[trigger] has_filler(chain[j + 1], nv[j]) by {
            assert(k + j == j);
            assert(has_filler(chain[j + 1], nv[k + j]));
        }
        assert(is_onion_chain(chain, nv, identities@, delays@));
    }
    Ok(onion)
}

/// Removing one layer with the nonce that made it gives back the onion inside it and the delay
/// of the hop, provided the inner header ends with the filler of that nonce.
pub proof fn lemma_layer_round_trip(
    inner: Onion,
    outer: Onion,
    nonce: Seq<u8>,
    identity: u64,
    shares: Seq<Share>,
    delay: u32,
    hop: HopInfo,
    next: Onion,
)
    requires
        shares.len() == inner.shares.len(),
        has_filler(inner, nonce),
        is_wrap_of(outer, inner, nonce, identity, shares, delay),
    ensures
        outer.header.len() >= per_hop_len(outer.shares.len() as nat),
        tag_valid(outer, nonce),
        slot_holds_shares(outer, nonce),
        is_unwrap_of(hop, next, outer, nonce) ==> {
            &&& hop.delay == delay
            &&& next.identity == inner.identity
            &&& next.shares@ == inner.shares@
            &&& next.header@ == inner.header@
            &&& next.payload@ == inner.payload@
        },
{
    let a = inner.shares.len() as nat;
    let phs = per_hop_len(a) as int;
    let h = inner.header.len() as int;
    let slot = hop_slot(delay, zero_bytes(TAG_SIZE as nat), inner.identity, inner.shares@);
    let plain = slot + inner.header@ + inner.payload@;
    let header = sealed_header(inner, nonce, delay);
    let payload = sealed_payload(inner, nonce, delay);
    lemma_shares_bytes_len(inner.shares@);
    assert(slot.len() == phs);
    assert(mac_input(identity, shares, outer.header@, outer.payload@) =~= mac_input(
        identity,
        shares,
        header,
        payload,
    ));
    let x = outer.header@ + zero_bytes(phs as nat) + outer.payload@;
    let o = opened(outer, nonce);
    assert(o.len() == plain.len());
    assert forall|i: int| 0 <= i < o.len() && !(4 <= i < 36) implies #[trigger] o[i] == plain[i] by {
        let k = aes128_ctr_keystream(nonce, zero_bytes(16), i as nat);
        lemma_xor_twice(plain[i], k);
        assert(o[i] == x[i] ^ k);
        if i < h {
            if i < 4 {
                assert(outer.header@[i] == outer.header@.take(4)[i]);
                assert(header[i] == header.take(4)[i]);
            } else {
                assert(outer.header@[i] == outer.header@.skip(36)[i - 36]);
                assert(header[i] == header.skip(36)[i - 36]);
            }
            assert(x[i] == header[i]);
        } else if i < h + phs {
            lemma_xor_twice(0u8, k);
            assert(x[i] == 0u8);
            let j = i - h;
            assert(aes128_ctr_keystream(nonce, zero_bytes(16), (inner.header.len() + j) as nat)
                == inner.header@[h - phs + j]);
            assert(plain[i] == inner.header@[i - phs]);
        } else {
            assert(x[i] == payload[i - h - phs]);
        }
    }
    assert(o.subrange(0, 4) =~= u32_le(delay));
    assert(o.subrange(36, 44) =~= u64_le(inner.identity));
    assert(o.subrange(44, 52) =~= u64_le(outer.shares.len() as u64));
    assert(o.subrange(52, phs) =~= shares_bytes(inner.shares@));
    assert(o.subrange(phs, h + phs) =~= inner.header@);
    assert(o.skip(h + phs) =~= inner.payload@);
    if is_unwrap_of(hop, next, outer, nonce) {
        lemma_u32_le_injective(hop.delay, delay);
        lemma_u64_le_injective(next.identity, inner.identity);
        lemma_shares_bytes_injective(next.shares@, inner.shares@);
    }
}

/// Wrap, then unwrap hop by hop: hop `k` of a chain of layers, removing its layer with its
/// nonce, finds a valid tag, learns its delay, and passes on exactly the next layer; after the
/// last hop comes the onion that the chain ends with.
pub proof fn lemma_chain_round_trip(
    layers: Seq<Onion>,
    nonces: Seq<Seq<u8>>,
    identities: Seq<u64>,
    delays: Seq<u32>,
    k: int,
    hop: HopInfo,
    next: Onion,
)
    requires
        is_onion_chain(layers, nonces, identities, delays),
        0 <= k < identities.len(),
        is_unwrap_of(hop, next, layers[k], nonces[k]),
    ensures
        layers[k].header.len() >= per_hop_len(layers[k].shares.len() as nat),
        tag_valid(layers[k], nonces[k]),
        slot_holds_shares(layers[k], nonces[k]),
        hop.delay == delays[k],
        same_contents(next, layers[k + 1]),
{
    assert(is_layer_of(layers[k], layers[k + 1], nonces[k], identities[k], delays[k]));
    assert(has_filler(layers[k + 1], nonces[k]));
    let shares = choose|shares: Seq<Share>| #[trigger] is_wrap_of(layers[k], layers[k + 1], nonces[k], identities[k], shares, delays[k]);
    lemma_layer_round_trip(layers[k + 1], layers[k], nonces[k], identities[k], shares, delays[k], hop, next);
}

} // verus!
