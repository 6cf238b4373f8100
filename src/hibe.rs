//! Hierarchical identity-based encryption (Boneh–Boyen–Goh) as the onion format uses it: the
//! mapping of tree nodes to identities, hybrid encryption of shares, and key generation and
//! derivation that reuse precomputed products of the public key.
use crate::format::HIBE_OVERHEAD;
use crate::nodename::{leaf_of, node_contains, HIERARCHY_DEPTH, NodeName};
use bls12_381_plus::elliptic_curve::Field;
use bls12_381_plus::{G1Affine, G1Projective, G2Affine, G2Projective, Scalar};
use hohibe::error::Error;
use hohibe::kem::{HashMapper, HybridKem, PrivateKey, PublicKey};
use hohibe::Mapper;
use rand::rngs::StdRng;
use vstd::arithmetic::power2::pow2;
use vstd::bits::lemma_u64_shr_is_div;
use vstd::prelude::*;

verus! {

#[verifier::external_type_specification]
#[verifier::external_body]
pub struct ExScalar(Scalar);

#[verifier::external_type_specification]
#[verifier::external_body]
pub struct ExHibeError(Error);

#[verifier::external_type_specification]
#[verifier::external_body]
pub struct ExPublicKey(PublicKey);

#[verifier::external_type_specification]
#[verifier::external_body]
pub struct ExPrivateKey(PrivateKey);

/// The bits of a node's path, from the most significant (the first step from the root) down.
pub open spec fn node_bits(n: (nat, nat)) -> Seq<u64> {
    Seq::new(n.0, |i: int| ((n.1 / pow2((n.0 - 1 - i) as nat)) % 2) as u64)
}

/// The scalar that the hash mapper makes of one element of an identity.
pub uninterp spec fn hashed_scalar(element: u64) -> Scalar;

/// The payload that a hybrid HIBE ciphertext decrypts to under a private key, if it decrypts.
pub uninterp spec fn hibe_plaintext(key: PrivateKey, ciphertext: Seq<u8>) -> Option<Seq<u8>>;

/// The payload that a hybrid HIBE ciphertext carries to an identity under a public key: what
/// every private key of that identity decrypts it to.
pub uninterp spec fn hibe_payload(public_key: PublicKey, identity: Seq<u64>, ciphertext: Seq<u8>) -> Option<Seq<u8>>;

/// Relies on `hohibe::kem::HashMapper` (`Mapper::map_identity`): one scalar for each element,
/// hashed from that element alone; it never fails.
#[verifier::external_body]
fn hash_identity(elements: Vec<u64>) -> (r: Result<Vec<Scalar>, Error>)
    ensures
        r is Ok,
        r is Ok ==> r->Ok_0.len() == elements.len(),
        r is Ok ==> forall|i: int| 0 <= i < elements.len() ==> #[trigger] r->Ok_0[i] == hashed_scalar(elements[i]),
{
    HashMapper.map_identity(elements)
}

/// Relies on `hohibe::kem::HybridKem::encrypt`, over the handle that `HybridKem::new(max_depth)`
/// makes (it only records the depth and the hash mapper): the payload under a fresh key
/// encapsulated to the identity. It fails only when the identity is longer than the depth. The
/// ciphertext is the bincode encoding of the encapsulation (a G1 and a G2 point, written as
/// fixed tuples of 48 and 96 bytes) and of the length-prefixed encrypted payload.
#[verifier::external_body]
pub(crate) fn hibe_encrypt(
    rng: &mut StdRng,
    max_depth: usize,
    public_key: &PublicKey,
    identity: Vec<u64>,
    payload: &[u8],
) -> (r: Result<Vec<u8>, Error>)
    ensures
        r is Ok <==> identity.len() <= max_depth,
        r is Ok ==> r->Ok_0.len() == payload.len() + HIBE_OVERHEAD,
        r is Ok ==> hibe_payload(*public_key, identity@, r->Ok_0@) == Some(payload@),
{
    HybridKem::new(max_depth).encrypt(rng, public_key, identity, payload)
}

/// Relies on `hohibe::kem::HybridKem::decrypt`, over the handle that `HybridKem::new(max_depth)`
/// makes: the payload of a ciphertext that `encrypt` made, under a private key of its identity.
/// The result depends on the private key and the ciphertext alone (decapsulation ignores the
/// public key).
#[verifier::external_body]
pub(crate) fn hibe_decrypt(
    max_depth: usize,
    public_key: &PublicKey,
    private_key: &PrivateKey,
    ciphertext: &[u8],
) -> (r: Result<Vec<u8>, Error>)
    ensures
        r is Ok <==> hibe_plaintext(*private_key, ciphertext@) is Some,
        r is Ok ==> hibe_plaintext(*private_key, ciphertext@) == Some(r->Ok_0@),
{
    HybridKem::new(max_depth).decrypt(public_key, private_key, ciphertext)
}

/// Maps the nodes of the tree to HIBE identities: one scalar per level, hashed from the bit of
/// the path at that level.
#[derive(Clone, Copy, Debug, PartialEq, Eq)]
pub struct NodenameMapper;

impl NodenameMapper {
    /// The bits of the node's path, most significant first.
    pub fn bits(&self, node: NodeName) -> (r: Vec<u64>)
        requires
            node.wf(),
        ensures
            r@ == node_bits(node@),
    {
        let len = node.len();
        let path = node.path();
        let mut r: Vec<u64> = Vec::new();
        let mut i: u8 = 0;
        while i < len
            invariant
                i <= len,
                len == node.spec_len(),
                len <= HIERARCHY_DEPTH,
                path == node.spec_path(),
                r@ == node_bits(node@).take(i as int),
            decreases len - i,
        {
            let shift: u8 = len - 1 - i;
            let shifted = path >> (shift as u64);
            proof {
                lemma_u64_shr_is_div(path, shift as u64);
            }
            assert(shifted & 1 == shifted % 2) by (bit_vector);
            r.push(shifted & 1);
            i = i + 1;
            assert(r@ =~= node_bits(node@).take(i as int));
        }
        assert(r@ =~= node_bits(node@));
        r
    }

    /// The identity of a node: one scalar per level.
    pub fn map_identity(&self, node: NodeName) -> (r: Vec<Scalar>)
        requires
            node.wf(),
        ensures
            r.len() == node.spec_len(),
            forall|i: int| 0 <= i < r.len() ==> #[trigger] r[i] == hashed_scalar(node_bits(node@)[i]),
    {
        let bits = self.bits(node);
        match hash_identity(bits) {
            Ok(v) => v,
            Err(_) => Vec::new(),
        }
    }

    /// For each level, the two scalars that can stand there: that of bit 0, then that of bit 1.
    pub fn identity_matrix() -> (r: Vec<Vec<Scalar>>)
        ensures
            r.len() == HIERARCHY_DEPTH,
            forall|i: int| 0 <= i < r.len() ==> (#[trigger] r[i])@ == seq![hashed_scalar(0), hashed_scalar(1)],
    {
        let zero = NodeName::number(0);
        let one = NodeName::number(0xFFFF_FFFF_FFFF_FFFF);
        let a = NodenameMapper.map_identity(zero);
        let b = NodenameMapper.map_identity(one);
        proof {
            crate::nodename::lemma_small_pow2();
            vstd::arithmetic::div_mod::lemma_small_mod(0, pow2(32));
            assert(one.spec_path() == 0xFFFF_FFFFu64);
        }
        let mut result: Vec<Vec<Scalar>> = Vec::new();
        let mut i: usize = 0;
        while i < a.len()
            invariant
                a.len() == HIERARCHY_DEPTH,
                b.len() == HIERARCHY_DEPTH,
                zero@ == (32nat, 0nat),
                one@ == (32nat, 0xFFFF_FFFFnat),
                forall|k: int| 0 <= k < a.len() ==> #[trigger] a[k] == hashed_scalar(node_bits(zero@)[k]),
                forall|k: int| 0 <= k < b.len() ==> #[trigger] b[k] == hashed_scalar(node_bits(one@)[k]),
                i <= a.len(),
                result.len() == i,
                forall|k: int| 0 <= k < result.len() ==> (#[trigger] result[k])@ == seq![hashed_scalar(0), hashed_scalar(1)],
            decreases a.len() - i,
        {
            proof {
                let shift = (31 - i) as u64;
                let ones = 0xFFFF_FFFFu64;
                lemma_u64_shr_is_div(ones, shift);
                lemma_u64_shr_is_div(0u64, shift);
                assert((ones >> shift) & 1 == 1) by (bit_vector)
                    requires
                        shift < 32,
                        ones == 0xFFFF_FFFFu64,
                ;
                assert((ones >> shift) & 1 == (ones >> shift) % 2) by (bit_vector);
                assert(node_bits(one@)[i as int] == 1);
                vstd::arithmetic::power2::lemma_pow2_pos((31 - i) as nat);
                assert(0nat / pow2((31 - i) as nat) == 0) by (nonlinear_arith)
                    requires
                        pow2((31 - i) as nat) > 0,
                ;
                assert(node_bits(zero@)[i as int] == 0);
            }
            let mut pair: Vec<Scalar> = Vec::new();
            pair.push(a[i]);
            pair.push(b[i]);
            assert(pair@ =~= seq![hashed_scalar(0), hashed_scalar(1)]);
            result.push(pair);
            i = i + 1;
        }
        result
    }
}

#[verifier::external_type_specification]
#[verifier::external_body]
pub struct ExG1Affine(G1Affine);

#[verifier::external_type_specification]
#[verifier::external_body]
pub struct ExG1Projective(G1Projective);

#[verifier::external_type_specification]
#[verifier::external_body]
pub struct ExG2Affine(G2Affine);

#[verifier::external_type_specification]
#[verifier::external_body]
pub struct ExG2Projective(G2Projective);

/// The public key of the Boneh–Boyen–Goh scheme: `(g, g1, g2, g3, h)`, with one `h` per level.
pub type BbgPublicKey = (G1Affine, G1Affine, G2Affine, G2Affine, Vec<G2Affine>);

/// A private key of the Boneh–Boyen–Goh scheme: `(a, b, k)`, with one `k` per level below the
/// identity.
pub type BbgPrivateKey = (G2Affine, G1Affine, Vec<G2Affine>);

/// The master key of the Boneh–Boyen–Goh scheme.
pub type BbgMasterKey = G2Affine;

/// The results of the curve operations, named: each depends on its arguments alone.
pub uninterp spec fn g2_times(p: G2Affine, s: Scalar) -> G2Projective;

pub uninterp spec fn g2_projective_times(p: G2Projective, s: Scalar) -> G2Projective;

pub uninterp spec fn g2_plus(a: G2Projective, b: G2Projective) -> G2Projective;

pub uninterp spec fn g2_plus_affine(a: G2Projective, b: G2Affine) -> G2Projective;

pub uninterp spec fn g2_affine_of(p: G2Projective) -> G2Affine;

pub uninterp spec fn g2_projective_of(p: G2Affine) -> G2Projective;

pub uninterp spec fn g1_times(p: G1Affine, s: Scalar) -> G1Projective;

pub uninterp spec fn g1_plus_affine(a: G1Projective, b: G1Affine) -> G1Projective;

pub uninterp spec fn g1_affine_of(p: G1Projective) -> G1Affine;

/// Relies on `bls12_381_plus`: `&G2Affine * &Scalar`, the point times the scalar.
#[verifier::external_body]
fn g2_mul(p: &G2Affine, s: &Scalar) -> (r: G2Projective)
    ensures
        r == g2_times(*p, *s),
{
    p * s
}

/// Relies on `bls12_381_plus`: `&G2Projective * &Scalar`, the point times the scalar.
#[verifier::external_body]
fn g2_projective_mul(p: &G2Projective, s: &Scalar) -> (r: G2Projective)
    ensures
        r == g2_projective_times(*p, *s),
{
    p * s
}

/// Relies on `bls12_381_plus`: `&G2Projective + &G2Projective`, the sum of the points.
#[verifier::external_body]
fn g2_add(a: &G2Projective, b: &G2Projective) -> (r: G2Projective)
    ensures
        r == g2_plus(*a, *b),
{
    a + b
}

/// Relies on `bls12_381_plus`: `&G2Projective + &G2Affine`, the sum of the points.
#[verifier::external_body]
fn g2_add_affine(a: &G2Projective, b: &G2Affine) -> (r: G2Projective)
    ensures
        r == g2_plus_affine(*a, *b),
{
    a + b
}

/// Relies on `bls12_381_plus`: `G2Affine::from(&G2Projective)`, the same point in affine form.
#[verifier::external_body]
fn g2_to_affine(p: &G2Projective) -> (r: G2Affine)
    ensures
        r == g2_affine_of(*p),
{
    G2Affine::from(p)
}

/// Relies on `bls12_381_plus`: `G2Projective::from(&G2Affine)`, the same point in projective form.
#[verifier::external_body]
fn g2_to_projective(p: &G2Affine) -> (r: G2Projective)
    ensures
        r == g2_projective_of(*p),
{
    G2Projective::from(p)
}

/// Relies on `bls12_381_plus`: `&G1Affine * &Scalar`, the point times the scalar.
#[verifier::external_body]
fn g1_mul(p: &G1Affine, s: &Scalar) -> (r: G1Projective)
    ensures
        r == g1_times(*p, *s),
{
    p * s
}

/// Relies on `bls12_381_plus`: `&G1Projective + &G1Affine`, the sum of the points.
#[verifier::external_body]
fn g1_add_affine(a: &G1Projective, b: &G1Affine) -> (r: G1Projective)
    ensures
        r == g1_plus_affine(*a, *b),
{
    a + b
}

/// Relies on `bls12_381_plus`: `G1Affine::from(&G1Projective)`, the same point in affine form.
#[verifier::external_body]
fn g1_to_affine(p: &G1Projective) -> (r: G1Affine)
    ensures
        r == g1_affine_of(*p),
{
    G1Affine::from(p)
}

/// Relies on `PartialEq` for `bls12_381_plus::Scalar` (`ct_eq` on the limbs): scalars are kept
/// fully reduced, so equal limbs are the same scalar.
#[verifier::external_body]
fn scalar_eq(a: &Scalar, b: &Scalar) -> (r: bool)
    ensures
        r == (*a == *b),
{
    a == b
}

/// Relies on `ff::Field::random` for `bls12_381_plus::Scalar`: a scalar drawn from the generator.
#[verifier::external_body]
fn random_scalar(rng: &mut StdRng) -> Scalar {
    Scalar::random(rng)
}

#[derive(Clone, Copy, Debug, PartialEq, Eq)]
pub enum KeygenError {
    /// The identity is longer than the generator allows.
    IdentityTooLong,
    /// The maximal depth exceeds the levels of the public key, or a parent key has no level
    /// left to derive.
    MalformedKey,
}

/// A `k` of a parent key after derivation: `k + h_level * t` where the public key has that level,
/// else unchanged.
pub open spec fn rerandomised(hs: Seq<G2Affine>, level: int, k: G2Affine, t: Scalar) -> G2Affine {
    if level < hs.len() {
        g2_affine_of(g2_plus_affine(g2_times(hs[level], t), k))
    } else {
        k
    }
}

/// Generates and derives Boneh–Boyen–Goh private keys, with the products `h_i * s` of the
/// public key's elements and the scalars that can stand at each level computed in advance.
pub struct CachedBbgKeygen {
    max_depth: usize,
    /// For each level `i`, pairs `(s, h_i * s)`.
    products: Vec<Vec<(Scalar, G2Projective)>>,
    public_key: BbgPublicKey,
}

/// `g3` plus `h_i * ids[i]` for every level `i` of the identity, added level by level.
pub open spec fn identity_point(g3: G2Affine, hs: Seq<G2Affine>, ids: Seq<Scalar>) -> G2Projective
    decreases ids.len(),
{
    if ids.len() == 0 {
        g2_projective_of(g3)
    } else {
        g2_plus(identity_point(g3, hs, ids.drop_last()), g2_times(hs[ids.len() - 1], ids.last()))
    }
}

/// Every cached product of a level is that level's `h` times the cached scalar.
pub open spec fn products_correct(products: Seq<Seq<(Scalar, G2Projective)>>, hs: Seq<G2Affine>) -> bool {
    &&& products.len() <= hs.len()
    &&& forall|i: int, e: int|
        0 <= i < products.len() && 0 <= e < products[i].len() ==> (#[trigger] products[i][e]).1
            == g2_times(hs[i], products[i][e].0)
}

impl CachedBbgKeygen {
    pub closed spec fn spec_max_depth(&self) -> nat {
        self.max_depth as nat
    }

    /// The number of levels of the public key.
    pub closed spec fn spec_levels(&self) -> nat {
        self.public_key.4.len() as nat
    }

    /// The public key, with its levels as a sequence.
    pub closed spec fn spec_public_key(&self) -> (G1Affine, G1Affine, G2Affine, G2Affine, Seq<G2Affine>) {
        (self.public_key.0, self.public_key.1, self.public_key.2, self.public_key.3, self.public_key.4@)
    }

    /// The cached products, level by level.
    pub closed spec fn spec_products(&self) -> Seq<Seq<(Scalar, G2Projective)>> {
        self.products@.map_values(|level: Vec<(Scalar, G2Projective)>| level@)
    }

    /// The maximal depth fits in the levels of the public key, and every cached product is right.
    pub open spec fn wf(&self) -> bool {
        &&& self.spec_max_depth() <= self.spec_levels()
        &&& products_correct(self.spec_products(), self.spec_public_key().4)
    }

    pub fn max_depth(&self) -> (r: usize)
        ensures
            r == self.spec_max_depth(),
    {
        self.max_depth
    }

    /// Computes `h_i * s` for every scalar `s` that `identities[i]` lists.
    pub fn generate(max_depth: usize, public_key: &BbgPublicKey, identities: &[Vec<Scalar>]) -> (r:
        Result<Self, KeygenError>)
        ensures
            identities.len() > max_depth ==> r == Err::<Self, KeygenError>(KeygenError::IdentityTooLong),
            identities.len() <= max_depth && max_depth > public_key.4.len() ==> r == Err::<Self, KeygenError>(KeygenError::MalformedKey),
            identities.len() <= max_depth && max_depth <= public_key.4.len() ==> (r matches Ok(c)
                && c.wf() && c.spec_max_depth() == max_depth && c.spec_levels() == public_key.4.len()
                && c.spec_public_key() == (public_key.0, public_key.1, public_key.2, public_key.3, public_key.4@)
                && c.spec_products().len() == identities.len()
                && forall|i: int| 0 <= i < identities.len() ==> (#[trigger] c.spec_products()[i]) == identities@[i]@.map_values(
                    |s: Scalar| (s, g2_times(public_key.4@[i], s)),
                )),
    {
        if identities.len() > max_depth {
            return Err(KeygenError::IdentityTooLong);
        }
        if max_depth > public_key.4.len() {
            return Err(KeygenError::MalformedKey);
        }
        let mut products: Vec<Vec<(Scalar, G2Projective)>> = Vec::new();
        let mut idx: usize = 0;
        while idx < identities.len()
            invariant
                idx <= identities.len() <= max_depth <= public_key.4.len(),
                products.len() == idx,
                forall|i: int| 0 <= i < idx ==> (#[trigger] products@[i])@ == identities@[i]@.map_values(
                    |s: Scalar| (s, g2_times(public_key.4@[i], s)),
                ),
            decreases identities.len() - idx,
        {
            let elements = &identities[idx];
            let mut level: Vec<(Scalar, G2Projective)> = Vec::new();
            let mut e: usize = 0;
            while e < elements.len()
                invariant
                    e <= elements.len(),
                    idx < public_key.4.len(),
                    elements == &identities@[idx as int],
                    level@ == elements@.take(e as int).map_values(
                        |s: Scalar| (s, g2_times(public_key.4@[idx as int], s)),
                    ),
                decreases elements.len() - e,
            {
                let product = g2_mul(&public_key.4[idx], &elements[e]);
                level.push((elements[e], product));
                e = e + 1;
                assert(level@ =~= elements@.take(e as int).map_values(
                    |s: Scalar| (s, g2_times(public_key.4@[idx as int], s)),
                ));
            }
            assert(elements@.take(e as int) =~= elements@);
            products.push(level);
            idx = idx + 1;
        }
        let mut hs: Vec<G2Affine> = Vec::new();
        let mut i: usize = 0;
        while i < public_key.4.len()
            invariant
                i <= public_key.4.len(),
                hs@ == public_key.4@.take(i as int),
            decreases public_key.4.len() - i,
        {
            hs.push(public_key.4[i]);
            i = i + 1;
            assert(hs@ =~= public_key.4@.take(i as int));
        }
        assert(hs@ =~= public_key.4@);
        let c = CachedBbgKeygen {
            max_depth,
            products,
            public_key: (public_key.0, public_key.1, public_key.2, public_key.3, hs),
        };
        assert forall|i: int| 0 <= i < identities.len() implies (#[trigger] c.spec_products()[i])
            == identities@[i]@.map_values(|s: Scalar| (s, g2_times(public_key.4@[i], s))) by {
            assert(c.spec_products()[i] == products@[i]@);
        }
        assert forall|i: int, e: int|
            0 <= i < c.spec_products().len() && 0 <= e < c.spec_products()[i].len() implies (
            #[trigger] c.spec_products()[i][e]).1 == g2_times(c.spec_public_key().4[i], c.spec_products()[i][e].0) by {
            assert(c.spec_products()[i] == identities@[i]@.map_values(|s: Scalar| (s, g2_times(public_key.4@[i], s))));
        }
        Ok(c)
    }

    /// `h_index * identity`, from the cache when it holds it.
    fn product(&self, index: usize, identity: &Scalar) -> (r: G2Projective)
        requires
            self.wf(),
            index < self.spec_levels(),
        ensures
            r == g2_times(self.spec_public_key().4[index as int], *identity),
    {
        if index < self.products.len() {
            let level = &self.products[index];
            let mut e: usize = 0;
            while e < level.len()
                invariant
                    e <= level.len(),
                    index < self.products.len(),
                    level == &self.products@[index as int],
                    self.wf(),
                decreases level.len() - e,
            {
                if scalar_eq(&level[e].0, identity) {
                    assert(self.spec_products()[index as int][e as int] == level@[e as int]);
                    return level[e].1;
                }
                e = e + 1;
            }
        }
        g2_mul(&self.public_key.4[index], identity)
    }

    /// `g3 + sum of h_i * identity[i]`, with `last` as one more level when it is given.
    fn identity_sum(&self, identity: &[Scalar], last: Option<&Scalar>) -> (r: G2Projective)
        requires
            self.wf(),
            identity.len() + if last is Some { 1int } else { 0int } <= self.spec_levels(),
        ensures
            r == identity_point(
                self.spec_public_key().3,
                self.spec_public_key().4,
                match last {
                    Some(child) => identity@.push(*child),
                    None => identity@,
                },
            ),
    {
        let mut sum = g2_to_projective(&self.public_key.3);
        let mut i: usize = 0;
        while i < identity.len()
            invariant
                self.wf(),
                i <= identity.len(),
                identity.len() + if last is Some { 1int } else { 0int } <= self.spec_levels(),
                sum == identity_point(self.spec_public_key().3, self.spec_public_key().4, identity@.take(i as int)),
            decreases identity.len() - i,
        {
            let p = self.product(i, &identity[i]);
            sum = g2_add(&sum, &p);
            proof {
                assert(identity@.take(i + 1).drop_last() =~= identity@.take(i as int));
            }
            i = i + 1;
        }
        assert(identity@.take(i as int) =~= identity@);
        if let Some(child) = last {
            let p = self.product(identity.len(), child);
            sum = g2_add(&sum, &p);
            assert(identity@.push(*child).drop_last() =~= identity@);
        }
        sum
    }

    /// A private key for `identity`: `(master_key + (g3 + sum h_i * I_i) * r, g * r, h_j * r for
    /// the levels j below the identity)`, with a fresh `r`.
    pub fn generate_key(&self, rng: &mut StdRng, master_key: &BbgMasterKey, identity: &[Scalar]) -> (r:
        Result<BbgPrivateKey, KeygenError>)
        requires
            self.wf(),
        ensures
            identity.len() > self.spec_max_depth() ==> r == Err::<BbgPrivateKey, KeygenError>(KeygenError::IdentityTooLong),
            identity.len() <= self.spec_max_depth() ==> (r matches Ok(k) && k.2.len() == self.spec_levels()
                - identity.len() && exists|x: Scalar|
                #![trigger g1_times(self.spec_public_key().0, x)]
                k.0 == g2_affine_of(
                    g2_plus_affine(
                        g2_projective_times(
                            identity_point(self.spec_public_key().3, self.spec_public_key().4, identity@),
                            x,
                        ),
                        *master_key,
                    ),
                ) && k.1
                    == g1_affine_of(g1_times(self.spec_public_key().0, x)) && k.2@ == Seq::new(
                    (self.spec_levels() - identity.len()) as nat,
                    |j: int| g2_affine_of(g2_times(self.spec_public_key().4[identity.len() + j], x)),
                )),
    {
        if identity.len() > self.max_depth {
            return Err(KeygenError::IdentityTooLong);
        }
        let r = random_scalar(rng);
        let sum = self.identity_sum(identity, None);
        let scaled = g2_projective_mul(&sum, &r);
        let a = g2_to_affine(&g2_add_affine(&scaled, master_key));
        let b = g1_to_affine(&g1_mul(&self.public_key.0, &r));
        let mut k: Vec<G2Affine> = Vec::new();
        let mut j: usize = identity.len();
        while j < self.public_key.4.len()
            invariant
                identity.len() <= j <= self.public_key.4.len(),
                k@ == Seq::new(
                    (j - identity.len()) as nat,
                    |m: int| g2_affine_of(g2_times(self.spec_public_key().4[identity.len() + m], r)),
                ),
            decreases self.public_key.4.len() - j,
        {
            k.push(g2_to_affine(&g2_mul(&self.public_key.4[j], &r)));
            j = j + 1;
            assert(k@ =~= Seq::new(
                (j - identity.len()) as nat,
                |m: int| g2_affine_of(g2_times(self.spec_public_key().4[identity.len() + m], r)),
            ));
        }
        assert(g1_times(self.spec_public_key().0, r) == g1_times(self.public_key.0, r));
        Ok((a, b, k))
    }

    /// The private key of the parent's identity extended by `child`, derived from the parent's
    /// key: the first `k` of the parent absorbs the child, and every remaining `k` is
    /// rerandomised with a fresh `t`. The parent key is consumed.
    pub fn derive_key(
        &self,
        rng: &mut StdRng,
        parent_key: BbgPrivateKey,
        parent_name: &[Scalar],
        child: &Scalar,
    ) -> (r: Result<BbgPrivateKey, KeygenError>)
        requires
            self.wf(),
        ensures
            parent_name.len() >= self.spec_max_depth() ==> r == Err::<BbgPrivateKey, KeygenError>(KeygenError::IdentityTooLong),
            parent_name.len() < self.spec_max_depth() && parent_key.2.len() == 0 ==> r == Err::<BbgPrivateKey, KeygenError>(KeygenError::MalformedKey),
            parent_name.len() < self.spec_max_depth() && parent_key.2.len() > 0 ==> (r matches Ok(k)
                && k.2.len() == parent_key.2.len() - 1 && exists|x: Scalar|
                #![trigger g1_times(self.spec_public_key().0, x)]
                k.0 == g2_affine_of(
                    g2_plus(
                        g2_projective_of(parent_key.0),
                        g2_plus(
                            g2_times(parent_key.2[0], *child),
                            g2_projective_times(
                                identity_point(
                                    self.spec_public_key().3,
                                    self.spec_public_key().4,
                                    parent_name@.push(*child),
                                ),
                                x,
                            ),
                        ),
                    ),
                ) && k.1 == g1_affine_of(g1_plus_affine(g1_times(self.spec_public_key().0, x), parent_key.1))
                    && k.2@ == Seq::new(
                    (parent_key.2.len() - 1) as nat,
                    |m: int| rerandomised(self.spec_public_key().4, parent_name.len() + m + 1, parent_key.2[m + 1], x),
                )),
    {
        if parent_name.len() >= self.max_depth {
            return Err(KeygenError::IdentityTooLong);
        }
        if parent_key.2.len() == 0 {
            return Err(KeygenError::MalformedKey);
        }
        let (parent_a, parent_b, parent_k) = parent_key;
        let first = parent_k[0];
        let t = random_scalar(rng);
        let mut k: Vec<G2Affine> = Vec::new();
        let room = self.public_key.4.len() - parent_name.len();
        let mut j: usize = 1;
        while j < parent_k.len()
            invariant
                1 <= j <= parent_k.len(),
                parent_k@ == parent_key.2@,
                k@ == Seq::new(
                    (j - 1) as nat,
                    |m: int| rerandomised(self.spec_public_key().4, parent_name.len() + m + 1, parent_k[m + 1], t),
                ),
                parent_name.len() < self.spec_max_depth() <= self.spec_levels(),
                room == self.spec_levels() - parent_name.len(),
            decreases parent_k.len() - j,
        {
            if j < room {
                let level = parent_name.len() + j;
                let rerandomised = g2_add_affine(&g2_mul(&self.public_key.4[level], &t), &parent_k[j]);
                k.push(g2_to_affine(&rerandomised));
            } else {
                k.push(parent_k[j]);
            }
            j = j + 1;
            assert(k@ =~= Seq::new(
                (j - 1) as nat,
                |m: int| rerandomised(self.spec_public_key().4, parent_name.len() + m + 1, parent_k[m + 1], t),
            ));
        }
        let sum = self.identity_sum(parent_name, Some(child));
        let scaled = g2_projective_mul(&sum, &t);
        let absorbed = g2_add(&g2_mul(&first, child), &scaled);
        let a = g2_to_affine(&g2_add(&g2_to_projective(&parent_a), &absorbed));
        let b = g1_to_affine(&g1_add_affine(&g1_mul(&self.public_key.0, &t), &parent_b));
        assert(g1_times(self.spec_public_key().0, t) == g1_times(self.public_key.0, t));
        Ok((a, b, k))
    }

    /// The private key of the leaf that `identity` names, derived level by level from the key of
    /// `node`; nothing when `node` does not contain that leaf or a derivation fails.
    pub fn derive_leaf_key(
        &self,
        rng: &mut StdRng,
        node: NodeName,
        key: BbgPrivateKey,
        identity: u64,
    ) -> (r: Option<BbgPrivateKey>)
        requires
            self.wf(),
            node.wf(),
        ensures
            !node_contains(node@, leaf_of(identity as nat)) ==> r is None,
            self.spec_max_depth() == HIERARCHY_DEPTH && node_contains(node@, leaf_of(identity as nat))
                && key.2.len() + node.spec_len() >= HIERARCHY_DEPTH ==> (r matches Some(k) && k.2.len()
                == key.2.len() + node.spec_len() - HIERARCHY_DEPTH),
    {
        let leaf = NodeName::number(identity);
        if !node.contains(leaf) {
            return None;
        }
        let ghost good = self.spec_max_depth() == HIERARCHY_DEPTH && key.2.len() + node.spec_len()
            >= HIERARCHY_DEPTH;
        let walk = leaf.walk();
        let mut current = key;
        let mut i: usize = node.len() as usize;
        while i < walk.len()
            invariant
                self.wf(),
                walk.len() == HIERARCHY_DEPTH,
                forall|j: int| 0 <= j < walk.len() ==> (#[trigger] walk[j]).wf() && walk[j].spec_len() == j + 1,
                node.spec_len() <= i <= HIERARCHY_DEPTH,
                good == (self.spec_max_depth() == HIERARCHY_DEPTH && key.2.len() + node.spec_len()
                    >= HIERARCHY_DEPTH),
                good ==> current.2.len() + i == key.2.len() + node.spec_len(),
            decreases walk.len() - i,
        {
            let identity = NodenameMapper.map_identity(walk[i]);
            let mut parent: Vec<Scalar> = Vec::new();
            let mut j: usize = 0;
            while j < i
                invariant
                    j <= i,
                    i < identity.len(),
                    parent.len() == j,
                decreases i - j,
            {
                parent.push(identity[j]);
                j = j + 1;
            }
            match self.derive_key(rng, current, parent.as_slice(), &identity[i]) {
                Ok(k) => current = k,
                Err(_) => {
                    assert(!good);
                    return None;
                },
            }
            i = i + 1;
        }
        Some(current)
    }
}

} // verus!
