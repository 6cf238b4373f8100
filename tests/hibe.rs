use aimless_onions::hibe::{CachedBbgKeygen, KeygenError, NodenameMapper};
use aimless_onions::nodename::NodeName;
use bls12_381_plus::Scalar;
use hohibe::hibe::{BonehBoyenGoh, Hibe, HibeKem};
use rand::rngs::StdRng;
use rand::SeedableRng;

#[test]
fn encapsulate_decapsulate_cached_keygen() {
    let mut rng = StdRng::from_entropy();
    let bbg = BonehBoyenGoh::new(5);
    let (public_key, master_key) = bbg.setup(&mut rng).unwrap();
    let cached_generator = CachedBbgKeygen::generate(
        5,
        &public_key,
        &[vec![Scalar::from(1u32)], vec![Scalar::from(2u32)], vec![]],
    )
    .unwrap();
    let identity = &[Scalar::from(1u32), Scalar::from(2u32), Scalar::from(3u32)];
    let secret_key = cached_generator
        .generate_key(&mut rng, &master_key, identity.as_slice())
        .unwrap();
    let (generated_key, encapsulated_key) = bbg
        .encapsulate(&mut rng, &public_key, identity.as_slice())
        .unwrap();
    let decapsulated_key = bbg
        .decapsulate(&public_key, &secret_key, &encapsulated_key)
        .unwrap();
    assert_eq!(generated_key, decapsulated_key);
}

#[test]
fn encapsulate_decapsulate_cached_derived() {
    let mut rng = StdRng::from_entropy();
    let bbg = BonehBoyenGoh::new(5);
    let (public_key, master_key) = bbg.setup(&mut rng).unwrap();
    let cached_generator = CachedBbgKeygen::generate(
        5,
        &public_key,
        &[vec![Scalar::from(1u32)], vec![Scalar::from(2u32)], vec![]],
    )
    .unwrap();
    let identity = &[Scalar::from(1u32), Scalar::from(2u32), Scalar::from(3u32)];
    let parent_identity = &identity[..2];
    let parent_key = cached_generator
        .generate_key(&mut rng, &master_key, parent_identity)
        .unwrap();
    let secret_key = cached_generator
        .derive_key(&mut rng, parent_key, parent_identity, &Scalar::from(3u32))
        .unwrap();
    let (generated_key, encapsulated_key) = bbg
        .encapsulate(&mut rng, &public_key, identity.as_slice())
        .unwrap();
    let decapsulated_key = bbg
        .decapsulate(&public_key, &secret_key, &encapsulated_key)
        .unwrap();
    assert_eq!(generated_key, decapsulated_key);
}

#[test]
fn cached_keys_match_uncached_keys_for_depth_three() {
    let mut rng = StdRng::from_entropy();
    let bbg = BonehBoyenGoh::new(32);
    let (public_key, master_key) = bbg.setup(&mut rng).unwrap();
    let matrix = NodenameMapper::identity_matrix();
    let cache = CachedBbgKeygen::generate(32, &public_key, &matrix).unwrap();
    let node = NodeName::new(3, 0b101);
    let identity = NodenameMapper.map_identity(node);
    assert_eq!(identity.len(), 3);
    let cached_key = cache.generate_key(&mut rng, &master_key, &identity).unwrap();
    let uncached_key = bbg.generate_key(&mut rng, &public_key, &master_key, &identity).unwrap();
    assert_eq!(cached_key.2.len(), 29);
    let (key, encapsulated) = bbg.encapsulate(&mut rng, &public_key, &identity).unwrap();
    assert_eq!(bbg.decapsulate(&public_key, &cached_key, &encapsulated).unwrap(), key);
    assert_eq!(bbg.decapsulate(&public_key, &uncached_key, &encapsulated).unwrap(), key);
}

#[test]
fn derived_keys_along_a_walk_decrypt() {
    let mut rng = StdRng::from_entropy();
    let bbg = BonehBoyenGoh::new(32);
    let (public_key, master_key) = bbg.setup(&mut rng).unwrap();
    let matrix = NodenameMapper::identity_matrix();
    let cache = CachedBbgKeygen::generate(32, &public_key, &matrix).unwrap();
    let top = NodeName::new(2, 0b10);
    let mut key = cache
        .generate_key(&mut rng, &master_key, &NodenameMapper.map_identity(top))
        .unwrap();
    let leaf = NodeName::number(0b10 << 30 | 0x1234);
    for node in leaf.walk() {
        if node.len() <= top.len() {
            continue;
        }
        let identity = NodenameMapper.map_identity(node);
        let (child, parent) = identity.split_last().unwrap();
        key = cache.derive_key(&mut rng, key, parent, child).unwrap();
    }
    assert!(key.2.is_empty());
    let identity = NodenameMapper.map_identity(leaf);
    let (expected, encapsulated) = bbg.encapsulate(&mut rng, &public_key, &identity).unwrap();
    assert_eq!(bbg.decapsulate(&public_key, &key, &encapsulated).unwrap(), expected);
}

#[test]
fn keygen_errors() {
    let mut rng = StdRng::from_entropy();
    let bbg = BonehBoyenGoh::new(3);
    let (public_key, master_key) = bbg.setup(&mut rng).unwrap();
    assert_eq!(
        CachedBbgKeygen::generate(1, &public_key, &[vec![], vec![]]).err(),
        Some(KeygenError::IdentityTooLong)
    );
    assert_eq!(
        CachedBbgKeygen::generate(4, &public_key, &[]).err(),
        Some(KeygenError::MalformedKey)
    );
    let cache = CachedBbgKeygen::generate(3, &public_key, &[]).unwrap();
    let long = vec![Scalar::from(1u32); 4];
    assert_eq!(
        cache.generate_key(&mut rng, &master_key, &long).err(),
        Some(KeygenError::IdentityTooLong)
    );
    let full = vec![Scalar::from(1u32); 3];
    let leaf_key = cache.generate_key(&mut rng, &master_key, &full).unwrap();
    assert!(leaf_key.2.is_empty());
    assert_eq!(
        cache
            .derive_key(&mut rng, leaf_key.clone(), &full, &Scalar::from(2u32))
            .err(),
        Some(KeygenError::IdentityTooLong)
    );
    assert_eq!(
        cache
            .derive_key(&mut rng, leaf_key, &full[..2], &Scalar::from(2u32))
            .err(),
        Some(KeygenError::MalformedKey)
    );
}

#[test]
fn identity_bits_and_matrix() {
    let bits = NodenameMapper.bits(NodeName::new(4, 0b1011));
    assert_eq!(bits, vec![1, 0, 1, 1]);
    let matrix = NodenameMapper::identity_matrix();
    assert_eq!(matrix.len(), 32);
    assert!(matrix.iter().all(|level| level.len() == 2));
    let zero = NodenameMapper.map_identity(NodeName::number(0));
    let one = NodenameMapper.map_identity(NodeName::number(u64::MAX));
    assert_eq!(matrix[5][0], zero[5]);
    assert_eq!(matrix[5][1], one[5]);
    assert_ne!(zero[5], one[5]);
}

#[test]
fn leaf_keys_from_an_allocated_node() {
    let mut rng = StdRng::from_entropy();
    let bbg = BonehBoyenGoh::new(32);
    let (public_key, master_key) = bbg.setup(&mut rng).unwrap();
    let matrix = NodenameMapper::identity_matrix();
    let cache = CachedBbgKeygen::generate(32, &public_key, &matrix).unwrap();
    let node = NodeName::new(3, 0b011);
    let key = cache
        .generate_key(&mut rng, &master_key, &NodenameMapper.map_identity(node))
        .unwrap();
    let identity = (0b011u64 << 29) | 0xABCD;
    let leaf_key = cache.derive_leaf_key(&mut rng, node, key.clone(), identity).unwrap();
    let leaf_identity = NodenameMapper.map_identity(NodeName::number(identity));
    let (expected, encapsulated) = bbg.encapsulate(&mut rng, &public_key, &leaf_identity).unwrap();
    assert_eq!(bbg.decapsulate(&public_key, &leaf_key, &encapsulated).unwrap(), expected);
    assert!(cache.derive_leaf_key(&mut rng, node, key, 0).is_none());
}
