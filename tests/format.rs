use aimless_onions::format::{
    per_hop_size, shamir_prime, wrap, FormatError, Identity, Onion, Share, SHARE_SIZE,
};
use aimless_onions::hibe::NodenameMapper;
use aimless_onions::nodename::NodeName;
use hohibe::kem::{HashMapper, HybridKem, MasterKey, PrivateKey, PublicKey};
use rand::rngs::StdRng;
use rand::SeedableRng;

const DATA: &[u8] = b"The quick brown fox jumps over the lazy dog";

fn authorities(rng: &mut StdRng, count: usize) -> Vec<(PublicKey, MasterKey)> {
    let kem = HybridKem::new(32);
    (0..count).map(|_| kem.setup(&mut *rng).unwrap()).collect()
}

fn private_keys(
    rng: &mut StdRng,
    authorities: &[(PublicKey, MasterKey)],
    identity: Identity,
) -> Vec<PrivateKey> {
    let kem: HybridKem<HashMapper> = HybridKem::new(32);
    let bits = NodenameMapper.bits(NodeName::number(identity));
    authorities
        .iter()
        .map(|a| kem.generate_key(&mut *rng, &a.0, &a.1, bits.clone()).unwrap())
        .collect()
}

#[test]
fn wrap_unwrap() {
    let mut rng = StdRng::from_entropy();
    let identity: Identity = 0xDEADCAFE;
    let authorities = authorities(&mut rng, 2);
    let public_keys = authorities.iter().map(|x| x.0.clone()).collect::<Vec<_>>();
    let mut onion = Onion::fresh(2, 1, Vec::from(DATA));
    let fresh_size = onion.serialized_size();
    onion = onion.wrap(&mut rng, identity, &public_keys, 1337).unwrap();

    assert_eq!(onion.serialized_size(), fresh_size);

    let private_keys = private_keys(&mut rng, &authorities, identity);
    let (unwrapped_hop, unwrapped_onion) = onion.unwrap(&public_keys, &private_keys).unwrap();

    assert_eq!(unwrapped_onion.serialized_size(), fresh_size);
    assert_eq!(unwrapped_hop.delay, 1337);
    assert_eq!(unwrapped_onion.payload, DATA);
}

#[test]
fn wrap_unwrap_tagged() {
    let mut rng = StdRng::from_entropy();
    let identity: Identity = 0xDEADCAFE;
    let authorities = authorities(&mut rng, 2);
    let public_keys = authorities.iter().map(|x| x.0.clone()).collect::<Vec<_>>();
    let mut onion = Onion::fresh(2, 1, Vec::from(DATA));
    onion = onion.wrap(&mut rng, identity, &public_keys, 1337).unwrap();

    onion.payload[0] ^= 0x01;

    let private_keys = private_keys(&mut rng, &authorities, identity);
    let unwrapped = onion.unwrap(&public_keys, &private_keys);
    assert!(unwrapped.is_err());
}

#[test]
fn wrap_unwrap_multiple() {
    let mut rng = StdRng::from_entropy();
    let identities: &[Identity] = &[0xCAFEBABE, 0xDEADBEEF, 0xC001C0DE];
    let delays = &[0x4D454F57u32, 0x4D415242, 0x63825363];
    let authorities = authorities(&mut rng, 2);
    let public_keys = authorities.iter().map(|x| x.0.clone()).collect::<Vec<_>>();
    let mut onion = wrap(&mut rng, identities, delays, &public_keys, DATA).unwrap();
    let onion_size = onion.serialized_size();

    for (identity, delay) in identities.iter().zip(delays.iter()) {
        let private_keys = private_keys(&mut rng, &authorities, *identity);
        let hop_info;
        (hop_info, onion) = onion.unwrap(&public_keys, &private_keys).unwrap();
        assert_eq!(hop_info.delay, *delay);
        assert_eq!(onion.serialized_size(), onion_size);
    }

    assert!(onion.is_final_destination());
    assert_eq!(onion.payload, DATA);
}

fn wrapped_once(rng: &mut StdRng) -> (Onion, Vec<PublicKey>, Vec<PrivateKey>) {
    let identity: Identity = 0xDEADCAFE;
    let authorities = authorities(rng, 2);
    let public_keys = authorities.iter().map(|x| x.0.clone()).collect::<Vec<_>>();
    let onion = wrap(rng, &[identity], &[1337], &public_keys, DATA).unwrap();
    let private_keys = private_keys(rng, &authorities, identity);
    (onion, public_keys, private_keys)
}

#[test]
fn single_hop_single_authority_round_trip() {
    let mut rng = StdRng::from_entropy();
    let authorities = authorities(&mut rng, 1);
    let public_keys = vec![authorities[0].0.clone()];
    let onion = wrap(&mut rng, &[0xDEADCAFE], &[1337], &public_keys, DATA).unwrap();
    assert_eq!(onion.identity, 0xDEADCAFE);
    let keys = private_keys(&mut rng, &authorities, 0xDEADCAFE);
    let (hop, onion) = onion.unwrap(&public_keys, &keys).unwrap();
    assert_eq!(hop.delay, 1337);
    assert!(onion.is_final_destination());
    assert_eq!(onion.payload, DATA);
}

#[test]
fn five_hops_nine_authorities_large_payload() {
    let identities: Vec<Identity> = vec![1, 0xFFFF_FFFF, 0x1234_5678, 0xDEAD_0000, 42];
    let delays: Vec<u32> = vec![10, 20, 30, 40, 50];
    let nonces: Vec<[u8; 16]> = (0..5u8).map(|i| [i * 17 + 3; 16]).collect();
    let payload: Vec<u8> = (0..4096u32).map(|i| (i % 251) as u8).collect();
    let mut onion = Onion::fresh(9, 5, payload.clone());
    for nonce in &nonces {
        onion.compute_filler(nonce);
    }
    for i in (0..5).rev() {
        let shares: Vec<Share> = (0..9u8).map(|j| Share([j + i as u8 * 9 + 1; SHARE_SIZE])).collect();
        onion = onion.wrap_layer(&nonces[i], identities[i], shares, delays[i]);
    }
    let size = onion.serialized_size();
    assert_eq!(size, 32 + 9 * SHARE_SIZE + 5 * per_hop_size(9) + 4096);
    assert_eq!(onion.identity, 1);
    for i in 0..5 {
        let hop;
        (hop, onion) = onion.unwrap_layer(&nonces[i]).unwrap();
        assert_eq!(hop.delay, delays[i]);
        assert_eq!(onion.serialized_size(), size);
        if i < 4 {
            assert_eq!(onion.identity, identities[i + 1]);
        }
    }
    assert!(onion.is_final_destination());
    assert_eq!(onion.payload, payload);
}

#[test]
fn flipped_bits_are_rejected() {
    let mut rng = StdRng::from_entropy();
    let (onion, public_keys, private_keys) = wrapped_once(&mut rng);
    let header_len = onion.header.len();
    let payload_len = onion.payload.len();
    for position in [0, 40, header_len - 1] {
        let mut tampered = onion.clone();
        tampered.header[position] ^= 0x10;
        assert!(tampered.unwrap(&public_keys, &private_keys).is_err());
    }
    for position in [0, payload_len / 2, payload_len - 1] {
        let mut tampered = onion.clone();
        tampered.payload[position] ^= 0x01;
        assert!(tampered.unwrap(&public_keys, &private_keys).is_err());
    }
    for position in [0, 100, SHARE_SIZE - 1] {
        let mut tampered = onion.clone();
        tampered.shares[1].0[position] ^= 0x80;
        assert!(tampered.unwrap(&public_keys, &private_keys).is_err());
    }
}

#[test]
fn wrong_keys_are_rejected() {
    let mut rng = StdRng::from_entropy();
    let (onion, public_keys, _) = wrapped_once(&mut rng);
    let others = authorities(&mut rng, 2);
    let wrong = private_keys(&mut rng, &others, 0xDEADCAFE);
    assert!(onion.unwrap(&public_keys, &wrong).is_err());
}

#[test]
fn mismatched_lengths_are_rejected() {
    let mut rng = StdRng::from_entropy();
    let authorities = authorities(&mut rng, 1);
    let public_keys = vec![authorities[0].0.clone()];
    let r = wrap(&mut rng, &[1, 2], &[3], &public_keys, DATA);
    assert_eq!(r.unwrap_err(), FormatError::MismatchedLengths);
    let r = wrap(&mut rng, &[1], &[3], &[], DATA);
    assert_eq!(r.unwrap_err(), FormatError::NoAuthorities);
    let (onion, public_keys, private_keys) = wrapped_once(&mut rng);
    let r = onion.unwrap(&public_keys[..1], &private_keys);
    assert_eq!(r.unwrap_err(), FormatError::MismatchedLengths);
}

#[test]
fn short_header_is_malformed() {
    let onion = Onion::fresh(1, 0, Vec::from(DATA));
    let r = onion.unwrap_layer(&[7; 16]);
    assert_eq!(r.unwrap_err(), FormatError::MalformedOnion);
}

#[test]
fn layer_round_trip_with_filler() {
    let nonce = [0x5a; 16];
    let mut inner = Onion::fresh(1, 2, Vec::from(DATA));
    inner.compute_filler(&nonce);
    let shares = vec![Share([3; SHARE_SIZE])];
    let outer = inner.wrap_layer(&nonce, 99, shares.clone(), 4242);
    assert_eq!(outer.identity, 99);
    assert_eq!(outer.shares, shares);
    assert_ne!(outer.payload, inner.payload);
    assert_eq!(outer.serialized_size(), inner.serialized_size());
    let (hop, next) = outer.unwrap_layer(&nonce).unwrap();
    assert_eq!(hop.delay, 4242);
    assert_eq!(next.identity, inner.identity);
    assert_eq!(next.shares, inner.shares);
    assert_eq!(next.header, inner.header);
    assert_eq!(next.payload, inner.payload);
}

#[test]
fn layer_with_other_nonce_fails_the_tag() {
    let inner = Onion::fresh(1, 1, Vec::from(DATA));
    let outer = inner.wrap_layer(&[1; 16], 5, vec![Share::empty()], 1);
    assert_eq!(outer.unwrap_layer(&[2; 16]).unwrap_err(), FormatError::MacMismatch);
}

#[test]
fn keystream_changes_the_header() {
    let mut onion = Onion::fresh(1, 1, Vec::from(DATA));
    let before = onion.header.clone();
    onion.compute_filler(&[9; 16]);
    assert_eq!(onion.header.len(), before.len());
    assert_ne!(onion.header, before);
    assert_eq!(onion.payload, DATA);
}

#[test]
fn fresh_onion_is_final() {
    let onion = Onion::fresh(3, 2, vec![1, 2, 3]);
    assert!(onion.is_final_destination());
    assert_eq!(onion.shares.len(), 3);
    assert_eq!(onion.header.len(), 2 * per_hop_size(3));
    assert_eq!(per_hop_size(3), 36 + 8 + 8 + 3 * 172);
    assert!(Share::empty().is_empty());
    assert!(!Share([1; SHARE_SIZE]).is_empty());
}

#[test]
fn share_round_trip() {
    let mut rng = StdRng::from_entropy();
    let authorities = authorities(&mut rng, 1);
    let value: Vec<u8> = vec![0x11, 0x22, 0x33, 0x44, 0x55];
    let share = Share::wrap(&mut rng, 77, &authorities[0].0, &value).unwrap();
    assert!(!share.is_empty());
    let keys = private_keys(&mut rng, &authorities, 77);
    let decrypted = share.unwrap(&authorities[0].0, &keys[0]).unwrap();
    assert_eq!(&decrypted[..5], &value[..]);
    assert!(decrypted[5..].iter().all(|b| *b == 0));
    let too_long = vec![1u8; 21];
    assert_eq!(
        Share::wrap(&mut rng, 77, &authorities[0].0, &too_long).unwrap_err(),
        FormatError::ShareEncryption
    );
}

#[test]
fn shamir_prime_value() {
    let bytes = shamir_prime();
    let expected = shamir_secret_sharing::num_bigint::BigInt::parse_bytes(
        b"927659228076472818176252176283652096798126523793",
        10,
    )
    .unwrap();
    let value = shamir_secret_sharing::num_bigint::BigInt::from_bytes_le(
        shamir_secret_sharing::num_bigint::Sign::Plus,
        &bytes,
    );
    assert_eq!(value, expected);
}
