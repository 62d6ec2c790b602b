use ed25519_dalek::{Signer, SigningKey};
use onchain_id::crypto::{claim_id, claim_message, claim_signature_valid};
use onchain_id::error::OnChainIdError;
use onchain_id::identity::Identity;
use soroban_sdk::xdr::ToXdr;

fn random_key() -> [u8; 32] {
    rand::random::<[u8; 32]>()
}

fn issuer_pair() -> (SigningKey, [u8; 32]) {
    let signing = SigningKey::from_bytes(&rand::random::<[u8; 32]>());
    let public = signing.verifying_key().to_bytes();
    (signing, public)
}

fn sign_claim(signing: &SigningKey, identity: &[u8; 32], topic: u32, data: &[u8]) -> [u8; 64] {
    let mut combined: Vec<u8> = Vec::new();
    combined.extend_from_slice(identity);
    combined.extend_from_slice(&topic.to_be_bytes());
    combined.extend_from_slice(data);
    signing.sign(&combined).to_bytes()
}

#[test]
fn test_add_key() {
    let mut id = Identity::new();
    let issuer = random_key();
    let add_key_result = id.add_key(issuer, 3, 1);
    assert_eq!(add_key_result, Ok(true));
}

#[test]
fn test_get_key() {
    let mut id = Identity::new();
    let issuer = random_key();
    let add_key_result = id.add_key(issuer, 3, 1);
    assert_eq!(add_key_result, Ok(true));

    let get_key_result = id.get_key(issuer);
    assert_eq!(get_key_result, Ok((vec![3], 1, issuer)));
}

#[test]
fn test_get_key_purposes() {
    let mut id = Identity::new();
    let issuer = random_key();
    let add_key_result = id.add_key(issuer, 3, 1);
    assert_eq!(add_key_result, Ok(true));

    let get_key_purposes_result = id.get_key_purposes(issuer);
    assert_eq!(get_key_purposes_result, Ok(vec![3]));
}

#[test]
fn test_get_keys_by_purpose() {
    let mut id = Identity::new();
    let issuer = random_key();
    let add_key_result = id.add_key(issuer, 3, 1);
    assert_eq!(add_key_result, Ok(true));

    let get_keys_by_purpose_result = id.get_keys_by_purpose(3);
    assert_eq!(get_keys_by_purpose_result, vec![issuer]);
}

#[test]
fn test_key_has_purpose() {
    let mut id = Identity::new();
    let issuer = random_key();
    let add_key_result = id.add_key(issuer, 3, 1);
    assert_eq!(add_key_result, Ok(true));

    let key_has_purpose_result = id.key_has_purpose(issuer, 3);
    assert_eq!(key_has_purpose_result, Ok(true));
}

#[test]
fn test_remove_key() {
    let mut id = Identity::new();
    let issuer = random_key();
    let add_key_result = id.add_key(issuer, 3, 1);
    assert_eq!(add_key_result, Ok(true));

    let remove_key_result = id.remove_key(issuer, 3);
    assert_eq!(remove_key_result, Ok(true));
}

#[test]
fn test_add_claim() {
    let mut id = Identity::new();
    let (signing, issuer) = issuer_pair();
    let add_key_result = id.add_key(issuer, 3, 1);
    assert_eq!(add_key_result, Ok(true));

    let data = "true".as_bytes().to_vec();
    let identity_key = random_key();
    let signature = sign_claim(&signing, &identity_key, 1010101, &data);

    let claim_id = id.add_claim(1010101, 1, issuer, signature, data.clone(), Vec::new());

    let get_claim_result = id.get_claim(claim_id);
    assert_eq!(get_claim_result, Ok((1010101, 1, issuer, signature, data, Vec::new())));
}

#[test]
fn test_get_claim_ids_by_topic() {
    let mut id = Identity::new();
    let (signing, issuer) = issuer_pair();
    let add_key_result = id.add_key(issuer, 3, 1);
    assert_eq!(add_key_result, Ok(true));

    let data = "true".as_bytes().to_vec();
    let identity_key = random_key();
    let signature = sign_claim(&signing, &identity_key, 1010101, &data);

    let claim_id = id.add_claim(1010101, 1, issuer, signature, data, Vec::new());

    let get_claim_ids_by_topic_result = id.get_claim_ids_by_topic(1010101);
    assert_eq!(get_claim_ids_by_topic_result, Ok(vec![claim_id]));
}

#[test]
fn test_remove_claim() {
    let mut id = Identity::new();
    let (signing, issuer) = issuer_pair();
    let add_key_result = id.add_key(issuer, 3, 1);
    assert_eq!(add_key_result, Ok(true));

    let data = "true".as_bytes().to_vec();
    let identity_key = random_key();
    let signature = sign_claim(&signing, &identity_key, 1010101, &data);

    let claim_id = id.add_claim(1010101, 1, issuer, signature, data, Vec::new());

    let remove_claim_result = id.remove_claim(claim_id);
    assert_eq!(remove_claim_result, Ok(true));
}

#[test]
fn is_claim_valid() {
    let mut id = Identity::new();
    let (signing, issuer) = issuer_pair();
    let add_key_result = id.add_key(issuer, 3, 1);
    assert_eq!(add_key_result, Ok(true));

    let data = "true".as_bytes().to_vec();
    let identity_key = random_key();
    let signature = sign_claim(&signing, &identity_key, 1010101, &data);

    let _claim_id = id.add_claim(1010101, 1, issuer, signature, data.clone(), Vec::new());

    let is_claim_valid_result = id.is_claim_valid(identity_key, issuer, 1010101, signature, data);
    assert_eq!(is_claim_valid_result, Ok(true));
}

#[test]
fn re_adding_a_claim_overwrites_it_in_place() {
    let mut id = Identity::new();
    let issuer = [7u8; 32];
    let first = id.add_claim(42, 1, issuer, [1u8; 64], vec![1, 2], b"a".to_vec());
    let second = id.add_claim(42, 2, issuer, [2u8; 64], vec![3], b"b".to_vec());
    assert_eq!(first, second);
    assert_eq!(id.get_claim(second), Ok((42, 2, issuer, [2u8; 64], vec![3], b"b".to_vec())));
    assert_eq!(id.get_claim_ids_by_topic(42), Ok(vec![first]));
}

#[test]
fn adding_a_held_purpose_again_fails() {
    let mut id = Identity::new();
    let key = [9u8; 32];
    assert_eq!(id.add_key(key, 2, 1), Ok(true));
    assert_eq!(id.add_key(key, 2, 1), Err(OnChainIdError::KeyAlreadyHasPurpose));
    assert_eq!(id.get_key_purposes(key), Ok(vec![2]));
    assert_eq!(id.get_keys_by_purpose(2), vec![key]);
}

#[test]
fn second_purpose_is_appended_and_key_type_kept() {
    let mut id = Identity::new();
    let key = [4u8; 32];
    assert_eq!(id.add_key(key, 1, 5), Ok(true));
    assert_eq!(id.add_key(key, 4, 9), Ok(true));
    assert_eq!(id.get_key(key), Ok((vec![1, 4], 5, key)));
    assert_eq!(id.get_keys_by_purpose(4), vec![key]);
}

#[test]
fn removing_the_only_purpose_drops_the_key() {
    let mut id = Identity::new();
    let key = [3u8; 32];
    assert_eq!(id.add_key(key, 3, 1), Ok(true));
    assert_eq!(id.remove_key(key, 3), Ok(true));
    assert_eq!(id.get_key(key), Err(OnChainIdError::KeyNotRegistered));
    assert_eq!(id.get_keys_by_purpose(3), Vec::<[u8; 32]>::new());
}

#[test]
fn removing_one_of_several_purposes_keeps_the_others() {
    let mut id = Identity::new();
    let key = [5u8; 32];
    assert_eq!(id.add_key(key, 1, 1), Ok(true));
    assert_eq!(id.add_key(key, 2, 1), Ok(true));
    assert_eq!(id.add_key(key, 3, 1), Ok(true));
    assert_eq!(id.remove_key(key, 1), Ok(true));
    // swap-and-truncate: the last purpose takes the removed one's place
    assert_eq!(id.get_key_purposes(key), Ok(vec![3, 2]));
    assert_eq!(id.key_has_purpose(key, 2), Ok(true));
}

#[test]
fn purpose_index_removal_swaps_in_the_last_key() {
    let mut id = Identity::new();
    let (a, b, c) = ([1u8; 32], [2u8; 32], [3u8; 32]);
    assert_eq!(id.add_key(a, 2, 1), Ok(true));
    assert_eq!(id.add_key(b, 2, 1), Ok(true));
    assert_eq!(id.add_key(c, 2, 1), Ok(true));
    assert_eq!(id.remove_key(a, 2), Ok(true));
    assert_eq!(id.get_keys_by_purpose(2), vec![c, b]);
}

#[test]
fn remove_key_errors() {
    let mut id = Identity::new();
    let key = [6u8; 32];
    assert_eq!(id.remove_key(key, 1), Err(OnChainIdError::KeyNotRegistered));
    assert_eq!(id.add_key(key, 1, 1), Ok(true));
    assert_eq!(id.remove_key(key, 4), Err(OnChainIdError::KeyDoesntHavePurpose));
    assert_eq!(id.get_key_purposes(key), Ok(vec![1]));
}

#[test]
fn unknown_key_lookups_fail() {
    let id = Identity::new();
    let key = [8u8; 32];
    assert_eq!(id.get_key(key), Err(OnChainIdError::KeyNotRegistered));
    assert_eq!(id.get_key_purposes(key), Err(OnChainIdError::KeyNotRegistered));
    assert_eq!(id.key_has_purpose(key, 1), Err(OnChainIdError::KeyNotRegistered));
    assert_eq!(id.get_keys_by_purpose(1), Vec::<[u8; 32]>::new());
}

#[test]
fn management_purpose_is_always_held() {
    let mut id = Identity::new();
    let key = [10u8; 32];
    assert_eq!(id.add_key(key, 4, 1), Ok(true));
    assert_eq!(id.key_has_purpose(key, 1), Ok(true));
    assert_eq!(id.key_has_purpose(key, 3), Ok(false));
}

#[test]
fn untouched_topic_has_no_list() {
    let mut id = Identity::new();
    let claim = id.add_claim(77, 1, [1u8; 32], [0u8; 64], vec![], Vec::new());
    assert_eq!(id.get_claim_ids_by_topic(77), Ok(vec![claim]));
    assert_eq!(id.get_claim_ids_by_topic(78), Err(OnChainIdError::NoClaimTopicFound));
}

#[test]
fn unknown_claim_fails() {
    let mut id = Identity::new();
    assert_eq!(id.get_claim([0u8; 32]), Err(OnChainIdError::NoClaimFound));
    assert_eq!(id.remove_claim([0u8; 32]), Err(OnChainIdError::NoClaimFound));
}

#[test]
fn claim_removal_keeps_topic_order() {
    let mut id = Identity::new();
    let a = id.add_claim(5, 1, [1u8; 32], [0u8; 64], vec![], Vec::new());
    let b = id.add_claim(5, 1, [2u8; 32], [0u8; 64], vec![], Vec::new());
    let c = id.add_claim(5, 1, [3u8; 32], [0u8; 64], vec![], Vec::new());
    assert_eq!(id.remove_claim(a), Ok(true));
    assert_eq!(id.get_claim(a), Err(OnChainIdError::NoClaimFound));
    assert_eq!(id.get_claim_ids_by_topic(5), Ok(vec![b, c]));
}

#[test]
fn unauthorized_issuer_is_refused_despite_valid_signature() {
    let mut id = Identity::new();
    let (signing, issuer) = issuer_pair();
    let identity_key = random_key();
    let data = b"true".to_vec();
    let signature = sign_claim(&signing, &identity_key, 1010101, &data);
    assert!(claim_signature_valid(&identity_key, &issuer, 1010101, &signature, &data));
    assert_eq!(
        id.is_claim_valid(identity_key, issuer, 1010101, signature, data.clone()),
        Err(OnChainIdError::IssuerKeyNotAuthorized)
    );
    assert_eq!(id.add_key(issuer, 2, 1), Ok(true));
    assert_eq!(
        id.is_claim_valid(identity_key, issuer, 1010101, signature, data),
        Err(OnChainIdError::IssuerKeyNotAuthorized)
    );
}

#[test]
fn bad_signature_fails_validation() {
    let mut id = Identity::new();
    let (signing, issuer) = issuer_pair();
    assert_eq!(id.add_key(issuer, 3, 1), Ok(true));
    let identity_key = random_key();
    let signature = sign_claim(&signing, &identity_key, 1010101, b"true");
    assert_eq!(
        id.is_claim_valid(identity_key, issuer, 1010101, signature, b"false".to_vec()),
        Err(OnChainIdError::ClaimSignatureRejected)
    );
    assert_eq!(id.claim_validity(issuer, false), Err(OnChainIdError::ClaimSignatureRejected));
    assert_eq!(id.claim_validity(issuer, true), Ok(true));
    assert_eq!(id.claim_validity([0u8; 32], true), Err(OnChainIdError::IssuerKeyNotAuthorized));
}

#[test]
fn claim_message_layout() {
    let identity = [0xabu8; 32];
    let m = claim_message(&identity, 0x0102_0304, &vec![9, 8]);
    let mut expected = vec![0xabu8; 32];
    expected.extend_from_slice(&[1, 2, 3, 4, 9, 8]);
    assert_eq!(m, expected);
}

#[test]
fn claim_id_matches_keccak_of_xdr() {
    let env = soroban_sdk::Env::new_with_config(soroban_sdk::testutils::EnvTestConfig {
        capture_snapshot_at_drop: false,
    });
    let issuer = [0x11u8; 32];
    let topic: u32 = 1010101;
    // the preimage written out by hand: tag 13, length 32, bytes; tag 3, value
    let mut pre: Vec<u8> = vec![0, 0, 0, 13, 0, 0, 0, 32];
    pre.extend_from_slice(&issuer);
    pre.extend_from_slice(&[0, 0, 0, 3]);
    pre.extend_from_slice(&topic.to_be_bytes());
    let by_hand = env.crypto().keccak256(&soroban_sdk::Bytes::from_slice(&env, &pre)).to_array();
    // the preimage as soroban's XDR encoding builds it
    let mut bytes = soroban_sdk::Bytes::new(&env);
    bytes.append(&soroban_sdk::BytesN::from_array(&env, &issuer).to_xdr(&env));
    bytes.append(&topic.to_xdr(&env));
    let by_xdr = env.crypto().keccak256(&bytes).to_array();
    let id = claim_id(&issuer, topic);
    assert_eq!(id, by_hand);
    assert_eq!(id, by_xdr);
    assert_ne!(id, issuer);
    assert_ne!(claim_id(&issuer, topic + 1), id);
}

#[test]
fn claim_message_with_largest_topic() {
    let identity = [0u8; 32];
    let m = claim_message(&identity, u32::MAX, &Vec::new());
    assert_eq!(m.len(), 36);
    assert_eq!(&m[32..], &[0xff, 0xff, 0xff, 0xff]);
}

#[test]
fn uri_bytes_are_kept_as_given() {
    let mut id = Identity::new();
    let uri = vec![0xffu8, 0xfe, b'x'];
    let claim = id.add_claim(9, 1, [5u8; 32], [0u8; 64], vec![1], uri.clone());
    assert_eq!(id.get_claim(claim), Ok((9, 1, [5u8; 32], [0u8; 64], vec![1], uri)));
}
