//! Claim identifiers and claim signatures: the byte strings the registry
//! derives, and the hash and signature checks it hands them to.
use soroban_sdk::xdr::ToXdr;
use vstd::prelude::*;

verus! {

/// The four big-endian bytes of `t`.
pub open spec fn be32(t: u32) -> Seq<u8> {
    seq![
        (t / 0x100_0000) as u8,
        ((t / 0x1_0000) % 0x100) as u8,
        ((t / 0x100) % 0x100) as u8,
        (t % 0x100) as u8,
    ]
}

/// XDR form of a 32-bit unsigned value: the value-type tag 3, then the value.
pub open spec fn xdr_u32(t: u32) -> Seq<u8> {
    seq![0u8, 0u8, 0u8, 3u8] + be32(t)
}

/// XDR form of a 32-byte string: the value-type tag 13, its length, its bytes.
pub open spec fn xdr_bytes32(b: Seq<u8>) -> Seq<u8> {
    seq![0u8, 0u8, 0u8, 13u8, 0u8, 0u8, 0u8, 32u8] + b
}

/// The Keccak-256 digest of `b`.
pub uninterp spec fn keccak256_of(b: Seq<u8>) -> Seq<u8>;

/// Whether `sig` is a valid (strict) Ed25519 signature of `msg` by public key `key`.
pub uninterp spec fn ed25519_accepts(key: Seq<u8>, msg: Seq<u8>, sig: Seq<u8>) -> bool;

/// The bytes hashed into a claim id: the issuer's XDR form, then the topic's.
pub open spec fn claim_id_preimage(issuer: Seq<u8>, topic: u32) -> Seq<u8> {
    xdr_bytes32(issuer) + xdr_u32(topic)
}

/// The id of the claim that `issuer` files under `topic`.
pub open spec fn claim_id_spec(issuer: Seq<u8>, topic: u32) -> Seq<u8> {
    keccak256_of(claim_id_preimage(issuer, topic))
}

/// The message a claim's signature covers: identity, big-endian topic, data.
pub open spec fn claim_message_spec(identity: Seq<u8>, topic: u32, data: Seq<u8>) -> Seq<u8> {
    identity + be32(topic) + data
}

/// Relies on soroban_sdk's `ToXdr` for `BytesN<32>`: the `ScVal::Bytes` XDR
/// encoding (tag, length, bytes).
#[verifier::external_body]
fn xdr_of_bytes32(b: &[u8; 32]) -> (r: Vec<u8>)
    ensures
        r@ == xdr_bytes32(b@),
{
    let env = soroban_sdk::Env::new_with_config(
        soroban_sdk::testutils::EnvTestConfig { capture_snapshot_at_drop: false },
    );
    let x = soroban_sdk::BytesN::from_array(&env, b).to_xdr(&env);
    x.iter().collect()
}

/// Relies on soroban_sdk's `ToXdr` for `u32`: the `ScVal::U32` XDR encoding
/// (tag, then the value big-endian).
#[verifier::external_body]
fn xdr_of_u32(t: u32) -> (r: Vec<u8>)
    ensures
        r@ == xdr_u32(t),
{
    let env = soroban_sdk::Env::new_with_config(
        soroban_sdk::testutils::EnvTestConfig { capture_snapshot_at_drop: false },
    );
    let x = t.to_xdr(&env);
    x.iter().collect()
}

/// Relies on soroban_sdk's `Crypto::keccak256`: the Keccak-256 digest of the
/// bytes. The host meters the hash against the test environment's default
/// budget and panics once it is spent, which long inputs do; the only input
/// hashed here is a claim-id preimage, 48 bytes.
#[verifier::external_body]
fn keccak256(b: &Vec<u8>) -> (r: [u8; 32])
    requires
        b@.len() == 48,
    ensures
        r@ == keccak256_of(b@),
{
    let env = soroban_sdk::Env::new_with_config(
        soroban_sdk::testutils::EnvTestConfig { capture_snapshot_at_drop: false },
    );
    let bytes = soroban_sdk::Bytes::from_slice(&env, b.as_slice());
    env.crypto().keccak256(&bytes).to_array()
}

/// Relies on ed25519_dalek's `VerifyingKey::verify_strict`, which soroban's
/// host applies in `ed25519_verify`: whether the signature is a strict Ed25519
/// signature of the message; a key that does not decode accepts nothing.
#[verifier::external_body]
fn ed25519_verify(key: &[u8; 32], msg: &Vec<u8>, sig: &[u8; 64]) -> (r: bool)
    ensures
        r == ed25519_accepts(key@, msg@, sig@),
{
    match ed25519_dalek::VerifyingKey::from_bytes(key) {
        Ok(vk) => vk.verify_strict(msg.as_slice(), &ed25519_dalek::Signature::from_bytes(sig)).is_ok(),
        Err(_) => false,
    }
}

/// Appends the big-endian bytes of `t` to `out`.
fn push_be32(out: &mut Vec<u8>, t: u32)
    ensures
        final(out)@ == old(out)@ + be32(t),
{
    out.push((t / 0x100_0000) as u8);
    out.push(((t / 0x1_0000) % 0x100) as u8);
    out.push(((t / 0x100) % 0x100) as u8);
    out.push((t % 0x100) as u8);
    assert(final(out)@ =~= old(out)@ + be32(t));
}

/// Appends every byte of `b` to `out`.
fn append_bytes(out: &mut Vec<u8>, b: &[u8])
    ensures
        final(out)@ == old(out)@ + b@,
{
    let ghost start = out@;
    let mut i: usize = 0;
    while i < b.len()
        invariant
            i <= b@.len(),
            out@ == start + b@.subrange(0, i as int),
        decreases b@.len() - i,
    {
        out.push(b[i]);
        i = i + 1;
        assert(out@ =~= start + b@.subrange(0, i as int));
    }
    assert(b@.subrange(0, b@.len() as int) =~= b@);
}

/// The id of the claim that `issuer` files under `topic`: the Keccak-256
/// digest of the issuer's and the topic's XDR forms, one after the other.
pub fn claim_id(issuer: &[u8; 32], topic: u32) -> (r: [u8; 32])
    ensures
        r@ == claim_id_spec(issuer@, topic),
{
    let mut pre = xdr_of_bytes32(issuer);
    let t = xdr_of_u32(topic);
    append_bytes(&mut pre, t.as_slice());
    keccak256(&pre)
}

/// The message a claim's signature covers: the identity's 32 bytes, the
/// topic's four big-endian bytes, then the claim data.
pub fn claim_message(identity: &[u8; 32], topic: u32, data: &Vec<u8>) -> (r: Vec<u8>)
    ensures
        r@ == claim_message_spec(identity@, topic, data@),
{
    let mut m: Vec<u8> = Vec::new();
    append_bytes(&mut m, identity);
    push_be32(&mut m, topic);
    append_bytes(&mut m, data.as_slice());
    assert(m@ =~= claim_message_spec(identity@, topic, data@));
    m
}

/// Whether `sig` is `issuer`'s signature of the claim message for
/// `identity`, `topic` and `data`.
pub fn claim_signature_valid(
    identity: &[u8; 32],
    issuer: &[u8; 32],
    topic: u32,
    sig: &[u8; 64],
    data: &Vec<u8>,
) -> (r: bool)
    ensures
        r == ed25519_accepts(issuer@, claim_message_spec(identity@, topic, data@), sig@),
{
    let m = claim_message(identity, topic, data);
    ed25519_verify(issuer, &m, sig)
}

} // verus!
