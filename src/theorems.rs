//! Facts about sequences of registry operations.
use crate::error::OnChainIdError;
use crate::identity::{
    add_claim_post, add_key_post, get_claim_post, lemma_first_of, remove_key_post, ClaimView, Identity,
};
use crate::crypto::claim_id_spec;
use crate::index::{is_first, lemma_first_index, lemma_swap_truncate, Id};
use vstd::prelude::*;

verus! {

/// `x` stands at exactly one position of `s`.
pub open spec fn occurs_once(s: Seq<Id>, x: Id) -> bool {
    exists|i: int|
        0 <= i < s.len() && s[i] == x && forall|j: int| 0 <= j < s.len() && j != i ==> s[j] != x
}

/// Filing a claim twice with the same issuer and topic gives the same id both
/// times; the claim then holds the second call's fields, with that issuer;
/// the second call leaves the topic index alone; and the id is listed under
/// the topic exactly once. (A claim of another issuer already stored under
/// the same id, which takes a hash collision, would keep its issuer.)
pub proof fn lemma_add_claim_overwrites(
    s0: Identity,
    s1: Identity,
    s2: Identity,
    id1: Id,
    id2: Id,
    topic: u32,
    issuer: Id,
    scheme1: u32,
    sig1: [u8; 64],
    data1: Seq<u8>,
    uri1: Seq<u8>,
    scheme2: u32,
    sig2: [u8; 64],
    data2: Seq<u8>,
    uri2: Seq<u8>,
)
    requires
        s0.wf(),
        forall|c: Id|
            c@ == claim_id_spec(issuer@, topic) && #[trigger] s0.claim_map().contains_key(c)
                ==> s0.claim_map()[c].issuer == issuer,
        add_claim_post(s0, s1, id1, topic, scheme1, issuer, sig1, data1, uri1),
        add_claim_post(s1, s2, id2, topic, scheme2, issuer, sig2, data2, uri2),
    ensures
        id1 == id2,
        s2.claim_map().contains_key(id2),
        s2.claim_map()[id2] == (ClaimView {
            topic,
            scheme: scheme2,
            issuer,
            signature: sig2,
            data: data2,
            uri: uri2,
        }),
        s2.topic_index() == s1.topic_index(),
        s2.topic_index().contains_key(topic),
        occurs_once(s2.topic_index()[topic], id2),
{
    assert(id1 =~= id2);
    s2.lemma_indexes_exact();
    assert(s2.claim_map().contains_key(id2));
    assert(s2.claim_map()[id2].topic == topic);
    assert(s2.topic_index().contains_key(topic));
    let l = s2.topic_index()[topic];
    assert(l.contains(id2));
    assert(l.no_duplicates());
    let i = choose|i: int| 0 <= i < l.len() && l[i] == id2;
    assert(forall|j: int| 0 <= j < l.len() && j != i ==> l[j] != id2);
    assert(occurs_once(l, id2));
}

/// Filing again a claim that the same issuer filed under the same topic, and
/// that is still stored, overwrites it in place: the issuer stays, the other
/// fields are the new ones, and the topic index is not touched.
pub proof fn lemma_readd_in_place(
    s0: Identity,
    s1: Identity,
    id: Id,
    topic: u32,
    scheme: u32,
    issuer: Id,
    sig: [u8; 64],
    data: Seq<u8>,
    uri: Seq<u8>,
)
    requires
        s0.wf(),
        add_claim_post(s0, s1, id, topic, scheme, issuer, sig, data, uri),
        s0.claim_map().contains_key(id),
        s0.claim_map()[id].issuer == issuer,
        s0.claim_map()[id].topic == topic,
    ensures
        s1.claim_map() == s0.claim_map().insert(
            id,
            (ClaimView { topic, scheme, issuer, signature: sig, data, uri }),
        ),
        s1.topic_index() == s0.topic_index(),
        s1.key_map() == s0.key_map(),
        s1.purpose_index() == s0.purpose_index(),
{
}

/// Once `add_key` has given a key a purpose, adding the same purpose again
/// fails with `KeyAlreadyHasPurpose`, and the key's purposes hold it once.
pub proof fn lemma_purpose_unique(
    s0: Identity,
    s1: Identity,
    s2: Identity,
    key: Id,
    purpose: u32,
    t1: u32,
    t2: u32,
    r1: Result<bool, OnChainIdError>,
    r2: Result<bool, OnChainIdError>,
)
    requires
        s0.wf(),
        add_key_post(s0, s1, key, purpose, t1, r1),
        r1 is Ok,
        add_key_post(s1, s2, key, purpose, t2, r2),
    ensures
        r2 == Err::<bool, OnChainIdError>(OnChainIdError::KeyAlreadyHasPurpose),
        s2 == s1,
        s2.key_map().contains_key(key),
        s2.key_map()[key].0.no_duplicates(),
        s2.key_map()[key].0.contains(purpose),
{
    let l = s1.key_map()[key].0;
    assert(l[l.len() - 1] == purpose);
    s2.lemma_key_purposes(key);
}

/// Adding a purpose to a key and then removing it drops the key's record
/// where that was its only purpose; otherwise the key keeps every other
/// purpose and loses this one.
pub proof fn lemma_remove_after_add(
    s0: Identity,
    s1: Identity,
    s2: Identity,
    key: Id,
    purpose: u32,
    key_type: u32,
    r1: Result<bool, OnChainIdError>,
    r2: Result<bool, OnChainIdError>,
)
    requires
        s0.wf(),
        add_key_post(s0, s1, key, purpose, key_type, r1),
        r1 is Ok,
        remove_key_post(s1, s2, key, purpose, r2),
    ensures
        r2 == Ok::<bool, OnChainIdError>(true),
        s1.key_map()[key].0 == seq![purpose] ==> !s2.key_map().contains_key(key),
        s1.key_map()[key].0 != seq![purpose] ==> {
            &&& s2.key_map().contains_key(key)
            &&& !s2.key_map()[key].0.contains(purpose)
            &&& forall|q: u32|
                q != purpose && #[trigger] s1.key_map()[key].0.contains(q) ==> s2.key_map()[key].0.contains(q)
        },
{
    let l = s1.key_map()[key].0;
    assert(l[l.len() - 1] == purpose);
    s1.lemma_key_purposes(key);
    let i = choose|i: int| is_first(l, purpose, i);
    assert(exists|i: int| is_first(l, purpose, i)) by {
        let k = choose|k: int| 0 <= k < l.len() && l[k] == purpose;
        lemma_first_of(l, purpose, k);
    }
    lemma_first_index(l, purpose, i);
    lemma_swap_truncate(l, i);
    if l == seq![purpose] {
        assert(l.len() == 1);
    } else {
        assert(l.len() != 1) by {
            if l.len() == 1 {
                assert(l =~= seq![purpose]);
            }
        }
    }
}

/// Reading back a claim just filed gives the fields it was filed with (its
/// issuer being the one first stored under its id).
pub proof fn lemma_claim_round_trip(
    s0: Identity,
    s1: Identity,
    id: Id,
    topic: u32,
    scheme: u32,
    issuer: Id,
    sig: [u8; 64],
    data: Seq<u8>,
    uri: Seq<u8>,
    r: Result<(u32, u32, Id, [u8; 64], Vec<u8>, Vec<u8>), OnChainIdError>,
)
    requires
        s0.wf(),
        add_claim_post(s0, s1, id, topic, scheme, issuer, sig, data, uri),
        get_claim_post(s1, id, r),
    ensures
        r is Ok,
        r->Ok_0.0 == topic,
        r->Ok_0.1 == scheme,
        r->Ok_0.2 == (if s0.claim_map().contains_key(id) {
            s0.claim_map()[id].issuer
        } else {
            issuer
        }),
        r->Ok_0.3 == sig,
        r->Ok_0.4@ == data,
        r->Ok_0.5@ == uri,
{
}

/// In a store without claims, filing one claim under a topic lists exactly
/// its id under that topic, and no other topic gets a list.
pub proof fn lemma_topic_indexing(
    s0: Identity,
    s1: Identity,
    id: Id,
    topic: u32,
    scheme: u32,
    issuer: Id,
    sig: [u8; 64],
    data: Seq<u8>,
    uri: Seq<u8>,
    other: u32,
)
    requires
        s0.wf(),
        s0.claim_map() == Map::<Id, ClaimView>::empty(),
        s0.topic_index() == Map::<u32, Seq<Id>>::empty(),
        add_claim_post(s0, s1, id, topic, scheme, issuer, sig, data, uri),
        other != topic,
    ensures
        s1.topic_index().contains_key(topic),
        s1.topic_index()[topic] == seq![id],
        !s1.topic_index().contains_key(other),
{
}

} // verus!
