//! The identity registry: keys tagged with purposes, claims filed under
//! topics, and the check that a claim was signed by an authorised issuer.
use crate::crypto::{claim_id, claim_id_spec, claim_message_spec, claim_signature_valid,
    ed25519_accepts};
use crate::error::OnChainIdError;
use crate::index::{
    appended, copied, find_id, first_index, index_append, index_get, index_remove_ordered,
    index_remove_swapped, index_view, is_first, lemma_first_index, lemma_push_fresh,
    lemma_remove_at, lemma_swap_truncate, position_of_u32, swap_truncate, without_ordered,
    without_swapped, Id, IndexTable,
};
use crate::table::{keys_unique, lemma_to_map_at, lemma_to_map_push, lemma_to_map_remove,
    lemma_to_map_update, to_map};
use vstd::prelude::*;

verus! {

/// The purpose of a management key.
pub const MANAGEMENT: u32 = 1;

/// The purpose of a key that signs claims.
pub const CLAIM_SIGNER: u32 = 3;

/// A registered key: its purposes (a set, kept as a list without
/// duplicates), its key-type tag, and the key itself.
#[derive(Debug)]
pub struct Key {
    pub purposes: Vec<u32>,
    pub key_type: u32,
    pub key: Id,
}

/// An attestation about the identity, signed by an issuing key.
#[derive(Debug)]
pub struct Claim {
    pub topic: u32,
    pub scheme: u32,
    pub issuer: Id,
    pub signature: [u8; 64],
    pub data: Vec<u8>,
    /// A reference for readers: the bytes of a string, kept as given.
    pub uri: Vec<u8>,
}

/// A claim as a mathematical value.
pub struct ClaimView {
    pub topic: u32,
    pub scheme: u32,
    pub issuer: Id,
    pub signature: [u8; 64],
    pub data: Seq<u8>,
    pub uri: Seq<u8>,
}

impl View for Claim {
    type V = ClaimView;

    open spec fn view(&self) -> ClaimView {
        ClaimView {
            topic: self.topic,
            scheme: self.scheme,
            issuer: self.issuer,
            signature: self.signature,
            data: self.data@,
            uri: self.uri@,
        }
    }
}

/// One identity's store: key records, the purpose index, claim records and
/// the topic index.
#[derive(Debug)]
pub struct Identity {
    keys: Vec<(Id, Key)>,
    purposes: IndexTable,
    claims: Vec<(Id, Claim)>,
    topics: IndexTable,
}

/// Key `k` is registered and holds purpose `p`.
pub open spec fn holds_purpose(keys: Map<Id, (Seq<u32>, u32)>, k: Id, p: u32) -> bool {
    keys.contains_key(k) && keys[k].0.contains(p)
}

/// The record of `k` once purpose `p` is added: appended to an existing
/// record (whose key type stays), or a new record of type `t`.
pub open spec fn with_purpose(keys: Map<Id, (Seq<u32>, u32)>, k: Id, p: u32, t: u32) -> (
    Seq<u32>,
    u32,
) {
    if keys.contains_key(k) {
        (keys[k].0.push(p), keys[k].1)
    } else {
        (seq![p], t)
    }
}

/// The key records once purpose `p` is taken from `k` by swap-and-truncate;
/// a record left without purposes is dropped.
pub open spec fn without_purpose(keys: Map<Id, (Seq<u32>, u32)>, k: Id, p: u32) -> Map<
    Id,
    (Seq<u32>, u32),
> {
    let rest = without_swapped(keys[k].0, p);
    if rest.len() == 0 {
        keys.remove(k)
    } else {
        keys.insert(k, (rest, keys[k].1))
    }
}

/// The list of `m` at `k` without the first `x` (swap-and-truncate), where
/// `m` has a list for `k`.
pub open spec fn index_without_swapped(m: Map<u32, Seq<Id>>, k: u32, x: Id) -> Map<u32, Seq<Id>> {
    if m.contains_key(k) {
        m.insert(k, without_swapped(m[k], x))
    } else {
        m
    }
}

/// The list of `m` at `k` without the first `x` (order kept), where `m` has
/// a list for `k`.
pub open spec fn index_without_ordered(m: Map<u32, Seq<Id>>, k: u32, x: Id) -> Map<u32, Seq<Id>> {
    if m.contains_key(k) {
        m.insert(k, without_ordered(m[k], x))
    } else {
        m
    }
}

/// The claim stored under `id` by an `add_claim`: an existing claim keeps its
/// issuer and takes the other fields; a new one takes them all.
pub open spec fn claim_after(
    claims: Map<Id, ClaimView>,
    id: Id,
    topic: u32,
    scheme: u32,
    issuer: Id,
    signature: [u8; 64],
    data: Seq<u8>,
    uri: Seq<u8>,
) -> ClaimView {
    ClaimView {
        topic,
        scheme,
        issuer: if claims.contains_key(id) {
            claims[id].issuer
        } else {
            issuer
        },
        signature,
        data,
        uri,
    }
}

/// What `add_key` does: it fails, changing nothing, where the key already
/// holds the purpose; otherwise it adds the purpose to the key's record (a new
/// record of type `key_type` where there is none) and appends the key to the
/// purpose's list. Claims are left alone.
pub open spec fn add_key_post(
    pre: Identity,
    post: Identity,
    key: Id,
    purpose: u32,
    key_type: u32,
    r: Result<bool, OnChainIdError>,
) -> bool {
    &&& post.wf()
    &&& r == (if holds_purpose(pre.key_map(), key, purpose) {
        Err(OnChainIdError::KeyAlreadyHasPurpose)
    } else {
        Ok(true)
    })
    &&& r is Err ==> post == pre
    &&& r is Ok ==> post.key_map() == pre.key_map().insert(
        key,
        with_purpose(pre.key_map(), key, purpose, key_type),
    )
    &&& r is Ok ==> post.purpose_index() == pre.purpose_index().insert(
        purpose,
        appended(pre.purpose_index(), purpose, key),
    )
    &&& post.claim_map() == pre.claim_map()
    &&& post.topic_index() == pre.topic_index()
}

/// What `remove_key` does: it fails, changing nothing, where the key is not
/// registered or lacks the purpose; otherwise it takes the purpose from the
/// key's record by swap-and-truncate (dropping a record left empty) and takes
/// the key out of the purpose's list the same way.
pub open spec fn remove_key_post(
    pre: Identity,
    post: Identity,
    key: Id,
    purpose: u32,
    r: Result<bool, OnChainIdError>,
) -> bool {
    &&& post.wf()
    &&& r == (if !pre.key_map().contains_key(key) {
        Err(OnChainIdError::KeyNotRegistered)
    } else if !pre.key_map()[key].0.contains(purpose) {
        Err(OnChainIdError::KeyDoesntHavePurpose)
    } else {
        Ok(true)
    })
    &&& r is Err ==> post == pre
    &&& r is Ok ==> post.key_map() == without_purpose(pre.key_map(), key, purpose)
    &&& r is Ok ==> post.purpose_index() == index_without_swapped(
        pre.purpose_index(),
        purpose,
        key,
    )
    &&& post.claim_map() == pre.claim_map()
    &&& post.topic_index() == pre.topic_index()
}

/// What `add_claim` does: the id is derived from issuer and topic; the claim
/// under it is written (an existing one keeping its issuer); a new id is
/// appended to its topic's list, an existing one stays listed where it is.
/// Keys are left alone.
pub open spec fn add_claim_post(
    pre: Identity,
    post: Identity,
    r: Id,
    topic: u32,
    scheme: u32,
    issuer: Id,
    signature: [u8; 64],
    data: Seq<u8>,
    uri: Seq<u8>,
) -> bool {
    &&& post.wf()
    &&& r@ == claim_id_spec(issuer@, topic)
    &&& post.claim_map() == pre.claim_map().insert(
        r,
        claim_after(pre.claim_map(), r, topic, scheme, issuer, signature, data, uri),
    )
    &&& post.topic_index() == topic_index_after(pre.claim_map(), pre.topic_index(), r, topic)
    &&& post.key_map() == pre.key_map()
    &&& post.purpose_index() == pre.purpose_index()
}

/// What `get_claim` returns: the stored claim's fields, or `NoClaimFound`
/// where no claim is stored under the id.
pub open spec fn get_claim_post(
    id: Identity,
    claim_id: Id,
    r: Result<(u32, u32, Id, [u8; 64], Vec<u8>, Vec<u8>), OnChainIdError>,
) -> bool {
    match r {
        Ok(t) => {
            &&& id.claim_map().contains_key(claim_id)
            &&& t.0 == id.claim_map()[claim_id].topic
            &&& t.1 == id.claim_map()[claim_id].scheme
            &&& t.2 == id.claim_map()[claim_id].issuer
            &&& t.3 == id.claim_map()[claim_id].signature
            &&& t.4@ == id.claim_map()[claim_id].data
            &&& t.5@ == id.claim_map()[claim_id].uri
        },
        Err(e) => !id.claim_map().contains_key(claim_id) && e == OnChainIdError::NoClaimFound,
    }
}

/// The purpose index lists exactly the keys holding each purpose, each once.
pub open spec fn purpose_index_exact(km: Map<Id, (Seq<u32>, u32)>, pi: Map<u32, Seq<Id>>) -> bool {
    &&& forall|p: u32| #[trigger] pi.contains_key(p) ==> pi[p].no_duplicates()
    &&& forall|p: u32, j: int|
        pi.contains_key(p) && 0 <= j < pi[p].len() ==> holds_purpose(km, #[trigger] pi[p][j], p)
    &&& forall|k: Id, p: u32| #[trigger] holds_purpose(km, k, p) ==> pi.contains_key(p) && pi[p].contains(k)
}

/// Giving a key a purpose it lacks, and listing it under that purpose, keeps
/// the purpose index exact.
proof fn lemma_add_keeps_index(
    km: Map<Id, (Seq<u32>, u32)>,
    pi: Map<u32, Seq<Id>>,
    k: Id,
    p: u32,
    t: u32,
)
    requires
        purpose_index_exact(km, pi),
        !holds_purpose(km, k, p),
    ensures
        purpose_index_exact(
            km.insert(k, with_purpose(km, k, p, t)),
            pi.insert(p, appended(pi, p, k)),
        ),
{
    let km2 = km.insert(k, with_purpose(km, k, p, t));
    let pi2 = pi.insert(p, appended(pi, p, k));
    assert forall|k1: Id, q: u32| holds_purpose(km, k1, q) implies #[trigger] holds_purpose(km2, k1, q) by {
        if k1 == k {
            let l = km[k].0;
            let j = choose|j: int| 0 <= j < l.len() && l[j] == q;
            assert(l.push(p)[j] == q);
        }
    }
    assert(holds_purpose(km2, k, p)) by {
        let l = km2[k].0;
        assert(l[l.len() - 1] == p);
    }
    if pi.contains_key(p) {
        assert(!pi[p].contains(k));
        lemma_push_fresh(pi[p], k);
    }
    assert forall|q: u32| #[trigger] pi2.contains_key(q) implies pi2[q].no_duplicates() by {
        if q == p && !pi.contains_key(p) {
            assert(pi2[q].len() == 1);
        }
    }
    assert forall|q: u32, j: int| pi2.contains_key(q) && 0 <= j < pi2[q].len() implies holds_purpose(
        km2,
        #[trigger] pi2[q][j],
        q,
    ) by {
        if q == p && j == pi2[q].len() - 1 {
        } else if q == p {
            assert(pi2[q][j] == pi[q][j]);
            assert(holds_purpose(km, pi[q][j], q));
        } else {
            assert(holds_purpose(km, pi[q][j], q));
        }
    }
    assert forall|k1: Id, q: u32| #[trigger] holds_purpose(km2, k1, q) implies pi2.contains_key(q)
        && pi2[q].contains(k1) by {
        if k1 == k && q == p {
            assert(pi2[q][pi2[q].len() - 1] == k);
        } else {
            if k1 == k {
                let l = km2[k].0;
                let j = choose|j: int| 0 <= j < l.len() && l[j] == q;
                if km.contains_key(k) {
                    assert(j < km[k].0.len());
                    assert(km[k].0[j] == q);
                    assert(holds_purpose(km, k1, q));
                }
            } else {
                assert(holds_purpose(km, k1, q));
            }
            if q == p {
                let j = choose|j: int| 0 <= j < pi[q].len() && pi[q][j] == k1;
                assert(pi2[q][j] == k1);
            }
        }
    }
}

/// Taking a held purpose from a key, and the key from that purpose's list,
/// keeps the purpose index exact.
proof fn lemma_remove_keeps_index(km: Map<Id, (Seq<u32>, u32)>, pi: Map<u32, Seq<Id>>, k: Id, p: u32)
    requires
        purpose_index_exact(km, pi),
        holds_purpose(km, k, p),
        km[k].0.no_duplicates(),
    ensures
        purpose_index_exact(without_purpose(km, k, p), index_without_swapped(pi, p, k)),
{
    let km2 = without_purpose(km, k, p);
    let pi2 = index_without_swapped(pi, p, k);
    let l = km[k].0;
    let lj = choose|j: int| 0 <= j < l.len() && l[j] == p;
    lemma_first_of(l, p, lj);
    let i = first_index(l, p);
    lemma_swap_truncate(l, i);
    assert(pi.contains_key(p) && pi[p].contains(k));
    let m = pi[p];
    let mj = choose|j: int| 0 <= j < m.len() && m[j] == k;
    lemma_first_of(m, k, mj);
    let mi = first_index(m, k);
    lemma_swap_truncate(m, mi);
    assert(pi2[p] == swap_truncate(m, mi));
    // what each key holds afterwards
    assert forall|k1: Id, q: u32| #[trigger] holds_purpose(km2, k1, q) <==> (holds_purpose(km, k1, q)
        && !(k1 == k && q == p)) by {
        if k1 == k {
            if without_swapped(l, p).len() != 0 {
                assert(km2[k].0 == swap_truncate(l, i));
            }
        }
    }
    assert forall|q: u32| #[trigger] pi2.contains_key(q) implies pi2[q].no_duplicates() by {
    }
    assert forall|q: u32, j: int| pi2.contains_key(q) && 0 <= j < pi2[q].len() implies holds_purpose(
        km2,
        #[trigger] pi2[q][j],
        q,
    ) by {
        let x = pi2[q][j];
        if q == p {
            assert(pi2[q].contains(x));
            assert(m.contains(x) && x != k);
            let j2 = choose|j2: int| 0 <= j2 < m.len() && m[j2] == x;
            assert(holds_purpose(km, m[j2], p));
        } else {
            assert(holds_purpose(km, pi[q][j], q));
        }
    }
    assert forall|k1: Id, q: u32| #[trigger] holds_purpose(km2, k1, q) implies pi2.contains_key(q)
        && pi2[q].contains(k1) by {
        assert(holds_purpose(km, k1, q));
        if q == p {
            assert(m.contains(k1) && k1 != k);
            assert(swap_truncate(m, mi).contains(k1));
        }
    }
}

/// Claim `c` is stored, under topic `t`.
pub open spec fn filed_under(cm: Map<Id, ClaimView>, c: Id, t: u32) -> bool {
    cm.contains_key(c) && cm[c].topic == t
}

/// The topic index lists exactly the claims stored under each topic, each once.
pub open spec fn topic_index_exact(cm: Map<Id, ClaimView>, ti: Map<u32, Seq<Id>>) -> bool {
    &&& forall|t: u32| #[trigger] ti.contains_key(t) ==> ti[t].no_duplicates()
    &&& forall|t: u32, j: int|
        ti.contains_key(t) && 0 <= j < ti[t].len() ==> filed_under(cm, #[trigger] ti[t][j], t)
    &&& forall|c: Id| #[trigger] cm.contains_key(c) ==> ti.contains_key(cm[c].topic) && ti[cm[c].topic].contains(c)
}

/// The topic index after claim `c` is stored as `v`: a new id is appended to
/// its topic's list; a stored claim whose topic changes (which takes two
/// issuer-topic pairs with one id) moves from its old topic's list to the end
/// of the new one's; otherwise the index stays.
pub open spec fn topic_index_after(
    cm: Map<Id, ClaimView>,
    ti: Map<u32, Seq<Id>>,
    c: Id,
    topic: u32,
) -> Map<u32, Seq<Id>> {
    if !cm.contains_key(c) {
        ti.insert(topic, appended(ti, topic, c))
    } else if cm[c].topic == topic {
        ti
    } else {
        let rest = index_without_ordered(ti, cm[c].topic, c);
        rest.insert(topic, appended(rest, topic, c))
    }
}

/// Taking a stored claim out, and its id out of its topic's list, keeps the
/// topic index exact.
proof fn lemma_claim_removal_keeps_index(cm: Map<Id, ClaimView>, ti: Map<u32, Seq<Id>>, c: Id)
    requires
        topic_index_exact(cm, ti),
        cm.contains_key(c),
    ensures
        topic_index_exact(cm.remove(c), index_without_ordered(ti, cm[c].topic, c)),
{
    let t0 = cm[c].topic;
    let cm2 = cm.remove(c);
    let ti2 = index_without_ordered(ti, t0, c);
    let m = ti[t0];
    let mj = choose|j: int| 0 <= j < m.len() && m[j] == c;
    lemma_first_of(m, c, mj);
    let mi = first_index(m, c);
    lemma_remove_at(m, mi);
    assert(ti2[t0] == m.remove(mi));
    assert forall|t: u32| #[trigger] ti2.contains_key(t) implies ti2[t].no_duplicates() by {
    }
    assert forall|t: u32, j: int| ti2.contains_key(t) && 0 <= j < ti2[t].len() implies filed_under(
        cm2,
        #[trigger] ti2[t][j],
        t,
    ) by {
        let x = ti2[t][j];
        if t == t0 {
            assert(ti2[t].contains(x));
            let j2 = choose|j2: int| 0 <= j2 < m.len() && m[j2] == x;
            assert(filed_under(cm, m[j2], t0));
        } else {
            assert(filed_under(cm, ti[t][j], t));
            if x == c {
                assert(cm[c].topic == t);
            }
        }
    }
    assert forall|d: Id| #[trigger] cm2.contains_key(d) implies ti2.contains_key(cm2[d].topic)
        && ti2[cm2[d].topic].contains(d) by {
        assert(cm.contains_key(d));
        if cm[d].topic == t0 {
            assert(m.remove(mi).contains(d));
        }
    }
}

/// Storing a claim under a fresh id, and appending the id to its topic's
/// list, keeps the topic index exact.
proof fn lemma_new_claim_keeps_index(cm: Map<Id, ClaimView>, ti: Map<u32, Seq<Id>>, c: Id, v: ClaimView)
    requires
        topic_index_exact(cm, ti),
        !cm.contains_key(c),
    ensures
        topic_index_exact(cm.insert(c, v), ti.insert(v.topic, appended(ti, v.topic, c))),
{
    let t0 = v.topic;
    let cm2 = cm.insert(c, v);
    let ti2 = ti.insert(t0, appended(ti, t0, c));
    if ti.contains_key(t0) {
        assert(!ti[t0].contains(c)) by {
            if ti[t0].contains(c) {
                let j = choose|j: int| 0 <= j < ti[t0].len() && ti[t0][j] == c;
                assert(filed_under(cm, ti[t0][j], t0));
            }
        }
        lemma_push_fresh(ti[t0], c);
    }
    assert forall|t: u32| #[trigger] ti2.contains_key(t) implies ti2[t].no_duplicates() by {
        if t == t0 && !ti.contains_key(t0) {
            assert(ti2[t].len() == 1);
        }
    }
    assert forall|t: u32, j: int| ti2.contains_key(t) && 0 <= j < ti2[t].len() implies filed_under(
        cm2,
        #[trigger] ti2[t][j],
        t,
    ) by {
        if t == t0 && j == ti2[t].len() - 1 {
        } else if t == t0 {
            assert(ti2[t][j] == ti[t][j]);
            assert(filed_under(cm, ti[t][j], t));
        } else {
            assert(filed_under(cm, ti[t][j], t));
        }
    }
    assert forall|d: Id| #[trigger] cm2.contains_key(d) implies ti2.contains_key(cm2[d].topic)
        && ti2[cm2[d].topic].contains(d) by {
        if d == c {
            assert(ti2[t0][ti2[t0].len() - 1] == c);
        } else {
            assert(cm.contains_key(d));
            if cm[d].topic == t0 {
                let j = choose|j: int| 0 <= j < ti[t0].len() && ti[t0][j] == d;
                assert(ti2[t0][j] == d);
            }
        }
    }
}

/// Storing `v` under an id already stored keeps the topic index exact once
/// the index is brought to `topic_index_after`.
proof fn lemma_claim_update_keeps_index(cm: Map<Id, ClaimView>, ti: Map<u32, Seq<Id>>, c: Id, v: ClaimView)
    requires
        topic_index_exact(cm, ti),
        cm.contains_key(c),
    ensures
        topic_index_exact(cm.insert(c, v), topic_index_after(cm, ti, c, v.topic)),
{
    if cm[c].topic == v.topic {
        let cm2 = cm.insert(c, v);
        assert forall|t: u32, j: int| ti.contains_key(t) && 0 <= j < ti[t].len() implies filed_under(
            cm2,
            #[trigger] ti[t][j],
            t,
        ) by {
            assert(filed_under(cm, ti[t][j], t));
        }
        assert forall|d: Id| #[trigger] cm2.contains_key(d) implies ti.contains_key(cm2[d].topic)
            && ti[cm2[d].topic].contains(d) by {
            assert(cm.contains_key(d));
        }
    } else {
        lemma_claim_removal_keeps_index(cm, ti, c);
        let rest = index_without_ordered(ti, cm[c].topic, c);
        lemma_new_claim_keeps_index(cm.remove(c), rest, c, v);
        assert(cm.remove(c).insert(c, v) =~= cm.insert(c, v));
    }
}

/// A value that occurs in a sequence has a first occurrence.
pub proof fn lemma_first_of<T>(s: Seq<T>, x: T, k: int)
    requires
        0 <= k < s.len(),
        s[k] == x,
    ensures
        exists|i: int| is_first(s, x, i),
        is_first(s, x, first_index(s, x)),
        s.contains(x),
    decreases k,
{
    if exists|j: int| 0 <= j < k && s[j] == x {
        let j = choose|j: int| 0 <= j < k && s[j] == x;
        lemma_first_of(s, x, j);
    } else {
        assert(is_first(s, x, k));
    }
}

impl Identity {
    /// Registered keys: each key's purposes and key type.
    pub closed spec fn key_map(&self) -> Map<Id, (Seq<u32>, u32)> {
        to_map(self.keys@).map_values(|k: Key| (k.purposes@, k.key_type))
    }

    /// For each purpose with an index entry, the keys listed under it.
    pub closed spec fn purpose_index(&self) -> Map<u32, Seq<Id>> {
        index_view(self.purposes@)
    }

    /// Registered claims by claim id.
    pub closed spec fn claim_map(&self) -> Map<Id, ClaimView> {
        to_map(self.claims@).map_values(|c: Claim| c@)
    }

    /// For each topic with an index entry, the claim ids listed under it.
    pub closed spec fn topic_index(&self) -> Map<u32, Seq<Id>> {
        index_view(self.topics@)
    }

    /// The store's invariant: one record per key and per claim, one index
    /// entry per purpose and per topic, every key record holding its own key
    /// and a non-empty set of purposes, the purpose index listing exactly the
    /// keys that hold each purpose, and the topic index exactly the claims
    /// stored under each topic.
    pub closed spec fn wf(&self) -> bool {
        &&& keys_unique(self.keys@)
        &&& keys_unique(self.purposes@)
        &&& keys_unique(self.claims@)
        &&& keys_unique(self.topics@)
        &&& forall|i: int|
            0 <= i < self.keys@.len() ==> {
                &&& (#[trigger] self.keys@[i]).1.key == self.keys@[i].0
                &&& self.keys@[i].1.purposes@.len() > 0
                &&& self.keys@[i].1.purposes@.no_duplicates()
            }
        &&& purpose_index_exact(self.key_map(), self.purpose_index())
        &&& topic_index_exact(self.claim_map(), self.topic_index())
    }

    /// The two indexes of a well-formed store are exact.
    pub proof fn lemma_indexes_exact(&self)
        requires
            self.wf(),
        ensures
            purpose_index_exact(self.key_map(), self.purpose_index()),
            topic_index_exact(self.claim_map(), self.topic_index()),
    {
    }

    /// Every registered key holds at least one purpose, and none twice.
    pub proof fn lemma_key_purposes(&self, k: Id)
        requires
            self.wf(),
            self.key_map().contains_key(k),
        ensures
            self.key_map()[k].0.len() > 0,
            self.key_map()[k].0.no_duplicates(),
    {
        let i = crate::table::lemma_to_map_index(self.keys@, k);
        lemma_to_map_at(self.keys@, i);
        assert(self.keys@[i].1.purposes@.len() > 0);
    }

    /// An empty store.
    pub fn new() -> (r: Identity)
        ensures
            r.wf(),
            r.key_map() == Map::<Id, (Seq<u32>, u32)>::empty(),
            r.purpose_index() == Map::<u32, Seq<Id>>::empty(),
            r.claim_map() == Map::<Id, ClaimView>::empty(),
            r.topic_index() == Map::<u32, Seq<Id>>::empty(),
    {
        let r = Identity { keys: Vec::new(), purposes: Vec::new(), claims: Vec::new(), topics: Vec::new() };
        assert(r.key_map() =~= Map::<Id, (Seq<u32>, u32)>::empty());
        assert(r.purpose_index() =~= Map::<u32, Seq<Id>>::empty());
        assert(r.claim_map() =~= Map::<Id, ClaimView>::empty());
        assert(r.topic_index() =~= Map::<u32, Seq<Id>>::empty());
        r
    }

    /// Gives `key` the purpose `purpose`, registering the key with type
    /// `key_type` if it has no record yet, and lists it under the purpose.
    /// Fails, changing nothing, where the key already holds that purpose.
    pub fn add_key(&mut self, key: Id, purpose: u32, key_type: u32) -> (r: Result<
        bool,
        OnChainIdError,
    >)
        requires
            old(self).wf(),
        ensures
            final(self).wf(),
            add_key_post(*old(self), *final(self), key, purpose, key_type, r),
    {
        let ghost s = self.keys@;
        let ghost km = self.key_map();
        let ghost pi = self.purpose_index();
        match find_id(&self.keys, &key) {
            Some(i) => {
                proof {
                    lemma_to_map_at(s, i as int);
                }
                if position_of_u32(&self.keys[i].1.purposes, purpose).is_some() {
                    return Err(OnChainIdError::KeyAlreadyHasPurpose);
                }
                let mut purposes = copied(&self.keys[i].1.purposes);
                purposes.push(purpose);
                let key_type = self.keys[i].1.key_type;
                let rec = Key { purposes, key_type, key };
                self.keys.set(i, (key, rec));
                proof {
                    lemma_push_fresh(s[i as int].1.purposes@, purpose);
                    lemma_to_map_update(s, i as int, rec);
                    assert(self.key_map() =~= km.insert(key, with_purpose(km, key, purpose, key_type)));
                }
            },
            None => {
                let mut purposes: Vec<u32> = Vec::new();
                purposes.push(purpose);
                let rec = Key { purposes, key_type, key };
                self.keys.push((key, rec));
                proof {
                    assert(!to_map(s).contains_key(key));
                    lemma_to_map_push(s, key, rec);
                    assert(rec.purposes@ =~= seq![purpose]);
                    assert(self.key_map() =~= km.insert(key, with_purpose(km, key, purpose, key_type)));
                }
            },
        }
        index_append(&mut self.purposes, purpose, key);
        proof {
            lemma_add_keeps_index(km, pi, key, purpose, key_type);
        }
        Ok(true)
    }

    /// Takes purpose `purpose` from `key` by swap-and-truncate, dropping the
    /// key's record once it holds no purpose, and takes the key out of the
    /// purpose's list (a no-op where the list lacks it). Fails, changing
    /// nothing, where the key is not registered or lacks the purpose.
    pub fn remove_key(&mut self, key: Id, purpose: u32) -> (r: Result<bool, OnChainIdError>)
        requires
            old(self).wf(),
        ensures
            final(self).wf(),
            remove_key_post(*old(self), *final(self), key, purpose, r),
    {
        let ghost s = self.keys@;
        let ghost km = self.key_map();
        let ghost pi = self.purpose_index();
        let i = match find_id(&self.keys, &key) {
            Some(i) => i,
            None => {
                return Err(OnChainIdError::KeyNotRegistered);
            },
        };
        proof {
            lemma_to_map_at(s, i as int);
        }
        let j = match position_of_u32(&self.keys[i].1.purposes, purpose) {
            Some(j) => j,
            None => {
                return Err(OnChainIdError::KeyDoesntHavePurpose);
            },
        };
        let mut purposes = copied(&self.keys[i].1.purposes);
        let ghost before = purposes@;
        let n = purposes.len();
        let last = purposes[n - 1];
        purposes.set(j, last);
        purposes.pop();
        proof {
            lemma_first_index(before, purpose, j as int);
            lemma_swap_truncate(before, j as int);
            assert(purposes@ =~= without_swapped(km[key].0, purpose));
        }
        if purposes.len() == 0 {
            self.keys.remove(i);
            proof {
                lemma_to_map_remove(s, i as int);
                assert(self.key_map() =~= km.remove(key));
            }
        } else {
            let key_type = self.keys[i].1.key_type;
            let rec = Key { purposes, key_type, key };
            self.keys.set(i, (key, rec));
            proof {
                lemma_to_map_update(s, i as int, rec);
                assert(self.key_map() =~= km.insert(key, (rec.purposes@, key_type)));
            }
        }
        index_remove_swapped(&mut self.purposes, purpose, &key);
        proof {
            assert(km[key].0 == s[i as int].1.purposes@);
            lemma_remove_keeps_index(km, pi, key, purpose);
        }
        Ok(true)
    }

    /// The record of `key`: its purposes, its key type and the key.
    pub fn get_key(&self, key: Id) -> (r: Result<(Vec<u32>, u32, Id), OnChainIdError>)
        requires
            self.wf(),
        ensures
            match r {
                Ok(t) => {
                    &&& self.key_map().contains_key(key)
                    &&& t.0@ == self.key_map()[key].0
                    &&& t.1 == self.key_map()[key].1
                    &&& t.2 == key
                },
                Err(e) => !self.key_map().contains_key(key) && e == OnChainIdError::KeyNotRegistered,
            },
    {
        match find_id(&self.keys, &key) {
            Some(i) => {
                proof {
                    lemma_to_map_at(self.keys@, i as int);
                }
                let rec = &self.keys[i].1;
                Ok((copied(&rec.purposes), rec.key_type, rec.key))
            },
            None => Err(OnChainIdError::KeyNotRegistered),
        }
    }

    /// The purposes that `key` holds.
    pub fn get_key_purposes(&self, key: Id) -> (r: Result<Vec<u32>, OnChainIdError>)
        requires
            self.wf(),
        ensures
            match r {
                Ok(v) => self.key_map().contains_key(key) && v@ == self.key_map()[key].0,
                Err(e) => !self.key_map().contains_key(key) && e == OnChainIdError::KeyNotRegistered,
            },
    {
        match find_id(&self.keys, &key) {
            Some(i) => {
                proof {
                    lemma_to_map_at(self.keys@, i as int);
                }
                Ok(copied(&self.keys[i].1.purposes))
            },
            None => Err(OnChainIdError::KeyNotRegistered),
        }
    }

    /// The keys listed under `purpose`: empty where none is.
    pub fn get_keys_by_purpose(&self, purpose: u32) -> (r: Vec<Id>)
        requires
            self.wf(),
        ensures
            r@ == (if self.purpose_index().contains_key(purpose) {
                self.purpose_index()[purpose]
            } else {
                Seq::<Id>::empty()
            }),
    {
        match index_get(&self.purposes, purpose) {
            Some(v) => v,
            None => Vec::new(),
        }
    }

    /// Whether `key` holds `purpose`; a question about the management
    /// purpose is always answered yes for a registered key.
    pub fn key_has_purpose(&self, key: Id, purpose: u32) -> (r: Result<bool, OnChainIdError>)
        requires
            self.wf(),
        ensures
            r == (if !self.key_map().contains_key(key) {
                Err(OnChainIdError::KeyNotRegistered)
            } else {
                Ok(purpose == MANAGEMENT || self.key_map()[key].0.contains(purpose))
            }),
    {
        match find_id(&self.keys, &key) {
            Some(i) => {
                proof {
                    lemma_to_map_at(self.keys@, i as int);
                }
                let held = position_of_u32(&self.keys[i].1.purposes, purpose).is_some();
                Ok(purpose == MANAGEMENT || held)
            },
            None => Err(OnChainIdError::KeyNotRegistered),
        }
    }

    /// Files a claim by `issuer` under `topic` and returns its id, derived
    /// from issuer and topic. A claim already stored under that id keeps its
    /// issuer and takes the other fields, and stays listed where it is; a new
    /// claim is stored and its id appended under its topic.
    pub fn add_claim(
        &mut self,
        topic: u32,
        scheme: u32,
        issuer: Id,
        signature: [u8; 64],
        data: Vec<u8>,
        uri: Vec<u8>,
    ) -> (r: Id)
        requires
            old(self).wf(),
        ensures
            final(self).wf(),
            add_claim_post(*old(self), *final(self), r, topic, scheme, issuer, signature, data@, uri@),
    {
        let id = claim_id(&issuer, topic);
        let ghost s = self.claims@;
        let ghost cm = self.claim_map();
        let ghost ti = self.topic_index();
        let ghost data_v = data@;
        let ghost uri_v = uri@;
        match find_id(&self.claims, &id) {
            Some(i) => {
                proof {
                    lemma_to_map_at(s, i as int);
                }
                let issuer0 = self.claims[i].1.issuer;
                let topic0 = self.claims[i].1.topic;
                let c = Claim { topic, scheme, issuer: issuer0, signature, data, uri };
                self.claims.set(i, (id, c));
                proof {
                    lemma_to_map_update(s, i as int, c);
                    assert(self.claim_map() =~= cm.insert(
                        id,
                        claim_after(cm, id, topic, scheme, issuer, signature, data_v, uri_v),
                    ));
                    lemma_claim_update_keeps_index(cm, ti, id, c@);
                }
                if topic0 != topic {
                    // Two issuer-topic pairs gave one id: keep the id listed
                    // under the topic its claim now has.
                    index_remove_ordered(&mut self.topics, topic0, &id);
                    index_append(&mut self.topics, topic, id);
                }
            },
            None => {
                let c = Claim { topic, scheme, issuer, signature, data, uri };
                self.claims.push((id, c));
                proof {
                    assert(!to_map(s).contains_key(id));
                    lemma_to_map_push(s, id, c);
                    assert(self.claim_map() =~= cm.insert(
                        id,
                        claim_after(cm, id, topic, scheme, issuer, signature, data_v, uri_v),
                    ));
                    lemma_new_claim_keeps_index(cm, ti, id, c@);
                }
                index_append(&mut self.topics, topic, id);
            },
        }
        id
    }

    /// The fields of the claim stored under `claim_id`: topic, scheme,
    /// issuer, signature, data and uri.
    pub fn get_claim(&self, claim_id: Id) -> (r: Result<
        (u32, u32, Id, [u8; 64], Vec<u8>, Vec<u8>),
        OnChainIdError,
    >)
        requires
            self.wf(),
        ensures
            get_claim_post(*self, claim_id, r),
    {
        match find_id(&self.claims, &claim_id) {
            Some(i) => {
                proof {
                    lemma_to_map_at(self.claims@, i as int);
                }
                let c = &self.claims[i].1;
                Ok((c.topic, c.scheme, c.issuer, c.signature, copied(&c.data), copied(&c.uri)))
            },
            None => Err(OnChainIdError::NoClaimFound),
        }
    }

    /// Removes the claim stored under `claim_id`, and takes its id out of its
    /// topic's list keeping the order of the rest (a no-op where that list is
    /// missing or lacks it). Fails, changing nothing, where no claim is stored
    /// under the id.
    pub fn remove_claim(&mut self, claim_id: Id) -> (r: Result<bool, OnChainIdError>)
        requires
            old(self).wf(),
        ensures
            final(self).wf(),
            r == (if old(self).claim_map().contains_key(claim_id) {
                Ok(true)
            } else {
                Err(OnChainIdError::NoClaimFound)
            }),
            r is Err ==> *final(self) == *old(self),
            r is Ok ==> final(self).claim_map() == old(self).claim_map().remove(claim_id),
            r is Ok ==> final(self).topic_index() == index_without_ordered(
                old(self).topic_index(),
                old(self).claim_map()[claim_id].topic,
                claim_id,
            ),
            final(self).key_map() == old(self).key_map(),
            final(self).purpose_index() == old(self).purpose_index(),
    {
        let ghost s = self.claims@;
        let ghost cm = self.claim_map();
        let ghost ti = self.topic_index();
        let i = match find_id(&self.claims, &claim_id) {
            Some(i) => i,
            None => {
                return Err(OnChainIdError::NoClaimFound);
            },
        };
        proof {
            lemma_to_map_at(s, i as int);
        }
        let topic = self.claims[i].1.topic;
        self.claims.remove(i);
        proof {
            lemma_to_map_remove(s, i as int);
            assert(self.claim_map() =~= cm.remove(claim_id));
        }
        index_remove_ordered(&mut self.topics, topic, &claim_id);
        proof {
            lemma_claim_removal_keeps_index(cm, ti, claim_id);
        }
        Ok(true)
    }

    /// The claim ids listed under `topic`. Fails where the topic has no
    /// index entry.
    pub fn get_claim_ids_by_topic(&self, topic: u32) -> (r: Result<Vec<Id>, OnChainIdError>)
        requires
            self.wf(),
        ensures
            match r {
                Ok(v) => self.topic_index().contains_key(topic) && v@ == self.topic_index()[topic],
                Err(e) => !self.topic_index().contains_key(topic) && e
                    == OnChainIdError::NoClaimTopicFound,
            },
    {
        match index_get(&self.topics, topic) {
            Some(v) => Ok(v),
            None => Err(OnChainIdError::NoClaimTopicFound),
        }
    }

    /// The verdict on a claim by `issuer` whose signature check came out as
    /// `signature_ok`: refused unless the issuer holds the claim-signer
    /// purpose; otherwise valid where the signature verified, and a failure
    /// where it did not.
    pub fn claim_validity(&self, issuer: Id, signature_ok: bool) -> (r: Result<
        bool,
        OnChainIdError,
    >)
        requires
            self.wf(),
        ensures
            r == (if !holds_purpose(self.key_map(), issuer, CLAIM_SIGNER) {
                Err(OnChainIdError::IssuerKeyNotAuthorized)
            } else if signature_ok {
                Ok(true)
            } else {
                Err(OnChainIdError::ClaimSignatureRejected)
            }),
    {
        match self.key_has_purpose(issuer, CLAIM_SIGNER) {
            Ok(true) => {
                if signature_ok {
                    Ok(true)
                } else {
                    Err(OnChainIdError::ClaimSignatureRejected)
                }
            },
            _ => Err(OnChainIdError::IssuerKeyNotAuthorized),
        }
    }

    /// Checks that `sig` is a valid signature by `issuer`, a key holding the
    /// claim-signer purpose, of the message made of `identity`, the
    /// big-endian `topic` and `data`. Fails where the issuer does not hold
    /// that purpose (without looking at the signature), and where the
    /// signature does not verify; never answers `Ok(false)`.
    pub fn is_claim_valid(
        &self,
        identity: Id,
        issuer: Id,
        topic: u32,
        sig: [u8; 64],
        data: Vec<u8>,
    ) -> (r: Result<bool, OnChainIdError>)
        requires
            self.wf(),
        ensures
            r == (if !holds_purpose(self.key_map(), issuer, CLAIM_SIGNER) {
                Err(OnChainIdError::IssuerKeyNotAuthorized)
            } else if ed25519_accepts(issuer@, claim_message_spec(identity@, topic, data@), sig@) {
                Ok(true)
            } else {
                Err(OnChainIdError::ClaimSignatureRejected)
            }),
            r != Ok::<bool, OnChainIdError>(false),
    {
        match self.key_has_purpose(issuer, CLAIM_SIGNER) {
            Ok(true) => {},
            _ => {
                return Err(OnChainIdError::IssuerKeyNotAuthorized);
            },
        }
        let signature_ok = claim_signature_valid(&identity, &issuer, topic, &sig, &data);
        self.claim_validity(issuer, signature_ok)
    }
}

} // verus!
