use vstd::prelude::*;
use crate::bytes::{bytes_eq, copy_bytes};
use crate::identity::{GroupClaim, GroupClaimView, Identity, IdentityView, same_content, signed_by};
use crate::key_store::{
    KeyStore, KeyStoreView, VouchView, lemma_too_few_vouchers, unique_vouchers, vouch_count, with_vouch,
};

verus! {

/// The distinct claims that one sender has submitted for a request.
pub struct SenderClaims {
    pub sender: Vec<u8>,
    pub claims: Vec<GroupClaim>,
}

pub struct SenderClaimsView {
    pub sender: Seq<u8>,
    pub claims: Seq<GroupClaimView>,
}

impl View for SenderClaims {
    type V = SenderClaimsView;

    open spec fn view(&self) -> SenderClaimsView {
        SenderClaimsView {
            sender: self.sender@,
            claims: self.claims@.map_values(|c: GroupClaim| c@),
        }
    }
}

/// What is gathered for one pending request: the vouches for keys, and the
/// claims of each sender.
pub struct PendingEntry {
    pub keys: KeyStore,
    pub claims: Vec<SenderClaims>,
}

pub struct PendingEntryView {
    pub keys: KeyStoreView,
    pub claims: Seq<SenderClaimsView>,
}

impl View for PendingEntry {
    type V = PendingEntryView;

    open spec fn view(&self) -> PendingEntryView {
        PendingEntryView {
            keys: self.keys@,
            claims: self.claims@.map_values(|s: SenderClaims| s@),
        }
    }
}

/// No sender appears twice.
pub open spec fn unique_senders(es: Seq<SenderClaimsView>) -> bool {
    forall|i: int, j: int|
        0 <= i < es.len() && 0 <= j < es.len() && i != j ==> #[trigger] es[i].sender
            != #[trigger] es[j].sender
}

/// Some claim in `cs` carries the same content as `c`.
pub open spec fn contains_content(cs: Seq<GroupClaimView>, c: GroupClaimView) -> bool {
    exists|i: int| 0 <= i < cs.len() && same_content(#[trigger] cs[i], c)
}

/// The claims after `sender` submits `c`: a claim whose content the sender
/// already submitted changes nothing.
pub open spec fn with_claim(es: Seq<SenderClaimsView>, sender: Seq<u8>, c: GroupClaimView) -> Seq<
    SenderClaimsView,
> {
    if exists|i: int| 0 <= i < es.len() && es[i].sender == sender {
        let i = choose|i: int| 0 <= i < es.len() && es[i].sender == sender;
        if contains_content(es[i].claims, c) {
            es
        } else {
            es.update(i, SenderClaimsView { sender, claims: es[i].claims.push(c) })
        }
    } else {
        es.push(SenderClaimsView { sender, claims: seq![c] })
    }
}

/// The vouches after `sender` vouches for each identity of `ids` in turn.
pub open spec fn with_vouches(vs: Seq<VouchView>, sender: Seq<u8>, ids: Seq<IdentityView>) -> Seq<
    VouchView,
>
    decreases ids.len(),
{
    if ids.len() == 0 {
        vs
    } else {
        with_vouch(
            with_vouches(vs, sender, ids.drop_last()),
            ids.last().name,
            sender,
            ids.last().public_key,
        )
    }
}

/// The state of a request after `sender` submits `c`.
pub open spec fn after_claim(e: PendingEntryView, sender: Seq<u8>, c: GroupClaimView) -> PendingEntryView {
    PendingEntryView {
        keys: KeyStoreView {
            vouches: with_vouches(e.keys.vouches, sender, c.identities),
            threshold: e.keys.threshold,
        },
        claims: with_claim(e.claims, sender, c),
    }
}

/// The state of a request that nothing was submitted for yet.
pub open spec fn empty_entry(keys_threshold: nat) -> PendingEntryView {
    PendingEntryView {
        keys: KeyStoreView { vouches: Seq::empty(), threshold: keys_threshold },
        claims: Seq::empty(),
    }
}

/// `c`, submitted by `sender`, verifies under a key that the store exposes
/// for `sender`.
pub open spec fn claim_verified(keys: KeyStoreView, sender: Seq<u8>, c: GroupClaimView) -> bool {
    exists|k: Seq<u8>| keys.exposes(sender, k) && signed_by(c, k)
}

/// The first of a sender's claims that verifies, if any.
pub open spec fn first_verified(keys: KeyStoreView, sender: Seq<u8>, cs: Seq<GroupClaimView>) -> Option<
    GroupClaimView,
>
    decreases cs.len(),
{
    if cs.len() == 0 {
        None
    } else if claim_verified(keys, sender, cs[0]) {
        Some(cs[0])
    } else {
        first_verified(keys, sender, cs.drop_first())
    }
}

/// The verified claims, at most one per sender, without two of the same
/// content.
pub open spec fn verified_claims(keys: KeyStoreView, es: Seq<SenderClaimsView>) -> Seq<GroupClaimView>
    decreases es.len(),
{
    if es.len() == 0 {
        Seq::empty()
    } else {
        let prev = verified_claims(keys, es.drop_last());
        match first_verified(keys, es.last().sender, es.last().claims) {
            Some(c) => if contains_content(prev, c) {
                prev
            } else {
                prev.push(c)
            },
            None => prev,
        }
    }
}

/// The identities of all the claims, in order, duplicates kept.
pub open spec fn merged_identities(cs: Seq<GroupClaimView>) -> Seq<IdentityView>
    decreases cs.len(),
{
    if cs.len() == 0 {
        Seq::empty()
    } else {
        merged_identities(cs.drop_last()) + cs.last().identities
    }
}

/// The group that a request resolves to, once at least `claim_threshold`
/// distinct claims verify.
pub open spec fn selection(keys: KeyStoreView, es: Seq<SenderClaimsView>, claim_threshold: nat) -> Option<
    Seq<IdentityView>,
> {
    let v = verified_claims(keys, es);
    if v.len() < claim_threshold {
        None
    } else {
        Some(merged_identities(v))
    }
}

/// No two of `cs` carry the same content.
pub open spec fn distinct_contents(cs: Seq<GroupClaimView>) -> bool {
    forall|i: int, j: int| 0 <= i < j < cs.len() ==> !same_content(#[trigger] cs[i], #[trigger] cs[j])
}

/// No sender appears twice, and no sender has two claims of the same
/// content.
pub open spec fn claims_wf(es: Seq<SenderClaimsView>) -> bool {
    &&& unique_senders(es)
    &&& forall|i: int| 0 <= i < es.len() ==> distinct_contents(#[trigger] es[i].claims)
}

/// No voucher vouches twice for one name, and the claims are well formed.
pub open spec fn entry_wf(e: PendingEntryView) -> bool {
    unique_vouchers(e.keys.vouches) && claims_wf(e.claims)
}

impl PendingEntry {
    pub open spec fn wf(&self) -> bool {
        self.keys.wf() && claims_wf(self@.claims)
    }

    /// An entry with no vouches and no claims, whose key store exposes a key
    /// once `keys_threshold` distinct vouchers stand behind it.
    pub fn new(keys_threshold: usize) -> (r: PendingEntry)
        ensures
            r.wf(),
            r@ == empty_entry(keys_threshold as nat),
    {
        let r = PendingEntry { keys: KeyStore::new(keys_threshold), claims: Vec::new() };
        assert(r@.claims =~= Seq::<SenderClaimsView>::empty());
        r
    }
}

proof fn lemma_first_verified_skip(keys: KeyStoreView, sender: Seq<u8>, cs: Seq<GroupClaimView>, j: int)
    requires
        0 <= j <= cs.len(),
        forall|m: int| 0 <= m < j ==> !claim_verified(keys, sender, #[trigger] cs[m]),
    ensures
        first_verified(keys, sender, cs) == first_verified(keys, sender, cs.subrange(j, cs.len() as int)),
    decreases j,
{
    if j == 0 {
        assert(cs.subrange(0, cs.len() as int) =~= cs);
    } else {
        assert(!claim_verified(keys, sender, cs[0]));
        let rest = cs.drop_first();
        assert forall|m: int| 0 <= m < j - 1 implies !claim_verified(keys, sender, #[trigger] rest[m]) by {
            assert(rest[m] == cs[m + 1]);
        }
        lemma_first_verified_skip(keys, sender, rest, j - 1);
        assert(rest.subrange(j - 1, rest.len() as int) =~= cs.subrange(j, cs.len() as int));
    }
}

/// Whether `claim`, submitted by `author`, verifies under one of the keys
/// that `keys` exposes for `author`.
pub fn verify_claim(author: &Vec<u8>, keys: &KeyStore, claim: &GroupClaim) -> (r: bool)
    ensures
        r == claim_verified(keys@, author@, claim@),
{
    let pks = keys.get_accumulated_keys(author);
    let mut i: usize = 0;
    while i < pks.len()
        invariant
            0 <= i <= pks@.len(),
            forall|m: int| 0 <= m < pks@.len() ==> keys@.exposes(author@, #[trigger] pks@[m]@),
            forall|k: Seq<u8>|
                #[trigger] keys@.exposes(author@, k) ==> exists|m: int|
                    0 <= m < pks@.len() && pks@[m]@ == k,
            forall|m: int| 0 <= m < i ==> !signed_by(claim@, #[trigger] pks@[m]@),
        decreases pks@.len() - i,
    {
        if claim.verify_public_key(&pks[i]) {
            assert(keys@.exposes(author@, pks@[i as int]@));
            return true;
        }
        i = i + 1;
    }
    proof {
        assert forall|k: Seq<u8>| !(keys@.exposes(author@, k) && signed_by(claim@, k)) by {
            if keys@.exposes(author@, k) {
                let m = choose|m: int| 0 <= m < pks@.len() && pks@[m]@ == k;
                assert(!signed_by(claim@, pks@[m]@));
            }
        }
    }
    false
}

/// The index of the first of `author`'s claims that verifies, if any.
fn first_verified_claim(author: &Vec<u8>, keys: &KeyStore, claims: &Vec<GroupClaim>) -> (r: Option<usize>)
    ensures
        ({
            let cs = claims@.map_values(|c: GroupClaim| c@);
            match r {
                Some(j) => j < claims@.len() && first_verified(keys@, author@, cs) == Some(cs[j as int]),
                None => first_verified(keys@, author@, cs) == None::<GroupClaimView>,
            }
        }),
{
    let ghost cs = claims@.map_values(|c: GroupClaim| c@);
    let mut j: usize = 0;
    while j < claims.len()
        invariant
            cs == claims@.map_values(|c: GroupClaim| c@),
            0 <= j <= cs.len(),
            forall|m: int| 0 <= m < j ==> !claim_verified(keys@, author@, #[trigger] cs[m]),
        decreases cs.len() - j,
    {
        assert(cs[j as int] == claims@[j as int]@);
        if verify_claim(author, keys, &claims[j]) {
            proof {
                lemma_first_verified_skip(keys@, author@, cs, j as int);
                assert(cs.subrange(j as int, cs.len() as int)[0] == cs[j as int]);
            }
            return Some(j);
        }
        j = j + 1;
    }
    proof {
        lemma_first_verified_skip(keys@, author@, cs, j as int);
    }
    None
}

/// Each sender adds at most one claim to the verified ones, no two of which
/// carry the same content; so with fewer distinct verifiable claims than
/// `claim_threshold` (in particular, with fewer senders than that) a
/// request is not resolved.
pub proof fn lemma_quorum_floor(keys: KeyStoreView, es: Seq<SenderClaimsView>, claim_threshold: nat)
    ensures
        verified_claims(keys, es).len() <= es.len(),
        forall|i: int, j: int|
            0 <= i < j < verified_claims(keys, es).len() ==> !same_content(
                #[trigger] verified_claims(keys, es)[i],
                #[trigger] verified_claims(keys, es)[j],
            ),
        verified_claims(keys, es).len() < claim_threshold ==> selection(keys, es, claim_threshold)
            == None::<Seq<IdentityView>>,
    decreases es.len(),
{
    if es.len() > 0 {
        lemma_quorum_floor(keys, es.drop_last(), claim_threshold);
        let prev = verified_claims(keys, es.drop_last());
        let v = verified_claims(keys, es);
        assert forall|i: int, j: int| 0 <= i < j < v.len() implies !same_content(
            #[trigger] v[i],
            #[trigger] v[j],
        ) by {
            if j >= prev.len() {
                assert(v[i] == prev[i]);
                if same_content(prev[i], v[j]) {
                    assert(contains_content(prev, v[j]));
                }
            } else {
                assert(v[i] == prev[i] && v[j] == prev[j]);
            }
        }
    }
}

/// Once at least `claim_threshold` distinct claims verify, the request
/// resolves to the identities of all of them.
pub proof fn lemma_quorum_trigger(keys: KeyStoreView, es: Seq<SenderClaimsView>, claim_threshold: nat)
    requires
        verified_claims(keys, es).len() >= claim_threshold,
    ensures
        selection(keys, es, claim_threshold) == Some(merged_identities(verified_claims(keys, es))),
{
}

proof fn lemma_first_verified_sound(keys: KeyStoreView, sender: Seq<u8>, cs: Seq<GroupClaimView>, c: GroupClaimView)
    requires
        first_verified(keys, sender, cs) == Some(c),
    ensures
        cs.contains(c),
        claim_verified(keys, sender, c),
    decreases cs.len(),
{
    if !claim_verified(keys, sender, cs[0]) {
        lemma_first_verified_sound(keys, sender, cs.drop_first(), c);
        let i = choose|i: int| 0 <= i < cs.drop_first().len() && cs.drop_first()[i] == c;
        assert(cs[i + 1] == c);
    } else {
        assert(cs[0] == c);
    }
}

/// A claim counts as verified only if its sender submitted it and the key
/// store exposes, for the sender's name, a key (vouched for by at least the
/// store's threshold of distinct vouchers) under which its signature
/// verifies.
pub proof fn lemma_key_gating(keys: KeyStoreView, es: Seq<SenderClaimsView>, c: GroupClaimView)
    requires
        verified_claims(keys, es).contains(c),
    ensures
        exists|i: int|
            0 <= i < es.len() && (#[trigger] es[i]).claims.contains(c) && exists|k: Seq<u8>|
                keys.exposes(es[i].sender, k) && vouch_count(keys.vouches, es[i].sender, k)
                    >= keys.threshold && signed_by(c, k),
    decreases es.len(),
{
    let prev = verified_claims(keys, es.drop_last());
    if prev.contains(c) {
        lemma_key_gating(keys, es.drop_last(), c);
        let i = choose|i: int|
            0 <= i < es.drop_last().len() && (#[trigger] es.drop_last()[i]).claims.contains(c) && exists|k: Seq<u8>|
                keys.exposes(es.drop_last()[i].sender, k) && vouch_count(keys.vouches, es.drop_last()[i].sender, k)
                    >= keys.threshold && signed_by(c, k);
        assert(es[i] == es.drop_last()[i]);
    } else {
        let last = es.last();
        match first_verified(keys, last.sender, last.claims) {
            Some(d) => {
                if !contains_content(prev, d) {
                    let v = prev.push(d);
                    let j = choose|j: int| 0 <= j < v.len() && v[j] == c;
                    if j < prev.len() {
                        assert(prev[j] == c);
                    }
                    assert(d == c);
                    lemma_first_verified_sound(keys, last.sender, last.claims, c);
                    assert(es[es.len() - 1] == last);
                }
            },
            None => {},
        }
    }
}

/// The key that the last identity named `name` in `ids` carries, if any.
spec fn last_key(ids: Seq<IdentityView>, name: Seq<u8>) -> Option<Seq<u8>>
    decreases ids.len(),
{
    if ids.len() == 0 {
        None
    } else if ids.last().name == name {
        Some(ids.last().public_key)
    } else {
        last_key(ids.drop_last(), name)
    }
}

/// `xs` with each vouch of `sender` for a name of `ids` set to the last key
/// that `ids` gives that name.
spec fn refreshed(xs: Seq<VouchView>, sender: Seq<u8>, ids: Seq<IdentityView>) -> Seq<VouchView> {
    Seq::new(
        xs.len(),
        |p: int|
            if xs[p].voucher == sender && last_key(ids, xs[p].claimed) is Some {
                VouchView { claimed: xs[p].claimed, voucher: sender, key: last_key(ids, xs[p].claimed)->0 }
            } else {
                xs[p]
            },
    )
}

/// `xs` holds a vouch of `sender` for every name of `ids`.
spec fn covers(xs: Seq<VouchView>, sender: Seq<u8>, ids: Seq<IdentityView>) -> bool {
    forall|name: Seq<u8>|
        #[trigger] last_key(ids, name) is Some ==> exists|p: int|
            0 <= p < xs.len() && xs[p].claimed == name && xs[p].voucher == sender
}

proof fn lemma_with_vouch_unique(xs: Seq<VouchView>, claimed: Seq<u8>, voucher: Seq<u8>, key: Seq<u8>)
    requires
        unique_vouchers(xs),
    ensures
        unique_vouchers(with_vouch(xs, claimed, voucher, key)),
        with_vouch(xs, claimed, voucher, key).len() >= xs.len(),
        forall|p: int|
            0 <= p < xs.len() ==> (#[trigger] with_vouch(xs, claimed, voucher, key)[p]).claimed
                == xs[p].claimed && with_vouch(xs, claimed, voucher, key)[p].voucher == xs[p].voucher,
        exists|p: int|
            0 <= p < with_vouch(xs, claimed, voucher, key).len() && with_vouch(xs, claimed, voucher, key)[p]
                == (VouchView { claimed, voucher, key }),
        forall|p: int|
            0 <= p < xs.len() && !(xs[p].claimed == claimed && xs[p].voucher == voucher) ==> #[trigger] with_vouch(
                xs,
                claimed,
                voucher,
                key,
            )[p] == xs[p],
        forall|p: int|
            xs.len() <= p < with_vouch(xs, claimed, voucher, key).len() ==> #[trigger] with_vouch(
                xs,
                claimed,
                voucher,
                key,
            )[p] == (VouchView { claimed, voucher, key }),
{
    let w = with_vouch(xs, claimed, voucher, key);
    let v = VouchView { claimed, voucher, key };
    if exists|i: int| 0 <= i < xs.len() && xs[i].claimed == claimed && xs[i].voucher == voucher {
        let i = choose|i: int| 0 <= i < xs.len() && xs[i].claimed == claimed && xs[i].voucher == voucher;
        assert(w == xs.update(i, v));
        assert(w[i] == v);
        assert forall|a: int, b: int| 0 <= a < w.len() && 0 <= b < w.len() && a != b implies !(
        #[trigger] w[a].claimed == #[trigger] w[b].claimed && w[a].voucher == w[b].voucher) by {
            assert(!(xs[a].claimed == xs[b].claimed && xs[a].voucher == xs[b].voucher));
        }
    } else {
        assert(w == xs.push(v));
        assert(w[xs.len() as int] == v);
        assert forall|a: int, b: int| 0 <= a < w.len() && 0 <= b < w.len() && a != b implies !(
        #[trigger] w[a].claimed == #[trigger] w[b].claimed && w[a].voucher == w[b].voucher) by {
            if a < xs.len() && b < xs.len() {
                assert(!(xs[a].claimed == xs[b].claimed && xs[a].voucher == xs[b].voucher));
            }
        }
    }
}

/// Vouching again for names that all have a vouch of `sender` only sets
/// their keys.
proof fn lemma_vouches_refresh(xs: Seq<VouchView>, sender: Seq<u8>, ids: Seq<IdentityView>)
    requires
        unique_vouchers(xs),
        covers(xs, sender, ids),
    ensures
        with_vouches(xs, sender, ids) == refreshed(xs, sender, ids),
    decreases ids.len(),
{
    if ids.len() == 0 {
        assert(refreshed(xs, sender, ids) =~= xs);
    } else {
        let prev = ids.drop_last();
        let n = ids.last().name;
        let k = ids.last().public_key;
        assert forall|name: Seq<u8>| #[trigger] last_key(prev, name) is Some implies exists|p: int|
            0 <= p < xs.len() && xs[p].claimed == name && xs[p].voucher == sender by {
            assert(last_key(ids, name) is Some);
        }
        lemma_vouches_refresh(xs, sender, prev);
        let y = refreshed(xs, sender, prev);
        assert(last_key(ids, n) is Some);
        let p = choose|p: int| 0 <= p < xs.len() && xs[p].claimed == n && xs[p].voucher == sender;
        assert(y[p].claimed == n && y[p].voucher == sender);
        let q = choose|q: int| 0 <= q < y.len() && y[q].claimed == n && y[q].voucher == sender;
        assert(y[q].claimed == xs[q].claimed && y[q].voucher == xs[q].voucher);
        assert(q == p);
        let r = refreshed(xs, sender, ids);
        assert(with_vouch(y, n, sender, k) =~= r) by {
            assert forall|t: int| 0 <= t < r.len() implies with_vouch(y, n, sender, k)[t] == r[t] by {
                if t != p {
                    if xs[t].claimed == n && xs[t].voucher == sender {
                        assert(!(xs[t].claimed == xs[p].claimed && xs[t].voucher == xs[p].voucher));
                    }
                }
            }
        }
    }
}

/// After `sender` vouches for `ids`, it vouches for each of their names
/// with the last key that `ids` gives the name.
proof fn lemma_vouches_settled(vs: Seq<VouchView>, sender: Seq<u8>, ids: Seq<IdentityView>)
    requires
        unique_vouchers(vs),
    ensures
        unique_vouchers(with_vouches(vs, sender, ids)),
        covers(with_vouches(vs, sender, ids), sender, ids),
        refreshed(with_vouches(vs, sender, ids), sender, ids) == with_vouches(vs, sender, ids),
    decreases ids.len(),
{
    let w = with_vouches(vs, sender, ids);
    if ids.len() == 0 {
        assert(refreshed(w, sender, ids) =~= w);
    } else {
        let prev = ids.drop_last();
        let n = ids.last().name;
        let k = ids.last().public_key;
        lemma_vouches_settled(vs, sender, prev);
        let w0 = with_vouches(vs, sender, prev);
        lemma_with_vouch_unique(w0, n, sender, k);
        assert(w == with_vouch(w0, n, sender, k));
        let pn = choose|p: int| 0 <= p < w.len() && w[p] == (VouchView { claimed: n, voucher: sender, key: k });
        assert forall|name: Seq<u8>| #[trigger] last_key(ids, name) is Some implies exists|p: int|
            0 <= p < w.len() && w[p].claimed == name && w[p].voucher == sender by {
            if name == n {
                assert(w[pn].claimed == name);
            } else {
                assert(last_key(prev, name) is Some);
                let p = choose|p: int| 0 <= p < w0.len() && w0[p].claimed == name && w0[p].voucher == sender;
                assert(w[p].claimed == w0[p].claimed && w[p].voucher == w0[p].voucher);
            }
        }
        assert(refreshed(w, sender, ids) =~= w) by {
            assert forall|t: int| 0 <= t < w.len() implies refreshed(w, sender, ids)[t] == w[t] by {
                if w[t].voucher == sender && last_key(ids, w[t].claimed) is Some {
                    if w[t].claimed == n {
                        if t != pn {
                            assert(!(w[t].claimed == w[pn].claimed && w[t].voucher == w[pn].voucher));
                        }
                    } else {
                        assert(t < w0.len());
                        assert(w[t] == w0[t]);
                        assert(last_key(prev, w0[t].claimed) is Some);
                        assert(refreshed(w0, sender, prev)[t] == w0[t]);
                    }
                }
            }
        }
    }
}

/// Submitting the same claim from the same sender a second time leaves the
/// request's state (its vouches and its claims) as the first submission
/// left it, so nothing is counted twice.
pub proof fn lemma_idempotent_submission(e: PendingEntryView, sender: Seq<u8>, c: GroupClaimView)
    requires
        unique_vouchers(e.keys.vouches),
        unique_senders(e.claims),
    ensures
        after_claim(after_claim(e, sender, c), sender, c) == after_claim(e, sender, c),
{
    let w = with_vouches(e.keys.vouches, sender, c.identities);
    lemma_vouches_settled(e.keys.vouches, sender, c.identities);
    lemma_vouches_refresh(w, sender, c.identities);
    let es = e.claims;
    let once = with_claim(es, sender, c);
    if exists|i: int| 0 <= i < es.len() && es[i].sender == sender {
        let i = choose|i: int| 0 <= i < es.len() && es[i].sender == sender;
        if !contains_content(es[i].claims, c) {
            let pushed = es[i].claims.push(c);
            assert(once[i].claims == pushed);
            let j = choose|j: int| 0 <= j < once.len() && once[j].sender == sender;
            if j != i {
                assert(es[j].sender != es[i].sender);
            }
            assert(pushed[pushed.len() - 1] == c);
            assert(contains_content(once[j].claims, c));
        }
    } else {
        assert(once == es.push(SenderClaimsView { sender, claims: seq![c] }));
        assert(once[es.len() as int].sender == sender);
        let j = choose|j: int| 0 <= j < once.len() && once[j].sender == sender;
        if j != es.len() {
            assert(once[j] == es[j]);
        }
        assert(once[j].claims[0] == c);
        assert(contains_content(once[j].claims, c));
    }
    assert(with_claim(once, sender, c) == once);
}

/// While the key store exposes no key for any sender, no claim is verified,
/// and a request with a positive `claim_threshold` is not resolved.
pub proof fn lemma_no_exposed_key(keys: KeyStoreView, es: Seq<SenderClaimsView>, claim_threshold: nat)
    requires
        forall|i: int, k: Seq<u8>| 0 <= i < es.len() ==> !#[trigger] keys.exposes(es[i].sender, k),
    ensures
        verified_claims(keys, es).len() == 0,
        claim_threshold > 0 ==> selection(keys, es, claim_threshold) == None::<Seq<IdentityView>>,
    decreases es.len(),
{
    if es.len() > 0 {
        let prev = es.drop_last();
        assert forall|i: int, k: Seq<u8>| 0 <= i < prev.len() implies !#[trigger] keys.exposes(prev[i].sender, k) by {
            assert(prev[i] == es[i]);
        }
        lemma_no_exposed_key(keys, prev, claim_threshold);
        let last = es.last();
        assert(es[es.len() - 1] == last);
        match first_verified(keys, last.sender, last.claims) {
            Some(c) => {
                lemma_first_verified_sound(keys, last.sender, last.claims, c);
                let k = choose|k: Seq<u8>| keys.exposes(last.sender, k) && signed_by(c, k);
                assert(!keys.exposes(es[es.len() - 1].sender, k));
            },
            None => {},
        }
    }
}

/// Every peer that vouched for a key in this request's store has also
/// submitted a claim for it.
pub open spec fn vouchers_are_senders(e: PendingEntryView) -> bool {
    forall|i: int|
        0 <= i < e.keys.vouches.len() ==> exists|j: int|
            0 <= j < e.claims.len() && e.claims[j].sender == (#[trigger] e.keys.vouches[i]).voucher
}

proof fn lemma_with_vouches_vouchers(vs: Seq<VouchView>, sender: Seq<u8>, ids: Seq<IdentityView>)
    ensures
        forall|i: int|
            0 <= i < with_vouches(vs, sender, ids).len() ==> (#[trigger] with_vouches(vs, sender, ids)[i]).voucher
                == sender || exists|j: int| 0 <= j < vs.len() && vs[j].voucher == with_vouches(vs, sender, ids)[i].voucher,
    decreases ids.len(),
{
    if ids.len() > 0 {
        let prev = ids.drop_last();
        lemma_with_vouches_vouchers(vs, sender, prev);
        let w0 = with_vouches(vs, sender, prev);
        let w = with_vouches(vs, sender, ids);
        let n = ids.last().name;
        let k = ids.last().public_key;
        assert(w == with_vouch(w0, n, sender, k));
        assert forall|i: int| 0 <= i < w.len() implies (#[trigger] w[i]).voucher == sender || exists|j: int|
            0 <= j < vs.len() && vs[j].voucher == w[i].voucher by {
            if exists|t: int| 0 <= t < w0.len() && w0[t].claimed == n && w0[t].voucher == sender {
                let t = choose|t: int| 0 <= t < w0.len() && w0[t].claimed == n && w0[t].voucher == sender;
                if i != t {
                    assert(w[i] == w0[i]);
                }
            } else {
                if i < w0.len() {
                    assert(w[i] == w0[i]);
                }
            }
        }
    }
}

/// A claim keeps every vouch's voucher among the senders of its request.
pub proof fn lemma_vouchers_stay_senders(e: PendingEntryView, sender: Seq<u8>, c: GroupClaimView)
    requires
        vouchers_are_senders(e),
    ensures
        vouchers_are_senders(after_claim(e, sender, c)),
{
    let e1 = after_claim(e, sender, c);
    let es = e.claims;
    let once = e1.claims;
    lemma_with_vouches_vouchers(e.keys.vouches, sender, c.identities);
    assert(once.len() >= es.len());
    assert forall|j: int| 0 <= j < es.len() implies (#[trigger] once[j]).sender == es[j].sender by {}
    let js = if exists|i: int| 0 <= i < es.len() && es[i].sender == sender {
        choose|i: int| 0 <= i < es.len() && es[i].sender == sender
    } else {
        es.len() as int
    };
    assert(0 <= js < once.len() && once[js].sender == sender);
    assert forall|i: int| 0 <= i < e1.keys.vouches.len() implies exists|j: int|
        0 <= j < once.len() && once[j].sender == (#[trigger] e1.keys.vouches[i]).voucher by {
        let v = e1.keys.vouches[i];
        if v.voucher != sender {
            let t = choose|t: int| 0 <= t < e.keys.vouches.len() && e.keys.vouches[t].voucher == v.voucher;
            let j = choose|j: int| 0 <= j < es.len() && es[j].sender == e.keys.vouches[t].voucher;
            assert(once[j].sender == es[j].sender);
        }
    }
}

/// When every voucher of a request is one of its senders, and it has fewer
/// senders than the key store's threshold, no key is exposed, so a
/// positive `claim_threshold` is not reached.
pub proof fn lemma_too_few_senders(e: PendingEntryView, claim_threshold: nat)
    requires
        entry_wf(e),
        vouchers_are_senders(e),
        e.claims.len() < e.keys.threshold,
        claim_threshold > 0,
    ensures
        selection(e.keys, e.claims, claim_threshold) == None::<Seq<IdentityView>>,
{
    let senders = e.claims.map_values(|x: SenderClaimsView| x.sender);
    let set = senders.to_set();
    vstd::seq_lib::seq_to_set_is_finite(senders);
    senders.lemma_cardinality_of_set();
    assert forall|i: int, k: Seq<u8>| 0 <= i < e.claims.len() implies !#[trigger] e.keys.exposes(e.claims[i].sender, k) by {
        assert forall|t: int|
            0 <= t < e.keys.vouches.len() && (#[trigger] e.keys.vouches[t]).claimed == e.claims[i].sender implies set.contains(
                e.keys.vouches[t].voucher,
            ) by {
            let j = choose|j: int| 0 <= j < e.claims.len() && e.claims[j].sender == e.keys.vouches[t].voucher;
            assert(senders[j] == e.keys.vouches[t].voucher);
        }
        lemma_too_few_vouchers(e.keys, e.claims[i].sender, set, k);
    }
    lemma_no_exposed_key(e.keys, e.claims, claim_threshold);
}

/// Whether one of `cs` carries the same content as `c`.
fn holds_content(cs: &Vec<GroupClaim>, c: &GroupClaim) -> (r: bool)
    ensures
        r == contains_content(cs@.map_values(|x: GroupClaim| x@), c@),
{
    let ghost v = cs@.map_values(|x: GroupClaim| x@);
    let mut m: usize = 0;
    while m < cs.len()
        invariant
            v == cs@.map_values(|x: GroupClaim| x@),
            0 <= m <= v.len(),
            forall|n: int| 0 <= n < m ==> !same_content(#[trigger] v[n], c@),
        decreases v.len() - m,
    {
        assert(v[m as int] == cs@[m as int]@);
        if cs[m].same_content(c) {
            return true;
        }
        m = m + 1;
    }
    false
}

/// Resolves a request: collects the first verified claim of each sender,
/// leaving out those whose content is already collected, and, when at least
/// `claim_threshold` are collected, returns all their identities.
pub fn try_selecting_group(keys: &KeyStore, claims: &Vec<SenderClaims>, claim_threshold: usize) -> (r:
    Option<Vec<Identity>>)
    ensures
        ({
            let sel = selection(keys@, claims@.map_values(|s: SenderClaims| s@), claim_threshold as nat);
            match r {
                Some(ids) => sel == Some(ids@.map_values(|i: Identity| i@)),
                None => sel == None::<Seq<IdentityView>>,
            }
        }),
{
    let ghost es = claims@.map_values(|s: SenderClaims| s@);
    let mut verified: Vec<GroupClaim> = Vec::new();
    let mut i: usize = 0;
    while i < claims.len()
        invariant
            es == claims@.map_values(|s: SenderClaims| s@),
            0 <= i <= es.len(),
            verified@.map_values(|x: GroupClaim| x@) == verified_claims(keys@, es.subrange(0, i as int)),
        decreases es.len() - i,
    {
        assert(es[i as int] == claims@[i as int]@);
        assert(es.subrange(0, i + 1).drop_last() =~= es.subrange(0, i as int));
        let ghost before = verified@.map_values(|x: GroupClaim| x@);
        match first_verified_claim(&claims[i].sender, keys, &claims[i].claims) {
            Some(j) => {
                assert(es[i as int].claims[j as int] == claims@[i as int].claims@[j as int]@);
                if !holds_content(&verified, &claims[i].claims[j]) {
                    verified.push(claims[i].claims[j].duplicate());
                    assert(verified@.map_values(|x: GroupClaim| x@) =~= before.push(
                        es[i as int].claims[j as int],
                    ));
                }
            },
            None => {},
        }
        i = i + 1;
    }
    assert(es.subrange(0, es.len() as int) =~= es);
    let ghost vv = verified@.map_values(|x: GroupClaim| x@);
    if verified.len() < claim_threshold {
        return None;
    }
    let mut ids: Vec<Identity> = Vec::new();
    let mut m: usize = 0;
    while m < verified.len()
        invariant
            vv == verified@.map_values(|x: GroupClaim| x@),
            0 <= m <= vv.len(),
            ids@.map_values(|x: Identity| x@) == merged_identities(vv.subrange(0, m as int)),
        decreases vv.len() - m,
    {
        assert(vv.subrange(0, m + 1).drop_last() =~= vv.subrange(0, m as int));
        assert(vv[m as int] == verified@[m as int]@);
        let ghost before = ids@.map_values(|x: Identity| x@);
        let more = verified[m].group_identities();
        let mut n: usize = 0;
        while n < more.len()
            invariant
                0 <= n <= more@.len(),
                ids@.map_values(|x: Identity| x@) == before + more@.map_values(|x: Identity| x@).subrange(0, n as int),
            decreases more@.len() - n,
        {
            let ghost prev = ids@.map_values(|x: Identity| x@);
            ids.push(more[n].duplicate());
            assert(ids@.map_values(|x: Identity| x@) =~= prev.push(more@[n as int]@));
            assert(more@.map_values(|x: Identity| x@).subrange(0, n + 1) =~= more@.map_values(|x: Identity| x@).subrange(0, n as int).push(more@[n as int]@));
            n = n + 1;
        }
        assert(more@.map_values(|x: Identity| x@).subrange(0, n as int) =~= more@.map_values(|x: Identity| x@));
        m = m + 1;
    }
    assert(vv.subrange(0, vv.len() as int) =~= vv);
    Some(ids)
}

impl PendingEntry {
    /// Records, for each identity of `claim`, that `sender` vouches that the
    /// identity's name owns its public key.
    pub fn record_vouches(&mut self, sender: &Vec<u8>, claim: &GroupClaim)
        requires
            old(self).wf(),
        ensures
            final(self).wf(),
            final(self)@.claims == old(self)@.claims,
            final(self)@.keys.threshold == old(self)@.keys.threshold,
            final(self)@.keys.vouches == with_vouches(old(self)@.keys.vouches, sender@, claim@.identities),
    {
        let ghost ids = claim@.identities;
        let mut i: usize = 0;
        while i < claim.identities.len()
            invariant
                ids == claim@.identities,
                0 <= i <= ids.len(),
                self.wf(),
                self@.claims == old(self)@.claims,
                self@.keys.threshold == old(self)@.keys.threshold,
                self@.keys.vouches == with_vouches(old(self)@.keys.vouches, sender@, ids.subrange(0, i as int)),
            decreases ids.len() - i,
        {
            assert(ids.subrange(0, i + 1).drop_last() =~= ids.subrange(0, i as int));
            assert(ids[i as int] == claim.identities@[i as int]@);
            let id = &claim.identities[i];
            self.keys.add_key(id.name(), copy_bytes(sender), id.public_key());
            i = i + 1;
        }
        assert(ids.subrange(0, ids.len() as int) =~= ids);
    }

    /// Adds `claim` to the claims of `sender`, unless the sender already
    /// submitted a claim of the same content.
    pub fn insert_claim(&mut self, sender: Vec<u8>, claim: GroupClaim)
        requires
            old(self).wf(),
        ensures
            final(self).wf(),
            final(self)@.keys == old(self)@.keys,
            final(self)@.claims == with_claim(old(self)@.claims, sender@, claim@),
    {
        let ghost es = self@.claims;
        let mut i: usize = 0;
        while i < self.claims.len()
            invariant
                self@ == old(self)@,
                self.wf(),
                es == self@.claims,
                0 <= i <= es.len(),
                forall|j: int| 0 <= j < i ==> es[j].sender != sender@,
            decreases es.len() - i,
        {
            assert(es[i as int] == self.claims@[i as int]@);
            if bytes_eq(&self.claims[i].sender, &sender) {
                let ghost cs = es[i as int].claims;
                let mut j: usize = 0;
                while j < self.claims[i].claims.len()
                    invariant
                        self@ == old(self)@,
                        es == self@.claims,
                        0 <= i < es.len(),
                        cs == es[i as int].claims,
                        cs == self.claims@[i as int]@.claims,
                        es[i as int].sender == sender@,
                        self.wf(),
                        0 <= j <= cs.len(),
                        forall|m: int| 0 <= m < j ==> !same_content(#[trigger] cs[m], claim@),
                    decreases cs.len() - j,
                {
                    assert(cs[j as int] == self.claims@[i as int].claims@[j as int]@);
                    if self.claims[i].claims[j].same_content(&claim) {
                        proof {
                            let w = choose|w: int| 0 <= w < es.len() && es[w].sender == sender@;
                            assert(es[i as int].sender == sender@);
                            assert(w == i as int);
                            assert(same_content(cs[j as int], claim@));
                            assert(contains_content(cs, claim@));
                        }
                        return ;
                    }
                    j = j + 1;
                }
                let mut sc = self.claims.remove(i);
                let ghost before = self.claims@;
                sc.claims.push(claim);
                self.claims.insert(i, sc);
                proof {
                    let w = choose|w: int| 0 <= w < es.len() && es[w].sender == sender@;
                    assert(es[i as int].sender == sender@);
                    assert(w == i as int);
                    assert(!contains_content(cs, claim@));
                    assert(sc@.claims =~= cs.push(claim@));
                    assert(self@.claims =~= es.update(
                        i as int,
                        SenderClaimsView { sender: sender@, claims: cs.push(claim@) },
                    ));
                }
                return ;
            }
            i = i + 1;
        }
        let mut v: Vec<GroupClaim> = Vec::new();
        v.push(claim);
        self.claims.push(SenderClaims { sender, claims: v });
        proof {
            assert(v@.map_values(|c: GroupClaim| c@) =~= seq![claim@]);
            assert(self@.claims =~= es.push(SenderClaimsView { sender: sender@, claims: seq![claim@] }));
        }
    }
}

} // verus!
