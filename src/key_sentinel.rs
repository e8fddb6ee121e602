use vstd::prelude::*;
use crate::identity::{GroupClaim, Identity, IdentityView};
use crate::lru::{
    RequestCache, cache_capacity, cache_consistent, cache_entries, cache_insert, cache_order, cache_remove,
    cache_with_capacity, evicted_count,
};
use crate::selection::{
    PendingEntry, PendingEntryView, after_claim, empty_entry, entry_wf, lemma_vouchers_stay_senders, selection,
    try_selecting_group, vouchers_are_senders,
};

verus! {

/// How many requests a sentinel made by `KeySentinel::new` keeps pending.
pub const MAX_REQUEST_COUNT: usize = 1000;

/// Decides, per request, which group of identities can be trusted, once
/// enough senders' claims verify under keys that enough other senders have
/// vouched for.
pub struct KeySentinel {
    cache: RequestCache,
    claim_threshold: usize,
    keys_threshold: usize,
}

impl KeySentinel {
    /// What is gathered for each pending request.
    pub closed spec fn pending(&self) -> Map<u64, PendingEntryView> {
        cache_entries(self.cache)
    }

    /// The pending requests, least recently touched first.
    pub closed spec fn recency(&self) -> Seq<u64> {
        cache_order(self.cache)
    }

    /// The most requests kept pending at once.
    pub closed spec fn capacity(&self) -> nat {
        cache_capacity(self.cache)
    }

    /// How many distinct verified claims resolve a request.
    pub closed spec fn claim_threshold(&self) -> nat {
        self.claim_threshold as nat
    }

    /// How many distinct vouchers expose a key.
    pub closed spec fn keys_threshold(&self) -> nat {
        self.keys_threshold as nat
    }

    pub closed spec fn wf(&self) -> bool {
        &&& cache_consistent(self.cache)
        &&& cache_capacity(self.cache) > 0
        &&& cache_order(self.cache).len() <= cache_capacity(self.cache)
        &&& forall|k: u64|
            #[trigger] cache_entries(self.cache).contains_key(k) ==> entry_wf(cache_entries(self.cache)[k])
                && vouchers_are_senders(cache_entries(self.cache)[k])
                && cache_entries(self.cache)[k].keys.threshold == self.keys_threshold
    }

    /// The facts that every sentinel keeps, stated over its views.
    pub proof fn lemma_wf(&self)
        requires
            self.wf(),
        ensures
            self.capacity() > 0,
            self.recency().len() <= self.capacity(),
            self.recency().no_duplicates(),
            self.pending().dom() == self.recency().to_set(),
            forall|k: u64|
                #[trigger] self.pending().contains_key(k) ==> entry_wf(self.pending()[k])
                    && vouchers_are_senders(self.pending()[k])
                    && self.pending()[k].keys.threshold == self.keys_threshold(),
    {
    }

    /// The sentinel never keeps more pending requests than its capacity.
    pub proof fn lemma_eviction_bound(&self)
        requires
            self.wf(),
        ensures
            self.pending().dom().finite(),
            self.pending().dom().len() <= self.capacity(),
    {
        self.lemma_wf();
        self.recency().unique_seq_to_set();
        vstd::seq_lib::seq_to_set_is_finite(self.recency());
    }

    /// What is gathered for `request`: an empty entry when nothing is.
    pub open spec fn entry_of(&self, request: u64) -> PendingEntryView {
        if self.pending().contains_key(request) {
            self.pending()[request]
        } else {
            empty_entry(self.keys_threshold())
        }
    }

    /// The pending requests left, least recently touched first, once
    /// `request` is touched and no longer resolves: the others, less the
    /// least recently touched ones that make room for it.
    pub open spec fn kept_after_touch(&self, request: u64) -> Seq<u64> {
        let rest = self.recency().remove_value(request);
        rest.subrange(evicted_count(rest.len(), self.capacity()) as int, rest.len() as int)
    }

    /// A sentinel that keeps at most `MAX_REQUEST_COUNT` requests pending.
    pub fn new(claim_threshold: usize, keys_threshold: usize) -> (r: KeySentinel)
        ensures
            r.wf(),
            r.pending().dom() == Set::<u64>::empty(),
            r.recency() == Seq::<u64>::empty(),
            r.capacity() == MAX_REQUEST_COUNT as nat,
            r.claim_threshold() == claim_threshold as nat,
            r.keys_threshold() == keys_threshold as nat,
    {
        KeySentinel::with_capacity(claim_threshold, keys_threshold, MAX_REQUEST_COUNT)
    }

    /// A sentinel that keeps at most `capacity` requests pending.
    pub fn with_capacity(claim_threshold: usize, keys_threshold: usize, capacity: usize) -> (r: KeySentinel)
        requires
            capacity > 0,
        ensures
            r.wf(),
            r.pending().dom() == Set::<u64>::empty(),
            r.recency() == Seq::<u64>::empty(),
            r.capacity() == capacity as nat,
            r.claim_threshold() == claim_threshold as nat,
            r.keys_threshold() == keys_threshold as nat,
    {
        let r = KeySentinel { cache: cache_with_capacity(capacity), claim_threshold, keys_threshold };
        r
    }

    /// Takes the claim of `sender` for `request`: records the vouches that
    /// the claim's identities carry, records the claim, and tries to resolve
    /// the request. The request's entry is touched first, as the most
    /// recently used: a new request on a full cache makes room by dropping
    /// the least recently touched one. A resolved request is then dropped
    /// and its group returned; otherwise it stays pending.
    pub fn add_identities(&mut self, request: u64, sender: Vec<u8>, claim: GroupClaim) -> (r: Option<
        (u64, Vec<Identity>),
    >)
        requires
            old(self).wf(),
        ensures
            final(self).wf(),
            final(self).capacity() == old(self).capacity(),
            final(self).claim_threshold() == old(self).claim_threshold(),
            final(self).keys_threshold() == old(self).keys_threshold(),
            ({
                let e = after_claim(old(self).entry_of(request), sender@, claim@);
                let sel = selection(e.keys, e.claims, old(self).claim_threshold());
                match r {
                    Some(p) => {
                        let kept = old(self).kept_after_touch(request);
                        &&& p.0 == request
                        &&& sel == Some(p.1@.map_values(|i: Identity| i@))
                        &&& final(self).recency() == kept
                        &&& final(self).pending() == old(self).pending().restrict(kept.to_set())
                    },
                    None => {
                        let kept = old(self).kept_after_touch(request);
                        &&& sel == None::<Seq<IdentityView>>
                        &&& final(self).recency() == kept.push(request)
                        &&& final(self).pending() == old(self).pending().restrict(kept.to_set()).insert(request, e)
                    },
                }
            }),
    {
        let ghost old_entries = cache_entries(self.cache);
        let ghost e0 = self.entry_of(request);
        let mut entry = match cache_remove(&mut self.cache, request) {
            Some(e) => e,
            None => PendingEntry::new(self.keys_threshold),
        };
        assert(entry@ == e0);
        proof {
            lemma_vouchers_stay_senders(e0, sender@, claim@);
        }
        entry.record_vouches(&sender, &claim);
        let ghost c = claim@;
        entry.insert_claim(sender, claim);
        let selected = try_selecting_group(&entry.keys, &entry.claims, self.claim_threshold);
        let ghost mid = cache_order(self.cache);
        let ghost e1 = entry@;
        cache_insert(&mut self.cache, request, entry);
        proof {
            let kept = old(self).kept_after_touch(request);
            assert(mid == old(self).recency().remove_value(request));
            assert(self.pending() =~= old(self).pending().restrict(kept.to_set()).insert(request, e1));
            assert forall|k: u64| #[trigger] cache_entries(self.cache).contains_key(k) implies entry_wf(cache_entries(self.cache)[k])
                && vouchers_are_senders(cache_entries(self.cache)[k])
                && cache_entries(self.cache)[k].keys.threshold == self.keys_threshold by {
                if k != request {
                    assert(old_entries.contains_key(k));
                }
            }
        }
        match selected {
            Some(ids) => {
                let ghost placed = cache_order(self.cache);
                let _ = cache_remove(&mut self.cache, request);
                proof {
                    let kept = old(self).kept_after_touch(request);
                    assert(placed == kept.push(request));
                    assert(!kept.contains(request)) by {
                        if kept.contains(request) {
                            let i = choose|i: int| 0 <= i < kept.len() && kept[i] == request;
                            assert(placed[i] == placed[kept.len() as int]);
                        }
                    }
                    placed.index_of_first_ensures(request);
                    assert(placed.remove_value(request) =~= kept);
                    assert(self.pending() =~= old(self).pending().restrict(kept.to_set()));
                    assert forall|k: u64| #[trigger] cache_entries(self.cache).contains_key(k) implies entry_wf(cache_entries(self.cache)[k])
                        && vouchers_are_senders(cache_entries(self.cache)[k])
                        && cache_entries(self.cache)[k].keys.threshold == self.keys_threshold by {
                        assert(old_entries.contains_key(k));
                    }
                }
                Some((request, ids))
            },
            None => None,
        }
    }
}

/// A request that is not pending, because it was resolved or evicted,
/// starts again from an empty entry.
pub proof fn lemma_fresh_after_removal(s: KeySentinel, request: u64)
    requires
        !s.pending().contains_key(request),
    ensures
        s.entry_of(request) == empty_entry(s.keys_threshold()),
{
}

} // verus!
