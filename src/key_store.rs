use vstd::prelude::*;
use crate::bytes::{bytes_eq, copy_bytes};

verus! {

/// One peer (`voucher`) vouching that the peer named `claimed` owns `key`.
pub struct Vouch {
    pub claimed: Vec<u8>,
    pub voucher: Vec<u8>,
    pub key: Vec<u8>,
}

pub struct VouchView {
    pub claimed: Seq<u8>,
    pub voucher: Seq<u8>,
    pub key: Seq<u8>,
}

impl View for Vouch {
    type V = VouchView;

    open spec fn view(&self) -> VouchView {
        VouchView { claimed: self.claimed@, voucher: self.voucher@, key: self.key@ }
    }
}

/// Collects, per claimed name, which public key each voucher stands behind,
/// and exposes a key once enough distinct vouchers stand behind it.
pub struct KeyStore {
    pub vouches: Vec<Vouch>,
    pub threshold: usize,
}

pub struct KeyStoreView {
    pub vouches: Seq<VouchView>,
    pub threshold: nat,
}

impl View for KeyStore {
    type V = KeyStoreView;

    open spec fn view(&self) -> KeyStoreView {
        KeyStoreView {
            vouches: self.vouches@.map_values(|v: Vouch| v@),
            threshold: self.threshold as nat,
        }
    }
}

/// How many of the vouches say that `name` owns `key`.
pub open spec fn vouch_count(vs: Seq<VouchView>, name: Seq<u8>, key: Seq<u8>) -> nat
    decreases vs.len(),
{
    if vs.len() == 0 {
        0
    } else {
        vouch_count(vs.drop_last(), name, key) + if vs.last().claimed == name
            && vs.last().key == key {
            1nat
        } else {
            0nat
        }
    }
}

/// Each voucher holds at most one vouch per claimed name, so the vouches for
/// a key come from distinct vouchers.
pub open spec fn unique_vouchers(vs: Seq<VouchView>) -> bool {
    forall|i: int, j: int|
        0 <= i < vs.len() && 0 <= j < vs.len() && i != j ==> !(#[trigger] vs[i].claimed
            == #[trigger] vs[j].claimed && vs[i].voucher == vs[j].voucher)
}

/// The vouches after `voucher` vouches that `claimed` owns `key`: an earlier
/// vouch of the same voucher for the same name is replaced (the latest wins).
pub open spec fn with_vouch(vs: Seq<VouchView>, claimed: Seq<u8>, voucher: Seq<u8>, key: Seq<u8>) -> Seq<
    VouchView,
> {
    let v = VouchView { claimed, voucher, key };
    if exists|i: int| 0 <= i < vs.len() && vs[i].claimed == claimed && vs[i].voucher == voucher {
        let i = choose|i: int| 0 <= i < vs.len() && vs[i].claimed == claimed && vs[i].voucher == voucher;
        vs.update(i, v)
    } else {
        vs.push(v)
    }
}

impl KeyStoreView {
    /// `key` is exposed for `name`: at least `threshold` distinct vouchers,
    /// and at least one, stand behind it.
    pub open spec fn exposes(self, name: Seq<u8>, key: Seq<u8>) -> bool {
        let n = vouch_count(self.vouches, name, key);
        n >= self.threshold && n > 0
    }
}

proof fn lemma_count_witness(vs: Seq<VouchView>, name: Seq<u8>, key: Seq<u8>)
    requires
        vouch_count(vs, name, key) > 0,
    ensures
        exists|j: int| 0 <= j < vs.len() && vs[j].claimed == name && vs[j].key == key,
    decreases vs.len(),
{
    if vs.last().claimed == name && vs.last().key == key {
        assert(vs[vs.len() - 1].claimed == name);
    } else {
        lemma_count_witness(vs.drop_last(), name, key);
        let j = choose|j: int| 0 <= j < vs.drop_last().len() && vs.drop_last()[j].claimed == name
            && vs.drop_last()[j].key == key;
        assert(vs[j] == vs.drop_last()[j]);
    }
}

proof fn lemma_count_bound(vs: Seq<VouchView>, name: Seq<u8>, key: Seq<u8>)
    ensures
        vouch_count(vs, name, key) <= vs.len(),
    decreases vs.len(),
{
    if vs.len() > 0 {
        lemma_count_bound(vs.drop_last(), name, key);
    }
}

/// Whether one of `keys` equals `key`.
fn holds_key(keys: &Vec<Vec<u8>>, key: &Vec<u8>) -> (r: bool)
    ensures
        r == exists|m: int| 0 <= m < keys@.len() && keys@[m]@ == key@,
{
    let mut m: usize = 0;
    while m < keys.len()
        invariant
            0 <= m <= keys@.len(),
            forall|n: int| 0 <= n < m ==> keys@[n]@ != key@,
        decreases keys@.len() - m,
    {
        if bytes_eq(&keys[m], key) {
            return true;
        }
        m = m + 1;
    }
    false
}

/// The vouchers of the vouches that say `name` owns `key`.
spec fn matching_vouchers(vs: Seq<VouchView>, name: Seq<u8>, key: Seq<u8>) -> Set<Seq<u8>>
    decreases vs.len(),
{
    if vs.len() == 0 {
        Set::empty()
    } else if vs.last().claimed == name && vs.last().key == key {
        matching_vouchers(vs.drop_last(), name, key).insert(vs.last().voucher)
    } else {
        matching_vouchers(vs.drop_last(), name, key)
    }
}

proof fn lemma_matching_vouchers(vs: Seq<VouchView>, name: Seq<u8>, key: Seq<u8>)
    requires
        unique_vouchers(vs),
    ensures
        matching_vouchers(vs, name, key).finite(),
        matching_vouchers(vs, name, key).len() == vouch_count(vs, name, key),
        forall|x: Seq<u8>|
            #[trigger] matching_vouchers(vs, name, key).contains(x) ==> exists|i: int|
                0 <= i < vs.len() && vs[i].claimed == name && vs[i].voucher == x,
    decreases vs.len(),
{
    if vs.len() > 0 {
        let prev = vs.drop_last();
        assert(unique_vouchers(prev)) by {
            assert forall|a: int, b: int|
                0 <= a < prev.len() && 0 <= b < prev.len() && a != b implies !(#[trigger] prev[a].claimed
                == #[trigger] prev[b].claimed && prev[a].voucher == prev[b].voucher) by {
                assert(prev[a] == vs[a] && prev[b] == vs[b]);
            }
        }
        lemma_matching_vouchers(prev, name, key);
        let last = vs.last();
        if last.claimed == name && last.key == key {
            if matching_vouchers(prev, name, key).contains(last.voucher) {
                let i = choose|i: int| 0 <= i < prev.len() && prev[i].claimed == name && prev[i].voucher == last.voucher;
                assert(vs[i] == prev[i]);
                assert(vs[vs.len() - 1] == last);
                assert(false);
            }
        }
        assert forall|x: Seq<u8>| #[trigger] matching_vouchers(vs, name, key).contains(x) implies exists|i: int|
            0 <= i < vs.len() && vs[i].claimed == name && vs[i].voucher == x by {
            if x == last.voucher && last.claimed == name && last.key == key {
                assert(vs[vs.len() - 1] == last);
            } else {
                let i = choose|i: int| 0 <= i < prev.len() && prev[i].claimed == name && prev[i].voucher == x;
                assert(vs[i] == prev[i]);
            }
        }
    }
}

/// When all the vouchers that vouch for any key of `name` lie in a set
/// `vouchers` of fewer than `threshold` peers, no key of `name` is exposed.
pub proof fn lemma_too_few_vouchers(ks: KeyStoreView, name: Seq<u8>, vouchers: Set<Seq<u8>>, key: Seq<u8>)
    requires
        unique_vouchers(ks.vouches),
        vouchers.finite(),
        vouchers.len() < ks.threshold,
        forall|i: int|
            0 <= i < ks.vouches.len() && (#[trigger] ks.vouches[i]).claimed == name ==> vouchers.contains(
                ks.vouches[i].voucher,
            ),
    ensures
        !ks.exposes(name, key),
{
    lemma_matching_vouchers(ks.vouches, name, key);
    let m = matching_vouchers(ks.vouches, name, key);
    assert(m.subset_of(vouchers)) by {
        assert forall|x: Seq<u8>| m.contains(x) implies vouchers.contains(x) by {
            let i = choose|i: int| 0 <= i < ks.vouches.len() && ks.vouches[i].claimed == name && ks.vouches[i].voucher == x;
        }
    }
    vstd::set_lib::lemma_len_subset(m, vouchers);
}

impl KeyStore {
    pub open spec fn wf(&self) -> bool {
        unique_vouchers(self@.vouches)
    }

    /// An empty store that exposes a key once `threshold` distinct vouchers
    /// stand behind it.
    pub fn new(threshold: usize) -> (r: KeyStore)
        ensures
            r.wf(),
            r@.vouches == Seq::<VouchView>::empty(),
            r@.threshold == threshold,
    {
        let r = KeyStore { vouches: Vec::new(), threshold };
        assert(r@.vouches =~= Seq::<VouchView>::empty());
        r
    }

    /// Records that `voucher` vouches that `claimed` owns `key`.
    pub fn add_key(&mut self, claimed: Vec<u8>, voucher: Vec<u8>, key: Vec<u8>)
        requires
            old(self).wf(),
        ensures
            final(self).wf(),
            final(self)@.threshold == old(self)@.threshold,
            final(self)@.vouches == with_vouch(old(self)@.vouches, claimed@, voucher@, key@),
    {
        let ghost vs = self@.vouches;
        let ghost v = VouchView { claimed: claimed@, voucher: voucher@, key: key@ };
        let mut i: usize = 0;
        while i < self.vouches.len()
            invariant
                self@ == old(self)@,
                self.wf(),
                vs == self@.vouches,
                v == (VouchView { claimed: claimed@, voucher: voucher@, key: key@ }),
                0 <= i <= vs.len(),
                forall|j: int|
                    0 <= j < i ==> !(vs[j].claimed == claimed@ && vs[j].voucher == voucher@),
            decreases vs.len() - i,
        {
            assert(vs[i as int] == self.vouches@[i as int]@);
            if bytes_eq(&self.vouches[i].claimed, &claimed) && bytes_eq(
                &self.vouches[i].voucher,
                &voucher,
            ) {
                assert(vs[i as int].claimed == v.claimed && vs[i as int].voucher == v.voucher);
                self.vouches.set(i, Vouch { claimed, voucher, key });
                proof {
                    let w = choose|w: int|
                        0 <= w < vs.len() && vs[w].claimed == v.claimed && vs[w].voucher
                            == v.voucher;
                    assert(w == i as int);
                    assert(self@.vouches =~= vs.update(i as int, v));
                    assert(unique_vouchers(self@.vouches)) by {
                        assert forall|a: int, b: int|
                            0 <= a < self@.vouches.len() && 0 <= b < self@.vouches.len() && a
                                != b implies !(#[trigger] self@.vouches[a].claimed
                            == #[trigger] self@.vouches[b].claimed && self@.vouches[a].voucher
                            == self@.vouches[b].voucher) by {
                            if a != i && b != i {
                                assert(!(vs[a].claimed == vs[b].claimed && vs[a].voucher == vs[b].voucher));
                            }
                            if a == i {
                                assert(!(vs[a].claimed == vs[b].claimed && vs[a].voucher == vs[b].voucher));
                            }
                            if b == i {
                                assert(!(vs[a].claimed == vs[b].claimed && vs[a].voucher == vs[b].voucher));
                            }
                        }
                    }
                }
                return ;
            }
            i = i + 1;
        }
        self.vouches.push(Vouch { claimed, voucher, key });
        proof {
            assert(self@.vouches =~= vs.push(v));
            assert(unique_vouchers(self@.vouches)) by {
                assert forall|a: int, b: int|
                    0 <= a < self@.vouches.len() && 0 <= b < self@.vouches.len() && a != b implies !(
                    #[trigger] self@.vouches[a].claimed == #[trigger] self@.vouches[b].claimed
                        && self@.vouches[a].voucher == self@.vouches[b].voucher) by {
                    if a < vs.len() && b < vs.len() {
                        assert(!(vs[a].claimed == vs[b].claimed && vs[a].voucher == vs[b].voucher));
                    }
                }
            }
        }
    }

    /// How many vouches say that `name` owns `key`.
    fn count_vouches(&self, name: &Vec<u8>, key: &Vec<u8>) -> (r: usize)
        ensures
            r == vouch_count(self@.vouches, name@, key@),
    {
        let ghost vs = self@.vouches;
        let mut c: usize = 0;
        let mut j: usize = 0;
        while j < self.vouches.len()
            invariant
                vs == self@.vouches,
                0 <= j <= vs.len(),
                c == vouch_count(vs.subrange(0, j as int), name@, key@),
            decreases vs.len() - j,
        {
            proof {
                assert(vs.subrange(0, j + 1).drop_last() =~= vs.subrange(0, j as int));
                lemma_count_bound(vs.subrange(0, j as int), name@, key@);
            }
            if bytes_eq(&self.vouches[j].claimed, name) && bytes_eq(&self.vouches[j].key, key) {
                c = c + 1;
            }
            j = j + 1;
        }
        assert(vs.subrange(0, vs.len() as int) =~= vs);
        c
    }

    /// The public keys exposed for `name`: each key that at least
    /// `threshold` distinct vouchers, and at least one, stand behind.
    pub fn get_accumulated_keys(&self, name: &Vec<u8>) -> (r: Vec<Vec<u8>>)
        ensures
            forall|i: int| 0 <= i < r@.len() ==> self@.exposes(name@, #[trigger] r@[i]@),
            forall|i: int, j: int| 0 <= i < j < r@.len() ==> (#[trigger] r@[i])@ != (#[trigger] r@[j])@,
            forall|k: Seq<u8>|
                #[trigger] self@.exposes(name@, k) ==> exists|i: int|
                    0 <= i < r@.len() && r@[i]@ == k,
    {
        let ghost vs = self@.vouches;
        let mut r: Vec<Vec<u8>> = Vec::new();
        let mut i: usize = 0;
        while i < self.vouches.len()
            invariant
                vs == self@.vouches,
                0 <= i <= vs.len(),
                forall|m: int| 0 <= m < r@.len() ==> self@.exposes(name@, #[trigger] r@[m]@),
                forall|a: int, b: int| 0 <= a < b < r@.len() ==> (#[trigger] r@[a])@ != (#[trigger] r@[b])@,
                forall|j: int|
                    0 <= j < i && vs[j].claimed == name@ && self@.exposes(name@, vs[j].key)
                        ==> exists|m: int| 0 <= m < r@.len() && r@[m]@ == #[trigger] vs[j].key,
            decreases vs.len() - i,
        {
            assert(vs[i as int] == self.vouches@[i as int]@);
            let ghost r0 = r@;
            if bytes_eq(&self.vouches[i].claimed, name) {
                let n = self.count_vouches(name, &self.vouches[i].key);
                if n >= self.threshold && n > 0 && !holds_key(&r, &self.vouches[i].key) {
                    let k = copy_bytes(&self.vouches[i].key);
                    r.push(k);
                    assert(r@[r@.len() - 1]@ == vs[i as int].key);
                }
            }
            assert forall|j: int|
                0 <= j < i + 1 && vs[j].claimed == name@ && self@.exposes(name@, vs[j].key)
                    implies exists|m: int| 0 <= m < r@.len() && r@[m]@ == #[trigger] vs[j].key by {
                if j < i {
                    let m = choose|m: int| 0 <= m < r0.len() && r0[m]@ == vs[j].key;
                    assert(r@[m] == r0[m]);
                } else if r@.len() > r0.len() {
                    assert(r@[r@.len() - 1]@ == vs[i as int].key);
                }
            }
            i = i + 1;
        }
        proof {
            assert forall|k: Seq<u8>| #[trigger] self@.exposes(name@, k) implies exists|i: int|
                0 <= i < r@.len() && r@[i]@ == k by {
                lemma_count_witness(vs, name@, k);
                let j = choose|j: int| 0 <= j < vs.len() && vs[j].claimed == name@ && vs[j].key == k;
                assert(vs[j].claimed == name@ && self@.exposes(name@, vs[j].key));
            }
        }
        r
    }
}

} // verus!
