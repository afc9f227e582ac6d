//! The CLOCK-Pro cache proper: the key index, the slot table, the ring of
//! tokens and the three hands, together with the admission and eviction
//! rules.

use vstd::prelude::*;
use vstd::pervasive::VecAdditionalExecFns;
use std::collections::HashMap;
use crate::token_ring::TokenRing;
use crate::token_ring::next_in;
use crate::token_ring::prev_in;
use crate::model::Status;
use crate::model::Node;
use crate::model::Kind;
use crate::model::slot_at;
use crate::model::node_is;
use crate::model::kind_at;
use crate::model::tally;
use crate::model::rank;
use crate::model::phi;
use crate::model::dist;
use crate::model::lemma_count_update;
use crate::model::lemma_count_update_absent;
use crate::model::lemma_count_remove;
use crate::model::lemma_count_insert;
use crate::model::lemma_tally_total;
use crate::model::lemma_tally_witness;
use crate::model::lemma_tally_member;
use crate::model::lemma_phi_positive;
use crate::model::lemma_dist_advance;
use crate::model::lemma_index_of_unique;

verus! {

broadcast use vstd::std_specs::hash::group_hash_axioms;

/// Relies on IndexMut on Vec: mutably borrows the value carried by the
/// occupied, resident slot at `i`. The final vector is the old one with that
/// slot's value as the caller leaves it; the slot's key, kind and reference
/// bit are untouched.
#[verifier::external_body]
fn slot_value_mut<K, V>(v: &mut Vec<Option<Node<K, V>>>, i: usize) -> (r: &mut V)
    requires
        i < old(v)@.len(),
        old(v)@[i as int] is Some,
        !(old(v)@[i as int]->Some_0.status is Test),
    ensures
        *r == (match old(v)@[i as int]->Some_0.status {
            Status::Hot(x) => x,
            Status::Cold(x) => x,
            Status::Test => vstd::pervasive::arbitrary(),
        }),
        final(v)@ == old(v)@.update(
            i as int,
            Option::Some(
                Node {
                    key: old(v)@[i as int]->Some_0.key,
                    status: (match old(v)@[i as int]->Some_0.status {
                        Status::Hot(_) => Status::Hot(*final(r)),
                        Status::Cold(_) => Status::Cold(*final(r)),
                        Status::Test => old(v)@[i as int]->Some_0.status,
                    }),
                    referenced: old(v)@[i as int]->Some_0.referenced,
                },
            ),
        ),
{
    match &mut v[i] {
        Option::Some(nd) => match &mut nd.status {
            Status::Hot(x) => x,
            Status::Cold(x) => x,
            // the two arms below are excluded by the contract
            Status::Test => loop {
            },
        },
        Option::None => loop {
        },
    }
}

/// Swaps the element at `i` for `x` and hands back what was there.
fn vec_replace<T>(v: &mut Vec<T>, i: usize, x: T) -> (r: T)
    requires
        i < old(v)@.len(),
    ensures
        final(v)@ == old(v)@.update(i as int, x),
        r == old(v)@[i as int],
{
    let mut x = x;
    v.set_and_swap(i, &mut x);
    x
}

/// The cache. Keys are `Copy` because both the key index and the slot under
/// the key's token carry the key, and the contracts tie the two copies
/// together; a cloned key of an arbitrary type would carry no verified
/// relation to its original.
pub struct ClockProCache<K, V> {
    capacity: usize,
    test_capacity: usize,
    cold_capacity: usize,
    map: HashMap<K, usize>,
    ring: TokenRing,
    slab: Vec<Option<Node<K, V>>>,
    hand_hot: usize,
    hand_cold: usize,
    hand_test: usize,
    count_hot: usize,
    count_cold: usize,
    count_test: usize,
}

impl<K: Eq + std::hash::Hash + Copy, V> ClockProCache<K, V> {
    /// The ring's tokens in cyclic order.
    pub closed spec fn ord(&self) -> Seq<usize> {
        self.ring.order()
    }

    /// The slot table.
    pub closed spec fn slots(&self) -> Seq<Option<Node<K, V>>> {
        self.slab@
    }

    /// The key index.
    pub closed spec fn index(&self) -> Map<K, usize> {
        self.map@
    }

    pub closed spec fn cap(&self) -> nat {
        self.capacity as nat
    }

    pub closed spec fn test_cap(&self) -> nat {
        self.test_capacity as nat
    }

    /// The adaptive target size of the cold partition.
    pub closed spec fn cold_target(&self) -> nat {
        self.cold_capacity as nat
    }

    pub closed spec fn hot_count(&self) -> nat {
        self.count_hot as nat
    }

    pub closed spec fn cold_count(&self) -> nat {
        self.count_cold as nat
    }

    pub closed spec fn test_count(&self) -> nat {
        self.count_test as nat
    }

    /// The position of the hot hand.
    pub closed spec fn hot_hand(&self) -> usize {
        self.hand_hot
    }

    /// The position of the cold hand.
    pub closed spec fn cold_hand(&self) -> usize {
        self.hand_cold
    }

    /// The position of the test hand.
    pub closed spec fn test_hand(&self) -> usize {
        self.hand_test
    }

    /// The key stored in the slot of token `t`.
    pub open spec fn key_at(&self, t: usize) -> K {
        match slot_at(self.slots(), t) {
            Option::Some(nd) => nd.key,
            Option::None => vstd::pervasive::arbitrary(),
        }
    }

    /// The key `k` is remembered: it has a token, resident or not.
    pub open spec fn is_indexed(&self, k: K) -> bool {
        self.index().contains_key(k)
    }

    /// The key `k` is resident: its slot holds a value, hot or cold.
    pub open spec fn is_resident(&self, k: K) -> bool {
        &&& self.index().contains_key(k)
        &&& (kind_at(self.slots(), self.index()[k], Kind::Hot) || kind_at(
            self.slots(),
            self.index()[k],
            Kind::Cold,
        ))
    }

    /// The key `k` is resident in the hot partition.
    pub open spec fn is_hot(&self, k: K) -> bool {
        &&& self.index().contains_key(k)
        &&& kind_at(self.slots(), self.index()[k], Kind::Hot)
    }

    /// The key `k` is resident and its slot holds exactly the value `v`.
    pub open spec fn resident_value(&self, k: K, v: V) -> bool {
        &&& self.index().contains_key(k)
        &&& match slot_at(self.slots(), self.index()[k]) {
            Option::Some(nd) => match nd.status {
                Status::Hot(x) => x == v,
                Status::Cold(x) => x == v,
                Status::Test => false,
            },
            Option::None => false,
        }
    }

    /// Every key resident in `post` was already resident in `pre` with the
    /// same value: the hand rules never add or change a resident value.
    pub open spec fn residents_weaken(pre: Self, post: Self) -> bool {
        forall|k: K, v: V| post.resident_value(k, v) ==> pre.resident_value(k, v)
    }

    /// The key index of `post` holds no key that `pre` did not hold.
    pub open spec fn index_shrinks(pre: Self, post: Self) -> bool {
        forall|k: K| post.index().contains_key(k) ==> pre.index().contains_key(k)
    }

    /// Structural agreement of ring, slot table and key index.
    pub closed spec fn wf_struct(&self) -> bool {
        &&& self.ring.wf()
        &&& self.ring.cap_spec() == self.capacity + self.test_capacity
        &&& forall|j: int|
            0 <= j < self.ord().len() ==> (#[trigger] self.ord()[j]) < self.slots().len()
        &&& forall|j: int|
            0 <= j < self.ord().len() ==> slot_at(self.slots(), #[trigger] self.ord()[j]) is Some
        &&& forall|j: int|
            0 <= j < self.ord().len() ==> {
                let t = #[trigger] self.ord()[j];
                self.index().contains_key(self.key_at(t)) && self.index()[self.key_at(t)] == t
            }
        &&& forall|k: K|
            #[trigger] self.index().contains_key(k) ==> self.ord().contains(self.index()[k])
                && self.key_at(self.index()[k]) == k
        &&& self.index().dom().finite()
        &&& self.index().dom().len() == self.ord().len()
        &&& self.ord().len() > 0 ==> self.ord().contains(self.hand_hot)
        &&& self.ord().len() > 0 ==> self.ord().contains(self.hand_cold)
        &&& self.ord().len() > 0 ==> self.ord().contains(self.hand_test)
        &&& vstd::std_specs::hash::obeys_key_model::<K>()
    }

    /// The count fields agree with the ring, and respect the bounds.
    pub closed spec fn wf_counts(&self) -> bool {
        &&& self.count_hot == tally(self.ord(), self.slots(), Kind::Hot)
        &&& self.count_cold == tally(self.ord(), self.slots(), Kind::Cold)
        &&& self.count_test == tally(self.ord(), self.slots(), Kind::Test)
        &&& self.count_hot + self.count_cold <= self.capacity
        &&& self.count_test <= self.test_capacity
    }

    /// The configuration bounds.
    pub closed spec fn wf_config(&self) -> bool {
        &&& 3 <= self.capacity
        &&& self.capacity + self.test_capacity < usize::MAX
        &&& 1 <= self.cold_capacity <= self.capacity
    }

    /// The invariant of the cache between public operations.
    pub open spec fn wf(&self) -> bool {
        self.wf_struct() && self.wf_counts() && self.wf_config()
    }

    /// The rebalancing potential of the cache.
    pub closed spec fn phi_m(&self) -> nat {
        phi(self.ord(), self.slots())
    }

    /// The summed cyclic distances of the hands to their next target kinds.
    pub closed spec fn work_m(&self) -> nat {
        if self.ord().len() == 0 {
            0
        } else {
            (if self.ord().contains(self.hand_cold) {
                dist(self.ord(), self.slots(), self.hand_cold, Kind::Cold)
            } else {
                0
            }) + (if self.ord().contains(self.hand_hot) {
                dist(self.ord(), self.slots(), self.hand_hot, Kind::Hot)
            } else {
                0
            }) + (if self.ord().contains(self.hand_test) {
                dist(self.ord(), self.slots(), self.hand_test, Kind::Test)
            } else {
                0
            })
        }
    }

    /// One when the test hand and the cold hand coincide, else zero.
    pub closed spec fn e1(&self) -> nat {
        if self.hand_test == self.hand_cold {
            1
        } else {
            0
        }
    }

    /// The combined progress measure of a hand pass: twice the summed hand
    /// distances plus the test/cold coincidence bit.
    pub closed spec fn step2(&self) -> nat {
        2 * self.work_m() + self.e1()
    }

    /// The invariant with the test bound loosened: while a demotion is being
    /// paid for by the test hand, the count of test entries may sit above its
    /// cap; everything structural still holds.
    pub closed spec fn wf_mid(&self) -> bool {
        &&& self.wf_struct()
        &&& self.wf_config()
        &&& self.count_hot == tally(self.ord(), self.slots(), Kind::Hot)
        &&& self.count_cold == tally(self.ord(), self.slots(), Kind::Cold)
        &&& self.count_test == tally(self.ord(), self.slots(), Kind::Test)
        &&& self.count_hot + self.count_cold <= self.capacity
    }

    pub fn new(capacity: usize) -> (r: Result<Self, &'static str>)
        requires
            capacity + capacity < usize::MAX,
            vstd::std_specs::hash::obeys_key_model::<K>(),
        ensures
            r is Ok <==> capacity >= 3,
            match r {
                Result::Ok(c) => c.wf() && c.index() == Map::<K, usize>::empty() && c.cap()
                    == capacity && c.test_cap() == capacity && c.cold_target() == capacity
                    && c.hot_count() == 0 && c.cold_count() == 0 && c.test_count() == 0,
                Result::Err(_) => capacity < 3,
            },
    {
        Self::new_with_test_capacity(capacity, capacity)
    }

    pub fn new_with_test_capacity(capacity: usize, test_capacity: usize) -> (r: Result<
        Self,
        &'static str,
    >)
        requires
            capacity + test_capacity < usize::MAX,
            vstd::std_specs::hash::obeys_key_model::<K>(),
        ensures
            r is Ok <==> capacity >= 3,
            match r {
                Result::Ok(c) => c.wf() && c.index() == Map::<K, usize>::empty() && c.cap()
                    == capacity && c.test_cap() == test_capacity && c.cold_target() == capacity
                    && c.hot_count() == 0 && c.cold_count() == 0 && c.test_count() == 0,
                Result::Err(_) => capacity < 3,
            },
    {
        if capacity < 3 {
            return Result::Err("Cache size cannot be less than 3 entries");
        }
        let cache = ClockProCache {
            capacity,
            test_capacity,
            cold_capacity: capacity,
            map: HashMap::new(),
            ring: TokenRing::with_capacity(capacity + test_capacity),
            slab: Vec::new(),
            hand_hot: 0,
            hand_cold: 0,
            hand_test: 0,
            count_hot: 0,
            count_cold: 0,
            count_test: 0,
        };
        proof {
            assert(cache.ord().len() == 0);
            assert(cache.index().dom() =~= Set::<K>::empty());
        }
        Result::Ok(cache)
    }

    /// Looks the key up without touching the reference bit.
    pub fn contains_key(&mut self, key: &K) -> (r: bool)
        requires
            old(self).wf(),
        ensures
            *final(self) == *old(self),
            r == old(self).is_resident(*key),
    {
        let token = match self.map.get(key) {
            Option::None => {
                return false;
            },
            Option::Some(t) => *t,
        };
        proof {
            assert(self.index().contains_key(*key) && self.index()[*key] == token);
            assert(self.ord().contains(self.index()[*key]));
            let j = choose|j: int| 0 <= j < self.ord().len() && self.ord()[j] == token;
            assert(token < self.slots().len());
        }
        match &self.slab[token] {
            Option::Some(nd) => !matches!(nd.status, Status::Test),
            Option::None => false,
        }
    }

    /// Looks the key up; a hit pins the slot's reference bit and borrows the
    /// value. A lookup never advances a hand, never evicts, and on a miss
    /// leaves the cache untouched.
    pub fn get(&mut self, key: &K) -> (r: Option<&V>)
        requires
            old(self).wf(),
        ensures
            final(self).wf(),
            r is Some <==> old(self).is_resident(*key),
            match r {
                Option::Some(v) => old(self).resident_value(*key, *v) && final(self).resident_value(
                    *key,
                    *v,
                ),
                Option::None => !old(self).is_resident(*key),
            },
            !old(self).is_resident(*key) ==> *final(self) == *old(self),
            old(self).is_resident(*key) ==> final(self).slots() == old(self).slots().update(
                old(self).index()[*key] as int,
                Option::Some(
                    Node {
                        key: slot_at(old(self).slots(), old(self).index()[*key])->Some_0.key,
                        status: slot_at(old(self).slots(), old(self).index()[*key])->Some_0.status,
                        referenced: true,
                    },
                ),
            ),
            final(self).index() == old(self).index(),
            final(self).ord() == old(self).ord(),
            final(self).hot_hand() == old(self).hot_hand(),
            final(self).cold_hand() == old(self).cold_hand(),
            final(self).test_hand() == old(self).test_hand(),
            final(self).hot_count() == old(self).hot_count(),
            final(self).cold_count() == old(self).cold_count(),
            final(self).test_count() == old(self).test_count(),
            final(self).cold_target() == old(self).cold_target(),
            final(self).cap() == old(self).cap(),
            final(self).test_cap() == old(self).test_cap(),
            forall|k2: K, v2: V|
                final(self).resident_value(k2, v2) == old(self).resident_value(k2, v2),
            old(self).is_resident(*key) ==> match slot_at(
                final(self).slots(),
                final(self).index()[*key],
            ) {
                Option::Some(nd) => nd.referenced,
                Option::None => false,
            },
    {
        let token = match self.map.get(key) {
            Option::None => {
                return Option::None;
            },
            Option::Some(t) => *t,
        };
        proof {
            assert(self.index().contains_key(*key) && self.index()[*key] == token);
            assert(self.ord().contains(token));
            assert(token < self.slots().len());
            assert(slot_at(self.slots(), token) is Some);
        }
        let hit = match &self.slab[token] {
            Option::Some(nd) => !matches!(nd.status, Status::Test),
            Option::None => false,
        };
        if !hit {
            return Option::None;
        }
        let taken = vec_replace(&mut self.slab, token, Option::None);
        let nd = match taken {
            Option::Some(n) => n,
            Option::None => {
                proof {
                    assert(false);
                }
                unreached()
            },
        };
        let refreshed = Node { key: nd.key, status: nd.status, referenced: true };
        let _ = vec_replace(&mut self.slab, token, Option::Some(refreshed));
        proof {
            let pre = old(self).slots();
            let post = self.slots();
            assert(post =~= pre.update(
                token as int,
                Option::Some(
                    Node {
                        key: slot_at(pre, token)->Some_0.key,
                        status: slot_at(pre, token)->Some_0.status,
                        referenced: true,
                    },
                ),
            ));
            self.lemma_refresh_preserves(*old(self), token);
        }
        match &self.slab[token] {
            Option::Some(n) => match &n.status {
                Status::Hot(v) => Option::Some(v),
                Status::Cold(v) => Option::Some(v),
                Status::Test => {
                    proof {
                        assert(false);
                    }
                    unreached()
                },
            },
            Option::None => {
                proof {
                    assert(false);
                }
                unreached()
            },
        }
    }

    /// Looks the key up for writing; a hit pins the slot's reference bit and
    /// mutably borrows the value. As with `get`, no hand moves, nothing is
    /// evicted, and a miss leaves the cache untouched.
    pub fn get_mut(&mut self, key: &K) -> (r: Option<&mut V>)
        requires
            old(self).wf(),
        ensures
            final(self).wf(),
            r is Some <==> old(self).is_resident(*key),
            match r {
                Option::Some(m) => old(self).resident_value(*key, *m) && final(self).resident_value(*key, *final(m)),
                Option::None => *final(self) == *old(self),
            },
            final(self).index() == old(self).index(),
            final(self).ord() == old(self).ord(),
            final(self).hot_hand() == old(self).hot_hand(),
            final(self).cold_hand() == old(self).cold_hand(),
            final(self).test_hand() == old(self).test_hand(),
            final(self).hot_count() == old(self).hot_count(),
            final(self).cold_count() == old(self).cold_count(),
            final(self).test_count() == old(self).test_count(),
            final(self).cold_target() == old(self).cold_target(),
            final(self).cap() == old(self).cap(),
            final(self).test_cap() == old(self).test_cap(),
            old(self).is_resident(*key) ==> match slot_at(
                final(self).slots(),
                final(self).index()[*key],
            ) {
                Option::Some(nd) => nd.referenced,
                Option::None => false,
            },
            forall|k2: K, v2: V|
                k2 != *key ==> (final(self).resident_value(k2, v2) == old(self).resident_value(
                    k2,
                    v2,
                )),
    {
        let token = match self.map.get(key) {
            Option::None => {
                return Option::None;
            },
            Option::Some(t) => *t,
        };
        proof {
            assert(self.index().contains_key(*key) && self.index()[*key] == token);
            assert(self.ord().contains(token));
            assert(token < self.slots().len());
            assert(slot_at(self.slots(), token) is Some);
        }
        let hit = match &self.slab[token] {
            Option::Some(nd) => !matches!(nd.status, Status::Test),
            Option::None => false,
        };
        if !hit {
            return Option::None;
        }
        let taken = vec_replace(&mut self.slab, token, Option::None);
        let nd = match taken {
            Option::Some(n) => n,
            Option::None => {
                proof {
                    assert(false);
                }
                unreached()
            },
        };
        let refreshed = Node { key: nd.key, status: nd.status, referenced: true };
        let _ = vec_replace(&mut self.slab, token, Option::Some(refreshed));
        let ghost mid = *self;
        proof {
            let pre = old(self).slots();
            assert(mid.slots() =~= pre.update(
                token as int,
                Option::Some(
                    Node {
                        key: slot_at(pre, token)->Some_0.key,
                        status: slot_at(pre, token)->Some_0.status,
                        referenced: true,
                    },
                ),
            ));
            mid.lemma_refresh_preserves(*old(self), token);
        }
        proof {
            let k0 = slot_at(mid.slots(), token)->Some_0.key;
            assert(k0 == *key);
            assert forall|v2: Vec<Option<Node<K, V>>>|
                ({
                    &&& (#[trigger] v2@).len() == mid.slots().len()
                    &&& v2@[token as int] is Some
                    &&& v2@[token as int]->Some_0.key == k0
                    &&& v2@[token as int]->Some_0.referenced
                    &&& node_is(v2@[token as int], Kind::Hot) == node_is(
                        slot_at(mid.slots(), token),
                        Kind::Hot,
                    )
                    &&& node_is(v2@[token as int], Kind::Cold) == node_is(
                        slot_at(mid.slots(), token),
                        Kind::Cold,
                    )
                    &&& forall|u: int| 0 <= u < v2@.len() && u != token ==> v2@[u] == mid.slots()[u]
                }) implies ({
                    let post = Self { slab: v2, ..mid };
                    &&& post.wf()
                    &&& (forall|k2: K, v3: V|
                        k2 != *key ==> (post.resident_value(k2, v3) == mid.resident_value(k2, v3)))
                    &&& (match v2@[token as int]->Some_0.status {
                        Status::Hot(x) => post.resident_value(*key, x),
                        Status::Cold(x) => post.resident_value(*key, x),
                        Status::Test => false,
                    })
                }) by {
                let post = Self { slab: v2, ..mid };
                assert(post.slots() == v2@);
                assert(post.slots() =~= mid.slots().update(token as int, v2@[token as int]));
                post.lemma_overwrite(mid, token, *key);
                assert(post.index()[*key] == token);
                assert(slot_at(post.slots(), token) == v2@[token as int]);
            }
            assert(slot_at(mid.slots(), token) is Some);
            assert(!(slot_at(mid.slots(), token)->Some_0.status is Test));
            assert(slot_at(mid.slots(), token)->Some_0.referenced);
        }
        let r = slot_value_mut(&mut self.slab, token);
        Option::Some(r)
    }

    /// Setting the reference bit of one occupied slot preserves the whole
    /// invariant and every observation except that bit.
    proof fn lemma_refresh_preserves(&self, pre: Self, token: usize)
        requires
            pre.wf(),
            pre.ord().contains(token),
            token < pre.slots().len(),
            slot_at(pre.slots(), token) is Some,
            self.ord() == pre.ord(),
            self.index() == pre.index(),
            self.count_hot == pre.count_hot,
            self.count_cold == pre.count_cold,
            self.count_test == pre.count_test,
            self.cold_capacity == pre.cold_capacity,
            self.capacity == pre.capacity,
            self.test_capacity == pre.test_capacity,
            self.ring == pre.ring,
            self.hand_hot == pre.hand_hot,
            self.hand_cold == pre.hand_cold,
            self.hand_test == pre.hand_test,
            self.slots() == pre.slots().update(
                token as int,
                Option::Some(
                    Node {
                        key: slot_at(pre.slots(), token)->Some_0.key,
                        status: slot_at(pre.slots(), token)->Some_0.status,
                        referenced: true,
                    },
                ),
            ),
        ensures
            self.wf(),
            forall|k2: K, v2: V| self.resident_value(k2, v2) == pre.resident_value(k2, v2),
    {
        let x = Option::Some(
            Node {
                key: slot_at(pre.slots(), token)->Some_0.key,
                status: slot_at(pre.slots(), token)->Some_0.status,
                referenced: true,
            },
        );
        pre.ring.lemma_wf_order();
        lemma_count_update(pre.ord(), pre.slots(), token, x, Kind::Hot);
        lemma_count_update(pre.ord(), pre.slots(), token, x, Kind::Cold);
        lemma_count_update(pre.ord(), pre.slots(), token, x, Kind::Test);
        assert(forall|u: usize|
            u != token ==> slot_at(self.slots(), u) == slot_at(pre.slots(), u));
        assert(self.key_at(token) == pre.key_at(token));
        assert forall|j: int| 0 <= j < self.ord().len() implies {
            let t = #[trigger] self.ord()[j];
            self.index().contains_key(self.key_at(t)) && self.index()[self.key_at(t)] == t
        } by {
            let t = self.ord()[j];
            if t != token {
                assert(self.key_at(t) == pre.key_at(t));
            }
        }
        assert forall|k2: K, v2: V| self.resident_value(k2, v2) == pre.resident_value(
            k2,
            v2,
        ) by {
            if pre.index().contains_key(k2) {
                let t = pre.index()[k2];
                if t != token {
                    assert(slot_at(self.slots(), t) == slot_at(pre.slots(), t));
                }
            }
        }
    }

    /// Scrubs a slot, removes its key from the index, steps any hand off the
    /// token, and removes the token from the ring.
    fn meta_del(&mut self, token: usize)
        requires
            old(self).wf_struct(),
            old(self).wf_config(),
            old(self).ord().contains(token),
        ensures
            final(self).wf_struct(),
            final(self).wf_config(),
            final(self).ord() == old(self).ord().remove(old(self).ord().index_of(token)),
            forall|u: usize| #[trigger] final(self).ord().contains(u)
                <==> (old(self).ord().contains(u) && u != token),
            final(self).slots() == old(self).slots().update(token as int, Option::<Node<K, V>>::None),
            final(self).index() == old(self).index().remove(old(self).key_at(token)),
            final(self).hot_count() == old(self).hot_count(),
            final(self).cold_count() == old(self).cold_count(),
            final(self).test_count() == old(self).test_count(),
            final(self).cold_target() == old(self).cold_target(),
            final(self).cap() == old(self).cap(),
            final(self).test_cap() == old(self).test_cap(),
            tally(final(self).ord(), final(self).slots(), Kind::Hot) + (if kind_at(
                old(self).slots(),
                token,
                Kind::Hot,
            ) {
                1nat
            } else {
                0nat
            }) == tally(old(self).ord(), old(self).slots(), Kind::Hot),
            tally(final(self).ord(), final(self).slots(), Kind::Cold) + (if kind_at(
                old(self).slots(),
                token,
                Kind::Cold,
            ) {
                1nat
            } else {
                0nat
            }) == tally(old(self).ord(), old(self).slots(), Kind::Cold),
            tally(final(self).ord(), final(self).slots(), Kind::Test) + (if kind_at(
                old(self).slots(),
                token,
                Kind::Test,
            ) {
                1nat
            } else {
                0nat
            }) == tally(old(self).ord(), old(self).slots(), Kind::Test),
            final(self).phi_m() + rank(slot_at(old(self).slots(), token)) == old(self).phi_m(),
            final(self).hand_hot == (if old(self).hand_hot == token {
                prev_in(old(self).ord(), token)
            } else {
                old(self).hand_hot
            }),
            final(self).hand_cold == (if old(self).hand_cold == token {
                prev_in(old(self).ord(), token)
            } else {
                old(self).hand_cold
            }),
            final(self).hand_test == (if old(self).hand_test == token {
                prev_in(old(self).ord(), token)
            } else {
                old(self).hand_test
            }),
            Self::index_shrinks(*old(self), *final(self)),
            Self::residents_weaken(*old(self), *final(self)),
    {
        let ghost pre = *self;
        proof {
            self.ring.lemma_wf_order();
            assert(self.ord().contains(token));
            let j = choose|j: int| 0 <= j < self.ord().len() && self.ord()[j] == token;
            assert(token < self.slots().len());
            assert(slot_at(self.slots(), token) is Some);
        }
        let key = match &self.slab[token] {
            Option::Some(nd) => nd.key,
            Option::None => {
                proof {
                    assert(false);
                }
                unreached()
            },
        };
        self.map.remove(&key);
        let _ = vec_replace(&mut self.slab, token, Option::None);
        if token == self.hand_hot {
            self.hand_hot = self.ring.prev_for_token(self.hand_hot);
        }
        if token == self.hand_cold {
            self.hand_cold = self.ring.prev_for_token(self.hand_cold);
        }
        if token == self.hand_test {
            self.hand_test = self.ring.prev_for_token(self.hand_test);
        }
        self.ring.remove(token);
        proof {
            let ord = pre.ord();
            let slots = pre.slots();
            let i = ord.index_of(token);
            lemma_index_of_unique(ord, token, choose|j: int| 0 <= j < ord.len() && ord[j] == token);
            assert(ord[i] == token);
            let slots2 = slots.update(token as int, Option::<Node<K, V>>::None);
            assert(self.slots() =~= slots2);
            let ord2 = self.ord();
            assert(ord2 == ord.remove(i));
            // counting
            lemma_count_update(ord, slots, token, Option::None, Kind::Hot);
            lemma_count_update(ord, slots, token, Option::None, Kind::Cold);
            lemma_count_update(ord, slots, token, Option::None, Kind::Test);
            lemma_count_remove(ord, slots2, i, Kind::Hot);
            lemma_count_remove(ord, slots2, i, Kind::Cold);
            lemma_count_remove(ord, slots2, i, Kind::Test);
            assert(slot_at(slots2, token) is None);
            assert(pre.index().contains_key(pre.key_at(token)) && pre.index()[pre.key_at(token)]
                == token);
            assert(key == pre.key_at(token));
            assert(self.index() =~= pre.index().remove(key));
            // the index and slots of other tokens are untouched
            assert forall|u: usize| #[trigger] ord2.contains(u) implies u != token
                && slot_at(slots2, u) == slot_at(slots, u) by {}
            // bijection, ring to index
            assert forall|j: int| 0 <= j < ord2.len() implies {
                let t2 = #[trigger] ord2[j];
                self.index().contains_key(self.key_at(t2)) && self.index()[self.key_at(t2)] == t2
            } by {
                let t2 = ord2[j];
                assert(ord2.contains(t2));
                assert(ord.contains(t2) && t2 != token);
                assert(self.key_at(t2) == pre.key_at(t2));
                assert(pre.index()[pre.key_at(t2)] == t2);
                if pre.key_at(t2) == key {
                    assert(pre.index()[key] == token);
                    assert(false);
                }
            }
            // bijection, index to ring
            assert forall|k2: K| #[trigger] self.index().contains_key(k2) implies
                ord2.contains(self.index()[k2]) && self.key_at(self.index()[k2]) == k2 by {
                assert(k2 != key);
                assert(pre.index().contains_key(k2));
                let t2 = pre.index()[k2];
                assert(ord.contains(t2) && pre.key_at(t2) == k2);
                if t2 == token {
                    assert(pre.key_at(token) == key);
                }
                assert(ord2.contains(t2));
                assert(self.key_at(t2) == pre.key_at(t2));
            }
            // cardinality of the index
            assert(self.index().dom() =~= pre.index().dom().remove(key));
            // hands stay on the ring
            if ord2.len() > 0 {
                let p: int = if i == 0 {
                    ord.len() - 1
                } else {
                    i - 1
                };
                assert(prev_in(ord, token) == ord[p]);
                assert(p != i);
                assert(ord[p] != token);
                assert(ord2.contains(ord[p]));
                assert forall|h: usize| pre.ord().contains(h) && h != token implies
                    #[trigger] ord2.contains(h) by {}
            }
            assert(final(self).wf_struct());
        }
    }

    /// What every hand routine guarantees: the relaxed invariant again, no new
    /// residents, no new keys, no growth of the resident total, a test count
    /// at most what it was or within its cap, and a potential that never
    /// rises.
    pub closed spec fn hand_post(pre: Self, post: Self) -> bool {
        &&& post.wf_mid()
        &&& post.capacity == pre.capacity
        &&& post.test_capacity == pre.test_capacity
        &&& (post.count_test <= pre.count_test || post.count_test <= post.test_capacity)
        &&& post.count_hot + post.count_cold <= pre.count_hot + pre.count_cold
        &&& Self::residents_weaken(pre, post)
        &&& Self::index_shrinks(pre, post)
        &&& post.phi_m() <= pre.phi_m()
    }


    /// Stepping the test hand forward off a slot that is not a test entry
    /// never lengthens the total hand work, and shortens it strictly when a
    /// test entry exists somewhere on the ring.
    proof fn lemma_test_advance_work(m: Self, post: Self)
        requires
            m.wf_mid(),
            m.ord().len() > 0,
            post.ord() == m.ord(),
            post.slots() == m.slots(),
            post.hand_cold == m.hand_cold,
            post.hand_hot == m.hand_hot,
            post.hand_test == next_in(m.ord(), m.hand_test),
            !kind_at(m.slots(), m.hand_test, Kind::Test),
        ensures
            post.work_m() <= m.work_m(),
            tally(m.ord(), m.slots(), Kind::Test) > 0 ==> post.work_m() < m.work_m(),
    {
        m.ring.lemma_wf_order();
        assert(m.ord().contains(m.hand_test));
        crate::model::lemma_dist_step(m.ord(), m.slots(), m.hand_test, Kind::Test);
        let i = m.ord().index_of(m.hand_test);
        assert(m.ord()[i] == m.hand_test);
        let i2: int = if i == m.ord().len() - 1 {
            0
        } else {
            i + 1
        };
        assert(post.hand_test == m.ord()[i2]);
        assert(m.ord().contains(post.hand_test));
        if tally(m.ord(), m.slots(), Kind::Test) > 0 {
            lemma_tally_witness(m.ord(), m.slots(), Kind::Test);
            lemma_dist_advance(m.ord(), m.slots(), m.hand_test, Kind::Test);
        }
    }

    /// The test hand: when it overlaps the cold hand it lets that hand act
    /// first; then it retires the slot under it if that slot is a test entry,
    /// shrinking the adaptive cold target, and steps forward.
    #[verifier::rlimit(100)]
    fn run_hand_test(&mut self)
        requires
            old(self).wf_mid(),
            old(self).ord().len() > 0,
        ensures
            Self::hand_post(*old(self), *final(self)),
            final(self).phi_m() == old(self).phi_m() ==> {
                &&& final(self).ord() == old(self).ord()
                &&& final(self).slots() == old(self).slots()
                &&& final(self).index() == old(self).index()
                &&& final(self).hot_count() == old(self).hot_count()
                &&& final(self).cold_count() == old(self).cold_count()
                &&& final(self).test_count() == old(self).test_count()
                &&& final(self).cold_target() == old(self).cold_target()
                &&& final(self).work_m() <= old(self).work_m()
                &&& (old(self).test_count() > 0 ==> final(self).work_m() < old(self).work_m())
            },
            ({
                let ht = old(self).test_hand();
                ht != old(self).cold_hand() && !kind_at(old(self).slots(), ht, Kind::Test) ==> {
                    &&& final(self).slots() == old(self).slots()
                    &&& final(self).index() == old(self).index()
                    &&& final(self).ord() == old(self).ord()
                    &&& final(self).hot_count() == old(self).hot_count()
                    &&& final(self).cold_count() == old(self).cold_count()
                    &&& final(self).test_count() == old(self).test_count()
                    &&& final(self).cold_target() == old(self).cold_target()
                    &&& final(self).cold_hand() == old(self).cold_hand()
                    &&& final(self).hot_hand() == old(self).hot_hand()
                    &&& final(self).test_hand() == next_in(old(self).ord(), ht)
                }
            }),
            ({
                let ht = old(self).test_hand();
                ht != old(self).cold_hand() && kind_at(old(self).slots(), ht, Kind::Test) ==> {
                    &&& final(self).index() == old(self).index().remove(old(self).key_at(ht))
                    &&& final(self).ord().len() + 1 == old(self).ord().len()
                    &&& final(self).hot_count() == old(self).hot_count()
                    &&& final(self).cold_count() == old(self).cold_count()
                    &&& final(self).test_count() + 1 == old(self).test_count()
                    &&& final(self).cold_target() == (if old(self).cold_target() > 1 {
                        (old(self).cold_target() - 1) as nat
                    } else {
                        old(self).cold_target()
                    })
                }
            }),
        decreases self.phi_m(), self.step2(), 1int,
    {
        let ghost pre = *self;
        if self.hand_test == self.hand_cold && (self.count_cold >= 1 || self.ring.len() >= 2) {
            // A one-slot ring with nothing cold cannot usefully defer to the
            // cold hand: that hand would only step in place.
            self.run_hand_cold();
        }
        let ghost m = *self;
        if self.ring.len() == 0 {
            proof {
                assert(pre.slots()[pre.ord().last() as int] is Some);
                lemma_phi_positive(pre.ord(), pre.slots());
                assert(m.phi_m() == 0);
            }
            return;
        }
        proof {
            assert(m.ord().contains(m.hand_test));
            assert(m.hand_test < m.slots().len());
            assert(slot_at(m.slots(), m.hand_test) is Some);
            m.ring.lemma_wf_order();
        }
        let ht = self.hand_test;
        let is_test = match &self.slab[ht] {
            Option::Some(nd) => matches!(nd.status, Status::Test),
            Option::None => false,
        };
        if is_test {
            self.retire_under_test_hand();
        }
        if self.ring.len() > 0 {
            self.hand_test = self.ring.next_for_token(self.hand_test);
        } else {
            self.hand_test = 0;
        }
        proof {
            assert(final(self).wf_mid());
            if self.phi_m() == pre.phi_m() {
                assert(m.phi_m() == pre.phi_m());
                assert(!is_test);
                Self::lemma_test_advance_work(m, *self);
                if pre.count_test > 0 {
                    assert(m.count_test == pre.count_test);
                    assert(self.work_m() < m.work_m());
                }
            }
        }
    }


    /// Retires the test entry under the test hand: the slot is scrubbed, the
    /// key forgotten, the hand stepped back onto the predecessor, and the
    /// adaptive cold target shrunk, since a test entry that was never touched
    /// again says the cold probation ran too long.
    #[verifier::rlimit(100)]
    fn retire_under_test_hand(&mut self)
        requires
            old(self).wf_mid(),
            old(self).ord().len() > 0,
            kind_at(old(self).slots(), old(self).hand_test, Kind::Test),
        ensures
            final(self).wf_mid(),
            final(self).phi_m() + 1 == old(self).phi_m(),
            final(self).capacity == old(self).capacity,
            final(self).test_capacity == old(self).test_capacity,
            final(self).count_hot == old(self).count_hot,
            final(self).count_cold == old(self).count_cold,
            final(self).count_test + 1 == old(self).count_test,
            final(self).cold_target() == (if old(self).cold_target() > 1 {
                (old(self).cold_target() - 1) as nat
            } else {
                old(self).cold_target()
            }),
            final(self).index() == old(self).index().remove(
                old(self).key_at(old(self).test_hand()),
            ),
            final(self).ord().len() + 1 == old(self).ord().len(),
            Self::residents_weaken(*old(self), *final(self)),
            Self::index_shrinks(*old(self), *final(self)),
    {
        let ghost m = *self;
        proof {
            assert(m.ord().contains(m.hand_test));
            m.ring.lemma_wf_order();
            lemma_tally_member(m.ord(), m.slots(), m.hand_test, Kind::Test);
        }
        let ht = self.hand_test;
        let prev = self.ring.prev_for_token(ht);
        self.meta_del(ht);
        self.hand_test = prev;
        self.count_test = self.count_test - 1;
        if self.cold_capacity > 1 {
            self.cold_capacity = self.cold_capacity - 1;
        }
        proof {
            assert(self.wf_mid()) by {
                if self.ord().len() > 0 {
                    let i = m.ord().index_of(ht);
                    lemma_index_of_unique(
                        m.ord(),
                        ht,
                        choose|j: int| 0 <= j < m.ord().len() && m.ord()[j] == ht,
                    );
                    let p: int = if i == 0 {
                        m.ord().len() - 1
                    } else {
                        i - 1
                    };
                    assert(prev == m.ord()[p]);
                    assert(p != i);
                    assert(prev != ht);
                    assert(self.ord().contains(prev));
                }
            }
            assert(self.phi_m() + 1 == m.phi_m());
        }
    }

    /// The hot hand: when it overlaps the test hand it lets that hand act
    /// first; then it spares a referenced hot slot one more lap, or demotes an
    /// unreferenced one to cold, and steps forward.
    #[verifier::rlimit(100)]
    fn run_hand_hot(&mut self)
        requires
            old(self).wf_mid(),
            old(self).ord().len() > 0,
            old(self).hot_count() + old(self).cold_target() > old(self).cap(),
        ensures
            Self::hand_post(*old(self), *final(self)),
            final(self).phi_m() == old(self).phi_m() ==> {
                &&& final(self).ord() == old(self).ord()
                &&& final(self).slots() == old(self).slots()
                &&& final(self).index() == old(self).index()
                &&& final(self).hot_count() == old(self).hot_count()
                &&& final(self).cold_count() == old(self).cold_count()
                &&& final(self).test_count() == old(self).test_count()
                &&& final(self).cold_target() == old(self).cold_target()
                &&& final(self).work_m() < old(self).work_m()
            },
            ({
                let hh = old(self).hot_hand();
                hh != old(self).test_hand() && !kind_at(old(self).slots(), hh, Kind::Hot) ==> {
                    &&& final(self).slots() == old(self).slots()
                    &&& final(self).index() == old(self).index()
                    &&& final(self).ord() == old(self).ord()
                    &&& final(self).hot_count() == old(self).hot_count()
                    &&& final(self).cold_count() == old(self).cold_count()
                    &&& final(self).test_count() == old(self).test_count()
                    &&& final(self).cold_target() == old(self).cold_target()
                    &&& final(self).cold_hand() == old(self).cold_hand()
                    &&& final(self).test_hand() == old(self).test_hand()
                    &&& final(self).hot_hand() == next_in(old(self).ord(), hh)
                }
            }),
            ({
                let hh = old(self).hot_hand();
                let nd = slot_at(old(self).slots(), hh);
                hh != old(self).test_hand() && kind_at(old(self).slots(), hh, Kind::Hot)
                    && nd->Some_0.referenced ==> {
                    &&& final(self).slots() == old(self).slots().update(
                        hh as int,
                        Option::Some(
                            Node {
                                key: nd->Some_0.key,
                                status: Status::Hot(nd->Some_0.status->Hot_0),
                                referenced: false,
                            },
                        ),
                    )
                    &&& final(self).index() == old(self).index()
                    &&& final(self).ord() == old(self).ord()
                    &&& final(self).hot_count() == old(self).hot_count()
                    &&& final(self).cold_count() == old(self).cold_count()
                    &&& final(self).test_count() == old(self).test_count()
                    &&& final(self).cold_target() == old(self).cold_target()
                    &&& final(self).cold_hand() == old(self).cold_hand()
                    &&& final(self).test_hand() == old(self).test_hand()
                    &&& final(self).hot_hand() == next_in(old(self).ord(), hh)
                }
            }),
            ({
                let hh = old(self).hot_hand();
                let nd = slot_at(old(self).slots(), hh);
                hh != old(self).test_hand() && kind_at(old(self).slots(), hh, Kind::Hot)
                    && !nd->Some_0.referenced ==> {
                    &&& final(self).slots() == old(self).slots().update(
                        hh as int,
                        Option::Some(
                            Node {
                                key: nd->Some_0.key,
                                status: Status::Cold(nd->Some_0.status->Hot_0),
                                referenced: false,
                            },
                        ),
                    )
                    &&& final(self).index() == old(self).index()
                    &&& final(self).ord() == old(self).ord()
                    &&& final(self).hot_count() + 1 == old(self).hot_count()
                    &&& final(self).cold_count() == old(self).cold_count() + 1
                    &&& final(self).test_count() == old(self).test_count()
                    &&& final(self).cold_target() == old(self).cold_target()
                    &&& final(self).cold_hand() == old(self).cold_hand()
                    &&& final(self).test_hand() == old(self).test_hand()
                    &&& final(self).hot_hand() == next_in(old(self).ord(), hh)
                }
            }),
        decreases self.phi_m(), self.step2(), 2int,
    {
        let ghost pre = *self;
        if self.hand_hot == self.hand_test {
            self.run_hand_test();
        }
        let ghost m = *self;
        if self.ring.len() == 0 {
            proof {
                assert(pre.slots()[pre.ord().last() as int] is Some);
                lemma_phi_positive(pre.ord(), pre.slots());
            }
            return;
        }
        proof {
            assert(m.ord().contains(m.hand_hot));
            assert(m.hand_hot < m.slots().len());
            assert(slot_at(m.slots(), m.hand_hot) is Some);
            m.ring.lemma_wf_order();
        }
        let hh = self.hand_hot;
        let taken = vec_replace(&mut self.slab, hh, Option::None);
        let ghost taken_g = taken;
        let acted: bool;
        match taken {
            Option::Some(nd) => {
                match nd.status {
                    Status::Hot(v) => {
                        if nd.referenced {
                            let _ = vec_replace(
                                &mut self.slab,
                                hh,
                                Option::Some(
                                    Node { key: nd.key, status: Status::Hot(v), referenced: false },
                                ),
                            );
                            acted = true;
                        } else {
                            let _ = vec_replace(
                                &mut self.slab,
                                hh,
                                Option::Some(
                                    Node { key: nd.key, status: Status::Cold(v), referenced: false },
                                ),
                            );
                            proof {
                                lemma_tally_member(m.ord(), m.slots(), hh, Kind::Hot);
                            }
                            self.count_hot = self.count_hot - 1;
                            self.count_cold = self.count_cold + 1;
                            acted = true;
                        }
                    },
                    Status::Cold(v) => {
                        let _ = vec_replace(
                            &mut self.slab,
                            hh,
                            Option::Some(
                                Node { key: nd.key, status: Status::Cold(v), referenced: nd.referenced },
                            ),
                        );
                        acted = false;
                    },
                    Status::Test => {
                        let _ = vec_replace(
                            &mut self.slab,
                            hh,
                            Option::Some(
                                Node { key: nd.key, status: Status::Test, referenced: nd.referenced },
                            ),
                        );
                        acted = false;
                    },
                }
            },
            Option::None => {
                proof {
                    assert(false);
                }
                acted = false;
            },
        }
        let ghost m2 = *self;
        proof {
            let x = slot_at(m2.slots(), hh);
            assert(m2.slots() =~= m.slots().update(hh as int, x));
            lemma_count_update(m.ord(), m.slots(), hh, x, Kind::Hot);
            lemma_count_update(m.ord(), m.slots(), hh, x, Kind::Cold);
            lemma_count_update(m.ord(), m.slots(), hh, x, Kind::Test);
            if !acted {
                assert(m2.slots() =~= m.slots());
            }
            assert(m2.wf_mid()) by {
                assert forall|j: int| 0 <= j < m2.ord().len() implies {
                    let t = #[trigger] m2.ord()[j];
                    m2.index().contains_key(m2.key_at(t)) && m2.index()[m2.key_at(t)] == t
                } by {
                    let t = m2.ord()[j];
                    if t != hh {
                        assert(slot_at(m2.slots(), t) == slot_at(m.slots(), t));
                    }
                }
                assert forall|k2: K| #[trigger] m2.index().contains_key(k2) implies
                    m2.ord().contains(m2.index()[k2]) && m2.key_at(m2.index()[k2]) == k2 by {
                    let t = m2.index()[k2];
                    if t != hh {
                        assert(slot_at(m2.slots(), t) == slot_at(m.slots(), t));
                    }
                }
            }
            assert(Self::residents_weaken(m, m2)) by {
                assert forall|k2: K, v2: V| m2.resident_value(k2, v2) implies m.resident_value(
                    k2,
                    v2,
                ) by {
                    let t = m2.index()[k2];
                    if t != hh {
                        assert(slot_at(m2.slots(), t) == slot_at(m.slots(), t));
                    }
                }
            }
        }
        if self.ring.len() > 0 {
            self.hand_hot = self.ring.next_for_token(self.hand_hot);
        } else {
            self.hand_hot = 0;
        }
        proof {
            assert(final(self).wf_mid());
            if self.phi_m() == pre.phi_m() {
                assert(m.phi_m() == pre.phi_m());
                assert(!acted);
                assert(!(node_is(taken_g, Kind::Hot)));
                assert(m2.slots() =~= m.slots());
                assert(self.ord() == m.ord() && self.slots() == m.slots());
                m.ring.lemma_wf_order();
                crate::model::lemma_dist_step(m.ord(), m.slots(), hh, Kind::Hot);
                assert(m.count_hot == pre.count_hot);
                assert(m.count_hot > 0);
                lemma_tally_witness(m.ord(), m.slots(), Kind::Hot);
                lemma_dist_advance(m.ord(), m.slots(), hh, Kind::Hot);
                assert(self.work_m() < m.work_m());
                assert(m.work_m() <= pre.work_m());
            }
        }
    }

    /// The cold hand: it promotes a referenced cold slot to hot, or demotes an
    /// unreferenced one to a test entry and lets the test hand trim the test
    /// partition back under its cap; then it steps forward and rebalances the
    /// hot partition down to the adaptive target.
    #[verifier::rlimit(100)]
    fn run_hand_cold(&mut self)
        requires
            old(self).wf_mid(),
            old(self).ord().len() > 0,
            old(self).cold_count() >= 1 || (old(self).hand_test == old(self).hand_cold && old(self).ord().len() >= 2),
        ensures
            Self::hand_post(*old(self), *final(self)),
            final(self).test_count() <= old(self).test_count() || final(self).test_count()
                <= final(self).test_cap(),
            final(self).hot_count() + final(self).cold_target() <= final(self).cap(),
            final(self).phi_m() == old(self).phi_m() ==> {
                &&& final(self).ord() == old(self).ord()
                &&& final(self).slots() == old(self).slots()
                &&& final(self).index() == old(self).index()
                &&& final(self).hot_count() == old(self).hot_count()
                &&& final(self).cold_count() == old(self).cold_count()
                &&& final(self).test_count() == old(self).test_count()
                &&& final(self).cold_target() == old(self).cold_target()
                &&& final(self).work_m() <= old(self).work_m()
                &&& final(self).step2() < old(self).step2()
            },
            ({
                let hc = old(self).cold_hand();
                !kind_at(old(self).slots(), hc, Kind::Cold) && old(self).hot_count() + old(
                    self,
                ).cold_target() <= old(self).cap() ==> {
                    &&& final(self).slots() == old(self).slots()
                    &&& final(self).index() == old(self).index()
                    &&& final(self).ord() == old(self).ord()
                    &&& final(self).hot_count() == old(self).hot_count()
                    &&& final(self).cold_count() == old(self).cold_count()
                    &&& final(self).test_count() == old(self).test_count()
                    &&& final(self).cold_target() == old(self).cold_target()
                    &&& final(self).hot_hand() == old(self).hot_hand()
                    &&& final(self).test_hand() == old(self).test_hand()
                    &&& final(self).cold_hand() == next_in(old(self).ord(), hc)
                }
            }),
            ({
                let hc = old(self).cold_hand();
                let nd = slot_at(old(self).slots(), hc);
                kind_at(old(self).slots(), hc, Kind::Cold) && nd->Some_0.referenced && old(
                    self,
                ).hot_count() + 1 + old(self).cold_target() <= old(self).cap() ==> {
                    &&& final(self).slots() == old(self).slots().update(
                        hc as int,
                        Option::Some(
                            Node {
                                key: nd->Some_0.key,
                                status: Status::Hot(nd->Some_0.status->Cold_0),
                                referenced: false,
                            },
                        ),
                    )
                    &&& final(self).index() == old(self).index()
                    &&& final(self).ord() == old(self).ord()
                    &&& final(self).hot_count() == old(self).hot_count() + 1
                    &&& final(self).cold_count() + 1 == old(self).cold_count()
                    &&& final(self).test_count() == old(self).test_count()
                    &&& final(self).cold_target() == old(self).cold_target()
                    &&& final(self).hot_hand() == old(self).hot_hand()
                    &&& final(self).test_hand() == old(self).test_hand()
                    &&& final(self).cold_hand() == next_in(old(self).ord(), hc)
                }
            }),
            ({
                let hc = old(self).cold_hand();
                let nd = slot_at(old(self).slots(), hc);
                kind_at(old(self).slots(), hc, Kind::Cold) && !nd->Some_0.referenced && old(
                    self,
                ).test_count() < old(self).test_cap() && old(self).hot_count() + old(
                    self,
                ).cold_target() <= old(self).cap() ==> {
                    &&& final(self).slots() == old(self).slots().update(
                        hc as int,
                        Option::Some(
                            Node { key: nd->Some_0.key, status: Status::Test, referenced: false },
                        ),
                    )
                    &&& final(self).index() == old(self).index()
                    &&& final(self).ord() == old(self).ord()
                    &&& final(self).hot_count() == old(self).hot_count()
                    &&& final(self).cold_count() + 1 == old(self).cold_count()
                    &&& final(self).test_count() == old(self).test_count() + 1
                    &&& final(self).cold_target() == old(self).cold_target()
                    &&& final(self).hot_hand() == old(self).hot_hand()
                    &&& final(self).test_hand() == old(self).test_hand()
                    &&& final(self).cold_hand() == next_in(old(self).ord(), hc)
                }
            }),
        decreases self.phi_m(), self.step2(), 0int,
    {
        let ghost pre = *self;
        proof {
            assert(pre.ord().contains(pre.hand_cold));
            assert(pre.hand_cold < pre.slots().len());
            assert(slot_at(pre.slots(), pre.hand_cold) is Some);
            pre.ring.lemma_wf_order();
        }
        let hc = self.hand_cold;
        let taken = vec_replace(&mut self.slab, hc, Option::None);
        let mut demoted = false;
        let mut acted = false;
        match taken {
            Option::Some(nd) => {
                match nd.status {
                    Status::Cold(v) => {
                        if nd.referenced {
                            let _ = vec_replace(
                                &mut self.slab,
                                hc,
                                Option::Some(
                                    Node { key: nd.key, status: Status::Hot(v), referenced: false },
                                ),
                            );
                            proof {
                                lemma_tally_member(pre.ord(), pre.slots(), hc, Kind::Cold);
                            }
                            self.count_cold = self.count_cold - 1;
                            self.count_hot = self.count_hot + 1;
                            acted = true;
                        } else {
                            let _ = vec_replace(
                                &mut self.slab,
                                hc,
                                Option::Some(
                                    Node { key: nd.key, status: Status::Test, referenced: false },
                                ),
                            );
                            proof {
                                lemma_tally_member(pre.ord(), pre.slots(), hc, Kind::Cold);
                                lemma_tally_total(pre.ord(), pre.slots());
                            }
                            self.count_cold = self.count_cold - 1;
                            self.count_test = self.count_test + 1;
                            demoted = true;
                            acted = true;
                        }
                    },
                    Status::Hot(v) => {
                        let _ = vec_replace(
                            &mut self.slab,
                            hc,
                            Option::Some(
                                Node { key: nd.key, status: Status::Hot(v), referenced: nd.referenced },
                            ),
                        );
                    },
                    Status::Test => {
                        let _ = vec_replace(
                            &mut self.slab,
                            hc,
                            Option::Some(
                                Node { key: nd.key, status: Status::Test, referenced: nd.referenced },
                            ),
                        );
                    },
                }
            },
            Option::None => {
                proof {
                    assert(false);
                }
            },
        }
        let ghost m = *self;
        proof {
            let x = slot_at(m.slots(), hc);
            assert(m.slots() =~= pre.slots().update(hc as int, x));
            lemma_count_update(pre.ord(), pre.slots(), hc, x, Kind::Hot);
            lemma_count_update(pre.ord(), pre.slots(), hc, x, Kind::Cold);
            lemma_count_update(pre.ord(), pre.slots(), hc, x, Kind::Test);
            if !acted {
                assert(m.slots() =~= pre.slots());
            }
            assert(m.wf_mid()) by {
                assert forall|j: int| 0 <= j < m.ord().len() implies {
                    let t = #[trigger] m.ord()[j];
                    m.index().contains_key(m.key_at(t)) && m.index()[m.key_at(t)] == t
                } by {
                    let t = m.ord()[j];
                    if t != hc {
                        assert(slot_at(m.slots(), t) == slot_at(pre.slots(), t));
                    }
                }
                assert forall|k2: K| #[trigger] m.index().contains_key(k2) implies
                    m.ord().contains(m.index()[k2]) && m.key_at(m.index()[k2]) == k2 by {
                    let t = m.index()[k2];
                    if t != hc {
                        assert(slot_at(m.slots(), t) == slot_at(pre.slots(), t));
                    }
                }
            }
            assert(Self::residents_weaken(pre, m)) by {
                assert forall|k2: K, v2: V| m.resident_value(k2, v2) implies pre.resident_value(
                    k2,
                    v2,
                ) by {
                    let t = m.index()[k2];
                    if t != hc {
                        assert(slot_at(m.slots(), t) == slot_at(pre.slots(), t));
                    }
                }
            }
        }
        if demoted {
            while self.count_test > self.test_capacity
                invariant
                    m.test_count() <= m.test_cap() ==> *self == m,
                    self.wf_mid(),
                    self.capacity == pre.capacity,
                    self.test_capacity == pre.test_capacity,
                    self.count_hot + self.count_cold <= pre.count_hot + pre.count_cold,
                    self.phi_m() < pre.phi_m(),
                    self.phi_m() < old(self).phi_m(),
                    Self::residents_weaken(pre, *self),
                    Self::index_shrinks(pre, *self),
                decreases self.phi_m(), self.step2(), 5int,
            {
                let ghost it = *self;
                proof {
                    lemma_tally_witness(it.ord(), it.slots(), Kind::Test);
                    assert(it.ord().len() > 0);
                }
                self.run_hand_test();
                proof {
                    if self.phi_m() == it.phi_m() {
                        assert(it.count_test > 0);
                        assert(self.work_m() < it.work_m());
                        assert(self.step2() < it.step2());
                    }
                }
            }
        }
        proof {
            assert(self.wf_mid());
        }
        if self.ring.len() > 0 {
            self.hand_cold = self.ring.next_for_token(self.hand_cold);
        } else {
            self.hand_cold = 0;
        }
        let ghost m3 = *self;
        proof {
            assert(m3.wf_mid());
            if m3.phi_m() == pre.phi_m() {
                assert(!acted && !demoted);
                assert(m.slots() =~= pre.slots());
                assert(m3.ord() == pre.ord() && m3.slots() == pre.slots());
                crate::model::lemma_dist_step(pre.ord(), pre.slots(), hc, Kind::Cold);
                if pre.count_cold > 0 {
                    lemma_tally_witness(pre.ord(), pre.slots(), Kind::Cold);
                    lemma_dist_advance(pre.ord(), pre.slots(), hc, Kind::Cold);
                    assert(self.work_m() < pre.work_m());
                    assert(self.step2() < pre.step2());
                } else {
                    assert(pre.hand_test == pre.hand_cold && pre.ord().len() >= 2);
                    assert(self.hand_test == pre.hand_test);
                    assert(self.hand_cold == next_in(pre.ord(), hc));
                    let i = pre.ord().index_of(hc);
                    lemma_index_of_unique(
                        pre.ord(),
                        hc,
                        choose|j: int| 0 <= j < pre.ord().len() && pre.ord()[j] == hc,
                    );
                    let i2: int = if i == pre.ord().len() - 1 {
                        0
                    } else {
                        i + 1
                    };
                    assert(self.hand_cold == pre.ord()[i2]);
                    assert(i2 != i);
                    assert(self.hand_cold != hc);
                    assert(self.e1() == 0 && pre.e1() == 1);
                    assert(self.work_m() <= pre.work_m());
                    assert(self.step2() < pre.step2());
                }
            }
        }
        while self.count_hot > self.capacity - self.cold_capacity
            invariant
                m3.hot_count() + m3.cold_target() <= m3.cap() ==> *self == m3,
                self.wf_mid(),
                self.capacity == pre.capacity,
                self.test_capacity == pre.test_capacity,
                self.count_hot + self.count_cold <= pre.count_hot + pre.count_cold,
                self.count_test <= pre.count_test || self.count_test <= self.test_capacity,
                self.phi_m() <= pre.phi_m(),
                pre == *old(self),
                self.phi_m() < old(self).phi_m() || (self.phi_m() == old(self).phi_m()
                    && self.step2() < old(self).step2() && self.work_m() <= old(self).work_m()),
                self.phi_m() == old(self).phi_m() ==> (self.ord() == old(self).ord()
                    && self.slots() == old(self).slots() && self.index() == old(self).index()
                    && self.count_hot == old(self).count_hot && self.count_cold == old(self).count_cold && self.count_test == old(self).count_test && self.cold_capacity
                    == old(self).cold_capacity),
                Self::residents_weaken(pre, *self),
                Self::index_shrinks(pre, *self),
            decreases self.phi_m(), self.step2(), 4int,
        {
            let ghost it = *self;
            proof {
                assert(self.count_hot > 0);
                lemma_tally_witness(it.ord(), it.slots(), Kind::Hot);
                assert(it.ord().len() > 0);
            }
            self.run_hand_hot();
            proof {
                if self.phi_m() == it.phi_m() {
                    assert(self.work_m() < it.work_m());
                    assert(self.step2() < it.step2());
                }
            }
        }
        proof {
            assert(final(self).wf_mid());
        }
    }

    /// The cold hand's pass over a ring that holds nothing cold: the
    /// examination is vacuous, so only the advance and the hot rebalance
    /// remain.
    #[verifier::rlimit(100)]
    fn cold_sweep_step(&mut self)
        requires
            old(self).wf(),
            old(self).cold_count() == 0,
            old(self).hot_count() + old(self).cold_count() >= old(self).cap(),
        ensures
            Self::hand_post(*old(self), *final(self)),
            final(self).test_count() <= old(self).test_count() || final(self).test_count()
                <= final(self).test_cap(),
            final(self).phi_m() < old(self).phi_m() || (final(self).phi_m() == old(self).phi_m()
                && final(self).step2() < old(self).step2()),
    {
        let ghost pre = *self;
        proof {
            lemma_tally_total(pre.ord(), pre.slots());
            assert(pre.ord().len() > 0);
            assert(pre.ord().contains(pre.hand_cold));
            pre.ring.lemma_wf_order();
        }
        proof {
            if kind_at(pre.slots(), pre.hand_cold, Kind::Cold) {
                lemma_tally_member(pre.ord(), pre.slots(), pre.hand_cold, Kind::Cold);
                assert(false);
            }
        }
        self.hand_cold = self.ring.next_for_token(self.hand_cold);
        let ghost m3 = *self;
        proof {
            assert(m3.wf_mid());
            crate::model::lemma_dist_step(pre.ord(), pre.slots(), pre.hand_cold, Kind::Cold);
            assert(m3.work_m() <= pre.work_m());
            assert(self.count_hot > self.capacity - self.cold_capacity);
        }
        let mut first = true;
        while self.count_hot > self.capacity - self.cold_capacity
            invariant
                m3.hot_count() + m3.cold_target() <= m3.cap() ==> *self == m3,
                self.wf_mid(),
                self.capacity == pre.capacity,
                self.test_capacity == pre.test_capacity,
                self.count_hot + self.count_cold <= pre.count_hot + pre.count_cold,
                self.count_test <= pre.count_test || self.count_test <= self.test_capacity,
                self.phi_m() <= pre.phi_m(),
                pre == *old(self),
                m3.work_m() <= pre.work_m(),
                m3.phi_m() == pre.phi_m(),
                m3.step2() <= pre.step2() + 1,
                first ==> *self == m3,
                !first ==> (self.phi_m() < pre.phi_m() || (self.phi_m() == pre.phi_m()
                    && self.step2() < pre.step2())),
                Self::residents_weaken(pre, *self),
                Self::index_shrinks(pre, *self),
            decreases self.phi_m(), self.step2(), 3int,
        {
            let ghost it = *self;
            proof {
                assert(self.count_hot > 0);
                lemma_tally_witness(it.ord(), it.slots(), Kind::Hot);
                assert(it.ord().len() > 0);
            }
            self.run_hand_hot();
            first = false;
            proof {
                if self.phi_m() == it.phi_m() {
                    assert(self.work_m() < it.work_m());
                    assert(self.step2() < it.step2());
                }
                if it == m3 {
                    if self.phi_m() == pre.phi_m() {
                        assert(self.work_m() < m3.work_m());
                        assert(self.work_m() < pre.work_m());
                        assert(self.step2() <= 2 * self.work_m() + 1);
                        assert(self.step2() < pre.step2());
                    }
                }
            }
        }
        proof {
            assert(!first);
            assert(final(self).wf_mid());
        }
    }

    /// Runs the cold hand until the resident total is strictly under the
    /// capacity, making room for one admission.
    fn evict(&mut self)
        requires
            old(self).wf(),
        ensures
            final(self).wf(),
            final(self).hot_count() + final(self).cold_count() < final(self).cap(),
            final(self).cap() == old(self).cap(),
            final(self).test_cap() == old(self).test_cap(),
            Self::residents_weaken(*old(self), *final(self)),
            Self::index_shrinks(*old(self), *final(self)),
            old(self).hot_count() + old(self).cold_count() < old(self).cap() ==> *final(self)
                == *old(self),
    {
        let ghost orig = *self;
        proof {
            assert(orig == *old(self));
        }
        while self.count_hot + self.count_cold >= self.capacity
            invariant
                self.wf(),
                self.capacity == orig.capacity,
                self.test_capacity == orig.test_capacity,
                Self::residents_weaken(orig, *self),
                Self::index_shrinks(orig, *self),
                orig == *old(self),
                orig.hot_count() + orig.cold_count() < orig.cap() ==> *self == orig,
            decreases self.phi_m(), self.step2(), 6int,
        {
            let ghost it = *self;
            proof {
                lemma_tally_total(it.ord(), it.slots());
                assert(it.ord().len() > 0);
            }
            if self.count_cold == 0 {
                self.cold_sweep_step();
            } else {
                self.run_hand_cold();
                proof {
                    if self.phi_m() == it.phi_m() {
                        assert(self.step2() < it.step2());
                    }
                }
            }
            proof {
                assert(self.count_test <= self.test_capacity);
                assert forall|k2: K, v2: V| self.resident_value(k2, v2) implies
                    orig.resident_value(k2, v2) by {
                    assert(it.resident_value(k2, v2));
                }
                assert forall|k2: K| #[trigger] self.index().contains_key(k2) implies
                    orig.index().contains_key(k2) by {
                    assert(it.index().contains_key(k2));
                }
            }
        }
    }


    /// Makes room, allocates a fresh ring token just behind the hot hand,
    /// fills its slot with the entry, and records the key.
    #[verifier::rlimit(100)]
    fn meta_add(&mut self, key: K, node: Node<K, V>)
        requires
            old(self).wf(),
            !old(self).index().contains_key(key),
            node.key == key,
            !(node.status is Test),
        ensures
            final(self).wf_struct(),
            final(self).wf_config(),
            final(self).cap() == old(self).cap(),
            final(self).test_cap() == old(self).test_cap(),
            final(self).index().contains_key(key),
            slot_at(final(self).slots(), final(self).index()[key]) == Option::Some(node),
            tally(final(self).ord(), final(self).slots(), Kind::Hot) == final(self).hot_count() + (
            if node.status is Hot {
                1nat
            } else {
                0nat
            }),
            tally(final(self).ord(), final(self).slots(), Kind::Cold) == final(self).cold_count()
                + (if node.status is Cold {
                1nat
            } else {
                0nat
            }),
            tally(final(self).ord(), final(self).slots(), Kind::Test) == final(self).test_count(),
            final(self).hot_count() + final(self).cold_count() + 1 <= final(self).cap(),
            final(self).test_count() <= final(self).test_cap(),
            forall|k2: K|
                k2 != key && #[trigger] final(self).index().contains_key(k2) ==> old(self).index().contains_key(k2),
            forall|k2: K, v2: V|
                k2 != key && #[trigger] final(self).resident_value(k2, v2) ==> old(self).resident_value(k2, v2),
            final(self).ord().len() > 1 ==> next_in(final(self).ord(), final(self).index()[key])
                == final(self).hot_hand(),
            final(self).ord().len() > 1 ==> final(self).cold_hand() != final(self).hot_hand(),
            old(self).hot_count() + old(self).cold_count() < old(self).cap() ==> {
                &&& final(self).hot_count() == old(self).hot_count()
                &&& final(self).cold_count() == old(self).cold_count()
                &&& final(self).test_count() == old(self).test_count()
                &&& final(self).cold_target() == old(self).cold_target()
                &&& final(self).ord().len() == old(self).ord().len() + 1
                &&& forall|k2: K|
                    k2 != key ==> (#[trigger] final(self).index().contains_key(k2) <==> old(self).index().contains_key(k2))
                &&& forall|k2: K, v2: V|
                    k2 != key ==> (#[trigger] final(self).resident_value(k2, v2) <==> old(self).resident_value(k2, v2))
            },
    {
        self.evict();
        let ghost e = *self;
        proof {
            lemma_tally_total(e.ord(), e.slots());
            e.ring.lemma_wf_order();
        }
        let anchor = self.hand_hot;
        let token = self.ring.insert_after(anchor);
        let ghost ord2 = self.ring.order();
        proof {
            assert(ord2.contains(token));
        }
        while self.slab.len() <= token
            invariant
                self.ring.order() == ord2,
                self.ring.wf(),
                self.ring.cap_spec() == e.ring.cap_spec(),
                forall|u: usize| slot_at(self.slab@, u) == slot_at(e.slots(), u),
                self.slab@.len() >= e.slots().len(),
                self.map == e.map,
                self.capacity == e.capacity,
                self.test_capacity == e.test_capacity,
                self.cold_capacity == e.cold_capacity,
                self.hand_hot == e.hand_hot,
                self.hand_cold == e.hand_cold,
                self.hand_test == e.hand_test,
                self.count_hot == e.count_hot,
                self.count_cold == e.count_cold,
                self.count_test == e.count_test,
            decreases token + 1 - self.slab.len(),
        {
            let ghost before = self.slab@;
            self.slab.push(Option::None);
            proof {
                assert(forall|u: usize| slot_at(self.slab@, u) == slot_at(before, u));
            }
        }
        let ghost grown_slots = self.slab@;
        let _ = vec_replace(&mut self.slab, token, Option::Some(node));
        self.map.insert(key, token);
        if self.ring.len() == 1 {
            self.hand_hot = token;
            self.hand_cold = token;
            self.hand_test = token;
        } else if self.hand_cold == self.hand_hot {
            proof {
                assert(e.ord().len() > 0);
                assert(e.ord().contains(e.hand_cold));
                assert(ord2.contains(self.hand_cold));
                self.ring.lemma_wf_order();
            }
            self.hand_cold = self.ring.prev_for_token(self.hand_cold);
        }
        proof {
            let grown = grown_slots;
            // the grown tail reads as vacant, so tallies over the old ring are kept
            assert(forall|u: usize| slot_at(grown, u) == slot_at(e.slots(), u));
            crate::model::lemma_count_congruence(e.ord(), grown, e.slots(), Kind::Hot);
            crate::model::lemma_count_congruence(e.ord(), grown, e.slots(), Kind::Cold);
            crate::model::lemma_count_congruence(e.ord(), grown, e.slots(), Kind::Test);
            assert(self.slots() =~= grown.update(token as int, Option::Some(node)));
            assert(!e.ord().contains(token));
            lemma_count_update_absent(e.ord(), grown, token, Option::Some(node), Kind::Hot);
            lemma_count_update_absent(e.ord(), grown, token, Option::Some(node), Kind::Cold);
            lemma_count_update_absent(e.ord(), grown, token, Option::Some(node), Kind::Test);
            // the new ring is the old one with the token inserted at one place
            let i: int = if e.ord().len() == 0 {
                0
            } else {
                e.ord().index_of(e.hand_hot)
            };
            if e.ord().len() > 0 {
                assert(e.ord().contains(e.hand_hot));
                assert(e.ord()[i] == e.hand_hot);
            }
            let pos: int = if e.ord().len() == 0 {
                0
            } else if i == 0 {
                e.ord().len() as int
            } else {
                i
            };
            assert(ord2 == e.ord().insert(pos, token)) by {
                if e.ord().len() == 0 {
                    assert(ord2 =~= e.ord().insert(0, token));
                } else if i == 0 {
                    assert(ord2 == e.ord().push(token));
                    assert(e.ord().push(token) =~= e.ord().insert(e.ord().len() as int, token));
                }
            }
            assert(0 <= pos <= e.ord().len());
            lemma_count_insert(e.ord(), self.slots(), pos, token, Kind::Hot);
            lemma_count_insert(e.ord(), self.slots(), pos, token, Kind::Cold);
            lemma_count_insert(e.ord(), self.slots(), pos, token, Kind::Test);
            assert(slot_at(self.slots(), token) == Option::Some(node));
            // index and bijection
            assert(self.index() =~= e.index().insert(key, token));
            assert(self.index().dom() =~= e.index().dom().insert(key));
            assert forall|j: int| 0 <= j < self.ord().len() implies {
                let t = #[trigger] self.ord()[j];
                self.index().contains_key(self.key_at(t)) && self.index()[self.key_at(t)] == t
            } by {
                let t = self.ord()[j];
                assert(self.ord().contains(t));
                if t == token {
                    assert(self.key_at(t) == key);
                } else {
                    assert(e.ord().contains(t));
                    assert(slot_at(self.slots(), t) == slot_at(e.slots(), t));
                    assert(self.key_at(t) == e.key_at(t));
                    if e.key_at(t) == key {
                        assert(e.index().contains_key(key));
                        assert(false);
                    }
                }
            }
            assert forall|k2: K| #[trigger] self.index().contains_key(k2) implies
                self.ord().contains(self.index()[k2]) && self.key_at(self.index()[k2]) == k2 by {
                if k2 == key {
                    assert(self.ord().contains(token));
                } else {
                    let t = e.index()[k2];
                    assert(e.ord().contains(t));
                    assert(t != token);
                    assert(self.ord().contains(t));
                    assert(slot_at(self.slots(), t) == slot_at(e.slots(), t));
                }
            }
            assert(final(self).wf_struct());
            assert forall|k2: K, v2: V| k2 != key && #[trigger] final(self).resident_value(
                k2,
                v2,
            ) implies e.resident_value(k2, v2) by {
                let t = self.index()[k2];
                assert(t == e.index()[k2]);
                assert(t != token);
                assert(slot_at(self.slots(), t) == slot_at(e.slots(), t));
            }
            // placement: the fresh token sits just before the hot hand, so a
            // forward sweep from it reaches the hot hand next
            self.ring.lemma_wf_order();
            if ord2.len() > 1 {
                lemma_index_of_unique(ord2, token, pos);
                assert(next_in(ord2, token) == self.hand_hot) by {
                    let anchor = e.hand_hot;
                    if pos == ord2.len() - 1 {
                        assert(ord2[0] == e.ord()[0]);
                        assert(e.ord()[0] == anchor);
                    } else {
                        assert(ord2[pos + 1] == e.ord()[pos]);
                        assert(e.ord()[pos] == anchor);
                    }
                    assert(self.hand_hot == anchor);
                }
                // the cold hand never rests on the hot hand after an add
                if e.hand_cold == e.hand_hot {
                    let q = ord2.index_of(self.hand_cold);
                    assert(ord2[q] == self.hand_cold);
                    let w = ord2.index_of(e.hand_hot);
                    lemma_index_of_unique(ord2, e.hand_hot, w);
                    assert(prev_in(ord2, e.hand_hot) == ord2[if w == 0 {
                        ord2.len() - 1
                    } else {
                        w - 1
                    }]);
                    assert(self.hand_cold != self.hand_hot);
                } else {
                    assert(self.hand_cold == e.hand_cold && self.hand_hot == e.hand_hot);
                }
            }
            // below capacity nothing was evicted, so every other key and all
            // counts stand exactly as before
            if old(self).count_hot + old(self).count_cold < old(self).capacity {
                assert(e == *old(self));
                assert forall|k2: K| k2 != key && old(self).index().contains_key(k2) implies
                    #[trigger] final(self).index().contains_key(k2) by {}
                assert forall|k2: K, v2: V| k2 != key && old(self).resident_value(k2, v2) implies
                    #[trigger] final(self).resident_value(k2, v2) by {
                    let t = e.index()[k2];
                    assert(e.ord().contains(t));
                    assert(t != token);
                    assert(self.ord().contains(t));
                    assert(slot_at(self.slots(), t) == slot_at(e.slots(), t));
                    assert(self.index()[k2] == t);
                }
            }
        }
    }

    /// Inserts or refreshes a key. Returns true exactly when the key was not
    /// yet remembered: an overwrite of a resident key and the revival of a
    /// remembered but evicted key both answer false. A revived key is admitted
    /// hot; a brand-new key is admitted cold; an overwrite touches nothing but
    /// that one slot. Which resident an insertion at capacity displaces
    /// depends on where the hands stand, so a key may be overwritten in place
    /// where a trace-level reading of the rules would first expect it evicted
    /// and revived.
    #[verifier::rlimit(100)]
    pub fn insert(&mut self, key: K, value: V) -> (r: bool)
        requires
            old(self).wf(),
        ensures
            final(self).wf(),
            Self::insert_post(*old(self), *final(self), key, value, r),
            r == !old(self).index().contains_key(key),
            final(self).resident_value(key, value),
            final(self).cap() == old(self).cap(),
            final(self).test_cap() == old(self).test_cap(),
            old(self).is_indexed(key) && !old(self).is_resident(key) ==> final(self).is_hot(key),
            !old(self).is_indexed(key) ==> !final(self).is_hot(key),
            forall|k2: K|
                k2 != key && #[trigger] final(self).index().contains_key(k2) ==> old(self).index().contains_key(k2),
            forall|k2: K, v2: V|
                k2 != key && #[trigger] final(self).resident_value(k2, v2) ==> old(self).resident_value(k2, v2),
            old(self).is_resident(key) ==> {
                &&& final(self).index() == old(self).index()
                &&& final(self).ord() == old(self).ord()
                &&& final(self).hot_count() == old(self).hot_count()
                &&& final(self).cold_count() == old(self).cold_count()
                &&& final(self).test_count() == old(self).test_count()
                &&& final(self).cold_target() == old(self).cold_target()
                &&& (match slot_at(final(self).slots(), final(self).index()[key]) {
                    Option::Some(nd) => nd.referenced,
                    Option::None => false,
                })
                &&& (final(self).is_hot(key) <==> old(self).is_hot(key))
                &&& forall|k2: K|
                    k2 != key ==> (final(self).is_hot(k2) <==> old(self).is_hot(k2))
                &&& forall|k2: K, v2: V|
                    k2 != key ==> (final(self).resident_value(k2, v2) == old(self).resident_value(k2, v2))
            },
            !old(self).is_indexed(key) ==> slot_at(final(self).slots(), final(self).index()[key])
                == Option::Some(Node { key: key, status: Status::Cold(value), referenced: false }),
            old(self).is_indexed(key) && !old(self).is_resident(key) ==> slot_at(
                final(self).slots(),
                final(self).index()[key],
            ) == Option::Some(Node { key: key, status: Status::Hot(value), referenced: false }),
            !old(self).is_indexed(key) && old(self).hot_count() + old(self).cold_count() < old(self).cap() ==> {
                &&& final(self).hot_count() == old(self).hot_count()
                &&& final(self).cold_count() == old(self).cold_count() + 1
                &&& final(self).test_count() == old(self).test_count()
                &&& final(self).cold_target() == old(self).cold_target()
                &&& forall|k2: K|
                    k2 != key ==> (#[trigger] final(self).index().contains_key(k2) <==> old(self).index().contains_key(k2))
                &&& forall|k2: K, v2: V|
                    k2 != key ==> (#[trigger] final(self).resident_value(k2, v2) <==> old(self).resident_value(k2, v2))
            },
            old(self).is_indexed(key) && !old(self).is_resident(key) && old(self).hot_count()
                + old(self).cold_count() < old(self).cap() ==> {
                &&& final(self).hot_count() == old(self).hot_count() + 1
                &&& final(self).cold_count() == old(self).cold_count()
                &&& final(self).test_count() + 1 == old(self).test_count()
                &&& final(self).cold_target() == (if old(self).cold_target() < old(self).cap() {
                    old(self).cold_target() + 1
                } else {
                    old(self).cold_target()
                })
            },
    {
        let present = match self.map.get(&key) {
            Option::None => Option::<usize>::None,
            Option::Some(t) => Option::Some(*t),
        };
        match present {
            Option::None => {
                let ghost pre = *self;
                let node = Node { key, status: Status::Cold(value), referenced: false };
                self.meta_add(key, node);
                let ghost ma = *self;
                proof {
                    lemma_tally_total(self.ord(), self.slots());
                }
                self.count_cold = self.count_cold + 1;
                proof {
                    assert(final(self).wf());
                    assert(final(self).resident_value(key, value));
                    assert forall|k2: K, v2: V| k2 != key && #[trigger] final(self).resident_value(k2, v2) implies pre.resident_value(k2, v2) by {
                        assert(ma.resident_value(k2, v2));
                    }
                    assert forall|k2: K| k2 != key && #[trigger] final(self).index().contains_key(
                        k2,
                    ) implies pre.index().contains_key(k2) by {
                        assert(ma.index().contains_key(k2));
                    }
                    if pre.count_hot + pre.count_cold < pre.capacity {
                        assert forall|k2: K| k2 != key implies (#[trigger] final(self).index().contains_key(k2) <==> pre.index().contains_key(k2)) by {
                            assert(ma.index().contains_key(k2) <==> pre.index().contains_key(k2));
                        }
                        assert forall|k2: K, v2: V| k2 != key implies (#[trigger] final(self).resident_value(k2, v2) <==> pre.resident_value(k2, v2)) by {
                            assert(ma.resident_value(k2, v2) <==> pre.resident_value(k2, v2));
                        }
                    }
                }
                true
            },
            Option::Some(token) => {
                proof {
                    assert(self.index().contains_key(key) && self.index()[key] == token);
                    assert(self.ord().contains(token));
                    assert(token < self.slots().len());
                    assert(slot_at(self.slots(), token) is Some);
                    self.ring.lemma_wf_order();
                }
                let resident_now = match &self.slab[token] {
                    Option::Some(nd) => !matches!(nd.status, Status::Test),
                    Option::None => false,
                };
                if resident_now {
                    let ghost pre = *self;
                    let taken = vec_replace(&mut self.slab, token, Option::None);
                    match taken {
                        Option::Some(nd) => match nd.status {
                            Status::Hot(_) => {
                                let _ = vec_replace(
                                    &mut self.slab,
                                    token,
                                    Option::Some(
                                        Node { key: nd.key, status: Status::Hot(value), referenced: true },
                                    ),
                                );
                            },
                            Status::Cold(_) => {
                                let _ = vec_replace(
                                    &mut self.slab,
                                    token,
                                    Option::Some(
                                        Node { key: nd.key, status: Status::Cold(value), referenced: true },
                                    ),
                                );
                            },
                            Status::Test => {
                                proof {
                                    assert(false);
                                }
                            },
                        },
                        Option::None => {
                            proof {
                                assert(false);
                            }
                        },
                    }
                    proof {
                        assert(self.slots() =~= pre.slots().update(
                            token as int,
                            slot_at(self.slots(), token),
                        ));
                        self.lemma_overwrite(pre, token, key);
                        assert(final(self).resident_value(key, value));
                    }
                    false
                } else {
                    let ghost pre = *self;
                    proof {
                        assert(kind_at(pre.slots(), token, Kind::Test));
                        lemma_tally_member(pre.ord(), pre.slots(), token, Kind::Test);
                        assert(pre.key_at(token) == key);
                    }
                    if self.cold_capacity < self.capacity {
                        self.cold_capacity = self.cold_capacity + 1;
                    }
                    self.count_test = self.count_test - 1;
                    let ghost mid = *self;
                    self.meta_del(token);
                    let ghost md = *self;
                    proof {
                        assert(md.wf()) by {
                            assert(tally(md.ord(), md.slots(), Kind::Test) + 1nat == tally(
                                mid.ord(),
                                mid.slots(),
                                Kind::Test,
                            ));
                        }
                        assert(!md.index().contains_key(key));
                    }
                    let node = Node { key, status: Status::Hot(value), referenced: false };
                    self.meta_add(key, node);
                    let ghost ma = *self;
                    proof {
                        lemma_tally_total(self.ord(), self.slots());
                    }
                    self.count_hot = self.count_hot + 1;
                    proof {
                        assert(final(self).wf());
                        assert(final(self).resident_value(key, value));
                        assert(final(self).is_hot(key));
                        if pre.count_hot + pre.count_cold < pre.capacity {
                            assert(md.hot_count() + md.cold_count() < md.cap());
                            assert(ma.hot_count() == md.hot_count());
                            assert(ma.cold_count() == md.cold_count());
                            assert(ma.test_count() == md.test_count());
                            assert(ma.cold_target() == md.cold_target());
                            assert(md.cold_target() == mid.cold_target());
                            assert(mid.cold_target() == (if pre.cold_target() < pre.cap() {
                                pre.cold_target() + 1
                            } else {
                                pre.cold_target()
                            }));
                        }
                        assert forall|k2: K, v2: V| k2 != key && #[trigger] final(self).resident_value(k2, v2) implies pre.resident_value(k2, v2) by {
                            assert(ma.resident_value(k2, v2));
                            assert(md.resident_value(k2, v2));
                            assert(mid.resident_value(k2, v2));
                        }
                        assert forall|k2: K| k2 != key && #[trigger] final(self).index().contains_key(k2) implies pre.index().contains_key(k2) by {
                            assert(ma.index().contains_key(k2));
                            assert(md.index().contains_key(k2));
                        }
                    }
                    false
                }
            },
        }
    }

    /// Overwriting the value of a resident slot and pinning its reference bit
    /// preserves the invariant and every observation about other keys.
    proof fn lemma_overwrite(&self, pre: Self, token: usize, key: K)
        requires
            pre.wf(),
            pre.index().contains_key(key),
            pre.index()[key] == token,
            slot_at(pre.slots(), token) is Some,
            !(slot_at(pre.slots(), token)->Some_0.status is Test),
            self.ring == pre.ring,
            self.map == pre.map,
            self.capacity == pre.capacity,
            self.test_capacity == pre.test_capacity,
            self.cold_capacity == pre.cold_capacity,
            self.count_hot == pre.count_hot,
            self.count_cold == pre.count_cold,
            self.count_test == pre.count_test,
            self.hand_hot == pre.hand_hot,
            self.hand_cold == pre.hand_cold,
            self.hand_test == pre.hand_test,
            slot_at(self.slots(), token) is Some,
            slot_at(self.slots(), token)->Some_0.key == slot_at(pre.slots(), token)->Some_0.key,
            node_is(slot_at(self.slots(), token), Kind::Hot) == node_is(
                slot_at(pre.slots(), token),
                Kind::Hot,
            ),
            node_is(slot_at(self.slots(), token), Kind::Cold) == node_is(
                slot_at(pre.slots(), token),
                Kind::Cold,
            ),
            self.slots() == pre.slots().update(token as int, slot_at(self.slots(), token)),
        ensures
            self.wf(),
            forall|k2: K, v2: V|
                k2 != key ==> (self.resident_value(k2, v2) == pre.resident_value(k2, v2)),
            forall|k2: K| k2 != key ==> (self.is_hot(k2) <==> pre.is_hot(k2)),
            self.is_hot(key) <==> pre.is_hot(key),
    {
        pre.ring.lemma_wf_order();
        let x = slot_at(self.slots(), token);
        lemma_count_update(pre.ord(), pre.slots(), token, x, Kind::Hot);
        lemma_count_update(pre.ord(), pre.slots(), token, x, Kind::Cold);
        lemma_count_update(pre.ord(), pre.slots(), token, x, Kind::Test);
        assert(forall|u: usize| u != token ==> slot_at(self.slots(), u) == slot_at(pre.slots(), u));
        assert(self.key_at(token) == pre.key_at(token));
        assert forall|j: int| 0 <= j < self.ord().len() implies {
            let t = #[trigger] self.ord()[j];
            self.index().contains_key(self.key_at(t)) && self.index()[self.key_at(t)] == t
        } by {
            let t = self.ord()[j];
            if t != token {
                assert(self.key_at(t) == pre.key_at(t));
            }
        }
        assert forall|k2: K, v2: V| k2 != key implies (self.resident_value(k2, v2)
            == pre.resident_value(k2, v2)) by {
            if pre.index().contains_key(k2) {
                let t = pre.index()[k2];
                if t != token {
                    assert(slot_at(self.slots(), t) == slot_at(pre.slots(), t));
                } else {
                    assert(pre.key_at(token) == k2 && pre.key_at(token) == key);
                }
            }
        }
        assert forall|k2: K| k2 != key implies (self.is_hot(k2) <==> pre.is_hot(k2)) by {
            if pre.index().contains_key(k2) {
                let t = pre.index()[k2];
                if t != token {
                    assert(slot_at(self.slots(), t) == slot_at(pre.slots(), t));
                } else {
                    assert(pre.key_at(token) == k2 && pre.key_at(token) == key);
                }
            }
        }
    }

    /// What one call of `insert(k, v)` establishes, stated over the model:
    /// the contract that the laws below build on.
    pub open spec fn insert_post(pre: Self, post: Self, k: K, v: V, r: bool) -> bool {
        &&& post.wf()
        &&& r == !pre.index().contains_key(k)
        &&& post.resident_value(k, v)
        &&& (pre.is_indexed(k) && !pre.is_resident(k) ==> post.is_hot(k))
        &&& (!pre.is_indexed(k) ==> !post.is_hot(k))
    }

    /// The invariants of every reachable state: the resident partitions fit
    /// the capacity, the test partition fits its own cap, the adaptive cold
    /// target stays within its bounds, and the three counts together equal
    /// both the ring's length and the key index's size.
    pub proof fn lemma_partition_bounds(c: Self)
        requires
            c.wf(),
        ensures
            c.hot_count() + c.cold_count() <= c.cap(),
            c.test_count() <= c.test_cap(),
            1 <= c.cold_target() <= c.cap(),
            c.hot_count() + c.cold_count() + c.test_count() == c.ord().len(),
            c.index().dom().len() == c.ord().len(),
    {
        lemma_tally_total(c.ord(), c.slots());
    }

    /// Every key in the index maps to a ring token whose slot carries exactly
    /// that key.
    pub proof fn lemma_index_key_agreement(c: Self, k: K)
        requires
            c.wf(),
            c.index().contains_key(k),
        ensures
            c.ord().contains(c.index()[k]),
            c.key_at(c.index()[k]) == k,
    {
    }

    /// A hot or cold slot carries a value; a test slot carries none: residence
    /// and the presence of a value coincide for every remembered key.
    pub proof fn lemma_residency_value(c: Self, k: K)
        requires
            c.wf(),
            c.index().contains_key(k),
        ensures
            c.is_resident(k) <==> exists|v: V| c.resident_value(k, v),
    {
        let t = c.index()[k];
        assert(c.ord().contains(t));
        let j = choose|j: int| 0 <= j < c.ord().len() && c.ord()[j] == t;
        assert(slot_at(c.slots(), t) is Some);
        if c.is_resident(k) {
            match slot_at(c.slots(), t) {
                Option::Some(nd) => match nd.status {
                    Status::Hot(x) => {
                        assert(c.resident_value(k, x));
                    },
                    Status::Cold(x) => {
                        assert(c.resident_value(k, x));
                    },
                    Status::Test => {
                        assert(false);
                    },
                },
                Option::None => {
                    assert(false);
                },
            }
        }
    }

    /// Overwrite idempotence: inserting the same key twice makes the second
    /// call a refresh, not a new admission, and leaves the second value
    /// resident.
    pub proof fn lemma_overwrite_idempotence(
        s0: Self,
        s1: Self,
        s2: Self,
        k: K,
        v1: V,
        v2: V,
        r1: bool,
        r2: bool,
    )
        requires
            Self::insert_post(s0, s1, k, v1, r1),
            Self::insert_post(s1, s2, k, v2, r2),
        ensures
            !r2,
            s2.resident_value(k, v2),
    {
    }

    /// Lookup fidelity, immediate form: right after `insert(k, v)` the key is
    /// resident with exactly the value `v`, so a lookup yields it.
    pub proof fn lemma_insert_then_lookup(s0: Self, s1: Self, k: K, v: V, r: bool)
        requires
            Self::insert_post(s0, s1, k, v, r),
        ensures
            s1.is_resident(k),
            s1.resident_value(k, v),
    {
        let t = s1.index()[k];
        assert(slot_at(s1.slots(), t) is Some);
    }

    /// Non-residence memory: a key that is remembered but no longer resident
    /// is revived straight into the hot partition, and its revival is not a
    /// new admission.
    pub proof fn lemma_test_hit_promotes(s0: Self, s1: Self, k: K, v: V, r: bool)
        requires
            s0.is_indexed(k),
            !s0.is_resident(k),
            Self::insert_post(s0, s1, k, v, r),
        ensures
            s1.is_hot(k),
            !r,
    {
    }
}

} // verus!