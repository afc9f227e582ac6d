//! The mathematical model of the cache: slot states, counts over the ring,
//! the decreasing potential of a rebalancing pass, and cyclic distances from
//! a hand to the next slot of a given kind.

use vstd::prelude::*;

verus! {

/// The residence state of a slot: hot and cold entries carry the cached
/// value, a test entry is the remembered ghost of an evicted key.
pub enum Status<V> {
    Hot(V),
    Cold(V),
    Test,
}

/// One slot of the cache: the key, its residence state, and the sticky
/// recently-used bit.
pub struct Node<K, V> {
    pub key: K,
    pub status: Status<V>,
    pub referenced: bool,
}

/// Selector for the three slot kinds.
pub enum Kind {
    Hot,
    Cold,
    Test,
}

/// Total indexing into the slot table: out-of-range tokens read as vacant.
pub open spec fn slot_at<K, V>(slots: Seq<Option<Node<K, V>>>, t: usize) -> Option<Node<K, V>> {
    if t < slots.len() {
        slots[t as int]
    } else {
        None
    }
}

pub open spec fn node_is<K, V>(n: Option<Node<K, V>>, k: Kind) -> bool {
    match n {
        Option::None => false,
        Option::Some(nd) => match k {
            Kind::Hot => nd.status is Hot,
            Kind::Cold => nd.status is Cold,
            Kind::Test => nd.status is Test,
        },
    }
}

pub open spec fn kind_at<K, V>(slots: Seq<Option<Node<K, V>>>, t: usize, k: Kind) -> bool {
    node_is(slot_at(slots, t), k)
}

/// How many ring positions hold a slot of kind `k`.
pub open spec fn tally<K, V>(ord: Seq<usize>, slots: Seq<Option<Node<K, V>>>, k: Kind) -> nat
    decreases ord.len(),
{
    if ord.len() == 0 {
        0
    } else {
        tally(ord.drop_last(), slots, k) + (if kind_at(slots, ord.last(), k) {
            1nat
        } else {
            0nat
        })
    }
}

/// The rank of a slot in the rebalancing order: every action of a hand moves
/// the slot it acts on strictly down this order, and nothing during a
/// rebalance moves a slot up.
pub open spec fn rank<K, V>(n: Option<Node<K, V>>) -> nat {
    match n {
        Option::None => 0,
        Option::Some(nd) => match nd.status {
            Status::Test => 1,
            Status::Cold(_) => if nd.referenced {
                5
            } else {
                2
            },
            Status::Hot(_) => if nd.referenced {
                4
            } else {
                3
            },
        },
    }
}

/// The potential of the whole ring: the sum of the ranks of its slots.
pub open spec fn phi<K, V>(ord: Seq<usize>, slots: Seq<Option<Node<K, V>>>) -> nat
    decreases ord.len(),
{
    if ord.len() == 0 {
        0
    } else {
        phi(ord.drop_last(), slots) + rank(slot_at(slots, ord.last()))
    }
}

/// Index of the first slot of kind `k` along `ord`; `ord.len()` if none.
pub open spec fn first_match<K, V>(ord: Seq<usize>, slots: Seq<Option<Node<K, V>>>, k: Kind) -> nat
    decreases ord.len(),
{
    if ord.len() == 0 {
        0
    } else if kind_at(slots, ord[0], k) {
        0
    } else {
        1 + first_match(ord.drop_first(), slots, k)
    }
}

/// The ring read from position `j` onward, wrapping around.
pub open spec fn rotation(ord: Seq<usize>, j: int) -> Seq<usize> {
    ord.subrange(j, ord.len() as int) + ord.subrange(0, j)
}

/// Cyclic distance from the hand to the first slot of kind `k`, the hand's
/// own position counting as zero.
pub open spec fn dist<K, V>(
    ord: Seq<usize>,
    slots: Seq<Option<Node<K, V>>>,
    hand: usize,
    k: Kind,
) -> nat {
    first_match(rotation(ord, ord.index_of(hand)), slots, k)
}

/// A tally and the potential are unchanged by updating a token outside `ord`.
pub proof fn lemma_count_update_absent<K, V>(
    ord: Seq<usize>,
    slots: Seq<Option<Node<K, V>>>,
    t: usize,
    x: Option<Node<K, V>>,
    k: Kind,
)
    requires
        t < slots.len(),
        !ord.contains(t),
    ensures
        tally(ord, slots.update(t as int, x), k) == tally(ord, slots, k),
        phi(ord, slots.update(t as int, x)) == phi(ord, slots),
    decreases ord.len(),
{
    if ord.len() > 0 {
        assert(ord.last() != t);
        assert(forall|j: int| 0 <= j < ord.drop_last().len() ==> ord.drop_last()[j] == ord[j]);
        assert(!ord.drop_last().contains(t)) by {
            if ord.drop_last().contains(t) {
                let j = choose|j: int| 0 <= j < ord.drop_last().len() && ord.drop_last()[j] == t;
                assert(ord[j] == t);
            }
        }
        lemma_count_update_absent(ord.drop_last(), slots, t, x, k);
    }
}

/// Updating the slot of a token that occurs exactly once in `ord` shifts a
/// tally and the potential by the difference the new slot makes.
pub proof fn lemma_count_update<K, V>(
    ord: Seq<usize>,
    slots: Seq<Option<Node<K, V>>>,
    t: usize,
    x: Option<Node<K, V>>,
    k: Kind,
)
    requires
        t < slots.len(),
        ord.no_duplicates(),
        ord.contains(t),
    ensures
        tally(ord, slots.update(t as int, x), k) + (if kind_at(slots, t, k) {
            1nat
        } else {
            0nat
        }) == tally(ord, slots, k) + (if node_is(x, k) {
            1nat
        } else {
            0nat
        }),
        phi(ord, slots.update(t as int, x)) + rank(slot_at(slots, t)) == phi(ord, slots) + rank(x),
    decreases ord.len(),
{
    assert(ord.len() > 0);
    let pre = ord.drop_last();
    assert(forall|j: int| 0 <= j < pre.len() ==> pre[j] == ord[j]);
    if ord.last() == t {
        assert(!pre.contains(t)) by {
            if pre.contains(t) {
                let j = choose|j: int| 0 <= j < pre.len() && pre[j] == t;
                assert(ord[j] == t && ord[ord.len() - 1] == t);
            }
        }
        lemma_count_update_absent(pre, slots, t, x, k);
        assert(slot_at(slots.update(t as int, x), t) == x);
    } else {
        assert(pre.contains(t)) by {
            let j = choose|j: int| 0 <= j < ord.len() && ord[j] == t;
            assert(j < ord.len() - 1);
            assert(pre[j] == t);
        }
        assert(pre.no_duplicates());
        lemma_count_update(pre, slots, t, x, k);
        assert(slot_at(slots.update(t as int, x), ord.last()) == slot_at(slots, ord.last()));
    }
}

/// Removing position `i` from the ring subtracts that slot's contribution
/// from every tally and from the potential.
pub proof fn lemma_count_remove<K, V>(
    ord: Seq<usize>,
    slots: Seq<Option<Node<K, V>>>,
    i: int,
    k: Kind,
)
    requires
        0 <= i < ord.len(),
    ensures
        tally(ord.remove(i), slots, k) + (if kind_at(slots, ord[i], k) {
            1nat
        } else {
            0nat
        }) == tally(ord, slots, k),
        phi(ord.remove(i), slots) + rank(slot_at(slots, ord[i])) == phi(ord, slots),
    decreases ord.len(),
{
    if i == ord.len() - 1 {
        assert(ord.remove(i) =~= ord.drop_last());
    } else {
        assert(ord.remove(i).drop_last() =~= ord.drop_last().remove(i));
        assert(ord.remove(i).last() == ord.last());
        lemma_count_remove(ord.drop_last(), slots, i, k);
    }
}

/// Inserting token `t` at position `i` adds that slot's contribution to
/// every tally and to the potential.
pub proof fn lemma_count_insert<K, V>(
    ord: Seq<usize>,
    slots: Seq<Option<Node<K, V>>>,
    i: int,
    t: usize,
    k: Kind,
)
    requires
        0 <= i <= ord.len(),
    ensures
        tally(ord.insert(i, t), slots, k) == tally(ord, slots, k) + (if kind_at(slots, t, k) {
            1nat
        } else {
            0nat
        }),
        phi(ord.insert(i, t), slots) == phi(ord, slots) + rank(slot_at(slots, t)),
    decreases ord.len(),
{
    let post = ord.insert(i, t);
    assert(post.len() == ord.len() + 1);
    if i == ord.len() {
        assert(post.drop_last() =~= ord);
        assert(post.last() == t);
    } else {
        assert(post.last() == ord.last());
        assert(post.drop_last() =~= ord.drop_last().insert(i, t));
        lemma_count_insert(ord.drop_last(), slots, i, t, k);
    }
}

/// Over a ring whose slots are all occupied, the three tallies sum to the
/// ring's length: every slot is of exactly one kind.
pub proof fn lemma_tally_total<K, V>(ord: Seq<usize>, slots: Seq<Option<Node<K, V>>>)
    requires
        forall|j: int| 0 <= j < ord.len() ==> slot_at(slots, #[trigger] ord[j]) is Some,
    ensures
        tally(ord, slots, Kind::Hot) + tally(ord, slots, Kind::Cold) + tally(ord, slots, Kind::Test)
            == ord.len(),
    decreases ord.len(),
{
    if ord.len() > 0 {
        assert(forall|j: int| 0 <= j < ord.drop_last().len() ==> ord.drop_last()[j] == ord[j]);
        lemma_tally_total(ord.drop_last(), slots);
        assert(slot_at(slots, ord.last()) is Some);
    }
}

/// A positive tally names a witness position of that kind.
pub proof fn lemma_tally_witness<K, V>(ord: Seq<usize>, slots: Seq<Option<Node<K, V>>>, k: Kind)
    requires
        tally(ord, slots, k) > 0,
    ensures
        exists|j: int| 0 <= j < ord.len() && kind_at(slots, #[trigger] ord[j], k),
    decreases ord.len(),
{
    if kind_at(slots, ord.last(), k) {
        assert(kind_at(slots, ord[ord.len() - 1], k));
    } else {
        lemma_tally_witness(ord.drop_last(), slots, k);
        let j = choose|j: int|
            0 <= j < ord.drop_last().len() && kind_at(slots, #[trigger] ord.drop_last()[j], k);
        assert(kind_at(slots, ord[j], k));
    }
}

/// A ring position of kind `k` makes the tally positive.
pub proof fn lemma_tally_member<K, V>(
    ord: Seq<usize>,
    slots: Seq<Option<Node<K, V>>>,
    t: usize,
    k: Kind,
)
    requires
        ord.contains(t),
        kind_at(slots, t, k),
    ensures
        tally(ord, slots, k) >= 1,
    decreases ord.len(),
{
    if ord.last() == t {
    } else {
        let j = choose|j: int| 0 <= j < ord.len() && ord[j] == t;
        assert(j < ord.len() - 1);
        assert(ord.drop_last()[j] == t);
        lemma_tally_member(ord.drop_last(), slots, t, k);
    }
}

/// A non-empty ring of occupied slots has positive potential.
pub proof fn lemma_phi_positive<K, V>(ord: Seq<usize>, slots: Seq<Option<Node<K, V>>>)
    requires
        ord.len() > 0,
        slot_at(slots, ord.last()) is Some,
    ensures
        phi(ord, slots) >= 1,
{
}

/// `first_match` never exceeds the length, and reaches it exactly when no
/// position matches.
pub proof fn lemma_first_match_range<K, V>(ord: Seq<usize>, slots: Seq<Option<Node<K, V>>>, k: Kind)
    ensures
        first_match(ord, slots, k) <= ord.len(),
        (exists|j: int| 0 <= j < ord.len() && kind_at(slots, #[trigger] ord[j], k))
            <==> first_match(ord, slots, k) < ord.len(),
    decreases ord.len(),
{
    if ord.len() > 0 {
        if kind_at(slots, ord[0], k) {
        } else {
            lemma_first_match_range(ord.drop_first(), slots, k);
            assert(forall|j: int|
                0 <= j < ord.drop_first().len() ==> ord.drop_first()[j] == ord[j + 1]);
            if exists|j: int| 0 <= j < ord.len() && kind_at(slots, #[trigger] ord[j], k) {
                let j = choose|j: int| 0 <= j < ord.len() && kind_at(slots, #[trigger] ord[j], k);
                assert(j != 0);
                assert(kind_at(slots, ord.drop_first()[j - 1], k));
            }
            if exists|j: int|
                0 <= j < ord.drop_first().len() && kind_at(slots, #[trigger] ord.drop_first()[j], k) {
                let j = choose|j: int|
                    0 <= j < ord.drop_first().len() && kind_at(
                        slots,
                        #[trigger] ord.drop_first()[j],
                        k,
                    );
                assert(kind_at(slots, ord[j + 1], k));
            }
        }
    }
}

/// Appending one element after a matching prefix does not move the first
/// match.
pub proof fn lemma_first_match_push<K, V>(
    ord: Seq<usize>,
    slots: Seq<Option<Node<K, V>>>,
    x: usize,
    k: Kind,
)
    requires
        exists|j: int| 0 <= j < ord.len() && kind_at(slots, #[trigger] ord[j], k),
    ensures
        first_match(ord.push(x), slots, k) == first_match(ord, slots, k),
    decreases ord.len(),
{
    let j = choose|j: int| 0 <= j < ord.len() && kind_at(slots, #[trigger] ord[j], k);
    assert(ord.push(x)[0] == ord[0]);
    if kind_at(slots, ord[0], k) {
    } else {
        assert(j != 0);
        assert(ord.push(x).drop_first() =~= ord.drop_first().push(x));
        assert(kind_at(slots, ord.drop_first()[j - 1], k));
        lemma_first_match_push(ord.drop_first(), slots, x, k);
    }
}

/// When the hand stands on a slot that is not of kind `k` and some slot of
/// kind `k` exists, stepping the hand forward brings the first such slot one
/// position closer.
pub proof fn lemma_dist_advance<K, V>(
    ord: Seq<usize>,
    slots: Seq<Option<Node<K, V>>>,
    hand: usize,
    k: Kind,
)
    requires
        ord.no_duplicates(),
        ord.contains(hand),
        !kind_at(slots, hand, k),
        exists|j: int| 0 <= j < ord.len() && kind_at(slots, #[trigger] ord[j], k),
    ensures
        dist(ord, slots, hand, k) >= 1,
        dist(ord, slots, crate::token_ring::next_in(ord, hand), k) == dist(
            ord,
            slots,
            hand,
            k,
        ) - 1,
{
    let n = ord.len() as int;
    let i = ord.index_of(hand);
    assert(ord[i] == hand);
    lemma_index_of_unique(ord, hand, i);
    let rot = rotation(ord, i);
    assert(rot[0] == ord[i]);
    assert(rot.len() == n);
    let nx = crate::token_ring::next_in(ord, hand);
    let i2: int = if i == n - 1 {
        0
    } else {
        i + 1
    };
    assert(nx == ord[i2]);
    lemma_index_of_unique(ord, nx, i2);
    let rot2 = rotation(ord, i2);
    assert(rot2 =~= rot.drop_first().push(hand)) by {
        assert(rot.drop_first().push(hand).len() == n);
        assert forall|j: int| 0 <= j < n implies rot2[j] == rot.drop_first().push(hand)[j] by {
            if j < n - 1 {
                assert(rot.drop_first()[j] == rot[j + 1]);
                if i2 + j < n {
                    assert(rot2[j] == ord[i2 + j]);
                } else {
                    assert(rot2[j] == ord[i2 + j - n]);
                }
                if i + j + 1 < n {
                    assert(rot[j + 1] == ord[i + j + 1]);
                } else {
                    assert(rot[j + 1] == ord[i + j + 1 - n]);
                }
            } else {
                assert(rot2[n - 1] == ord[if i2 == 0 { n - 1 } else { i2 - 1 }]);
                assert(ord[if i2 == 0 { n - 1 } else { i2 - 1 }] == hand);
            }
        }
    }
    // a matching slot sits somewhere in rot.drop_first()
    let j = choose|j: int| 0 <= j < ord.len() && kind_at(slots, #[trigger] ord[j], k);
    assert(j != i);
    let p: int = if j >= i {
        j - i
    } else {
        n - i + j
    };
    assert(1 <= p < n);
    assert(rot[p] == ord[j]) by {
        if j >= i {
            assert(rot[p] == ord.subrange(i, n)[p]);
        } else {
            assert(rot[p] == ord.subrange(0, i)[p - (n - i)]);
        }
    }
    assert(rot.drop_first()[p - 1] == ord[j]);
    assert(exists|q: int|
        0 <= q < rot.drop_first().len() && kind_at(slots, #[trigger] rot.drop_first()[q], k));
    lemma_first_match_push(rot.drop_first(), slots, hand, k);
    assert(first_match(rot, slots, k) == 1 + first_match(rot.drop_first(), slots, k));
}

/// Tallies and the potential depend only on what `slot_at` reads.
pub proof fn lemma_count_congruence<K, V>(
    ord: Seq<usize>,
    s1: Seq<Option<Node<K, V>>>,
    s2: Seq<Option<Node<K, V>>>,
    k: Kind,
)
    requires
        forall|u: usize| slot_at(s1, u) == slot_at(s2, u),
    ensures
        tally(ord, s1, k) == tally(ord, s2, k),
        phi(ord, s1) == phi(ord, s2),
    decreases ord.len(),
{
    if ord.len() > 0 {
        lemma_count_congruence(ord.drop_last(), s1, s2, k);
        assert(slot_at(s1, ord.last()) == slot_at(s2, ord.last()));
    }
}

/// A slot of kind `k` occurs along `ord` exactly when it occurs along any
/// rotation of `ord`.
pub proof fn lemma_rotation_match<K, V>(
    ord: Seq<usize>,
    slots: Seq<Option<Node<K, V>>>,
    j: int,
    k: Kind,
)
    requires
        0 <= j < ord.len(),
    ensures
        (exists|i: int| 0 <= i < ord.len() && kind_at(slots, #[trigger] ord[i], k)) <==> (exists|
            i: int,
        |
            0 <= i < rotation(ord, j).len() && kind_at(slots, #[trigger] rotation(ord, j)[i], k)),
{
    let rot = rotation(ord, j);
    let n = ord.len() as int;
    assert(rot.len() == n);
    if exists|i: int| 0 <= i < ord.len() && kind_at(slots, #[trigger] ord[i], k) {
        let i = choose|i: int| 0 <= i < ord.len() && kind_at(slots, #[trigger] ord[i], k);
        let p: int = if i >= j {
            i - j
        } else {
            n - j + i
        };
        assert(rot[p] == ord[i]) by {
            if i >= j {
                assert(rot[p] == ord.subrange(j, n)[p]);
            } else {
                assert(rot[p] == ord.subrange(0, j)[p - (n - j)]);
            }
        }
        assert(kind_at(slots, rot[p], k));
    }
    if exists|i: int| 0 <= i < rot.len() && kind_at(slots, #[trigger] rot[i], k) {
        let i = choose|i: int| 0 <= i < rot.len() && kind_at(slots, #[trigger] rot[i], k);
        let p: int = if i < n - j {
            i + j
        } else {
            i - (n - j)
        };
        assert(ord[p] == rot[i]) by {
            if i < n - j {
                assert(rot[i] == ord.subrange(j, n)[i]);
            } else {
                assert(rot[i] == ord.subrange(0, j)[i - (n - j)]);
            }
        }
        assert(kind_at(slots, ord[p], k));
    }
}

/// Stepping a hand forward off a slot that is not of kind `k` never moves the
/// first slot of kind `k` further away.
pub proof fn lemma_dist_step<K, V>(
    ord: Seq<usize>,
    slots: Seq<Option<Node<K, V>>>,
    hand: usize,
    k: Kind,
)
    requires
        ord.no_duplicates(),
        ord.contains(hand),
        !kind_at(slots, hand, k),
    ensures
        dist(ord, slots, crate::token_ring::next_in(ord, hand), k) <= dist(ord, slots, hand, k),
{
    let n = ord.len() as int;
    let i = ord.index_of(hand);
    assert(ord[i] == hand);
    lemma_index_of_unique(ord, hand, i);
    if exists|j: int| 0 <= j < ord.len() && kind_at(slots, #[trigger] ord[j], k) {
        lemma_dist_advance(ord, slots, hand, k);
    } else {
        let nx = crate::token_ring::next_in(ord, hand);
        let i2: int = if i == n - 1 {
            0
        } else {
            i + 1
        };
        assert(nx == ord[i2]);
        lemma_index_of_unique(ord, nx, i2);
        lemma_rotation_match(ord, slots, i, k);
        lemma_rotation_match(ord, slots, i2, k);
        lemma_first_match_range(rotation(ord, i), slots, k);
        lemma_first_match_range(rotation(ord, i2), slots, k);
        assert(rotation(ord, i).len() == n);
        assert(rotation(ord, i2).len() == n);
    }
}

/// In a duplicate-free sequence the chosen index of a contained value is the
/// only index that holds it.
pub proof fn lemma_index_of_unique(ord: Seq<usize>, t: usize, i: int)
    requires
        ord.no_duplicates(),
        0 <= i < ord.len(),
        ord[i] == t,
    ensures
        ord.index_of(t) == i,
{
    assert(ord.contains(t));
    let w = ord.index_of(t);
    assert(ord[w] == t);
    if w != i {
        assert(false);
    }
}

} // verus!



