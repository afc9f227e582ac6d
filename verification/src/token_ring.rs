//! The ring of tokens.
//!
//! A `TokenRing` is a circular sequence of distinct integer tokens. Tokens are
//! handed out by a slab allocator, so a token stays stable while it is in the
//! ring and may be reused after it leaves. The cyclic order itself is kept in
//! a dense vector; `next_for_token` and `prev_for_token` wrap around its ends.

use vstd::prelude::*;

verus! {

/// Declares the slab arena type so it can appear in fields and signatures.
#[verifier::external_type_specification]
#[verifier::external_body]
#[verifier::reject_recursive_types(T)]
pub struct ExSlab<T>(slab::Slab<T>);

/// The set of keys currently occupied in a slab of unit values.
pub uninterp spec fn slab_keys(s: &slab::Slab<()>) -> Set<usize>;

/// Relies on slab::Slab::with_capacity: a freshly built slab holds no entries.
#[verifier::external_body]
fn slab_with_capacity(capacity: usize) -> (s: slab::Slab<()>)
    ensures
        slab_keys(&s) == Set::<usize>::empty(),
{
    slab::Slab::with_capacity(capacity)
}

/// Relies on slab::Slab::insert: it stores the value under a vacant key and
/// returns that key, so the key is not occupied before the call and is
/// occupied after it.
#[verifier::external_body]
fn slab_insert(s: &mut slab::Slab<()>) -> (t: usize)
    ensures
        !slab_keys(old(s)).contains(t),
        slab_keys(final(s)) == slab_keys(old(s)).insert(t),
{
    s.insert(())
}

/// Relies on slab::Slab::remove: it frees an occupied key; the key must be
/// occupied, since slab panics on a vacant one.
#[verifier::external_body]
fn slab_remove(s: &mut slab::Slab<()>, t: usize)
    requires
        slab_keys(old(s)).contains(t),
    ensures
        slab_keys(final(s)) == slab_keys(old(s)).remove(t),
{
    s.remove(t);
}

/// The successor of `t` in the cyclic order `ord`: the token after `t`,
/// wrapping from the last position back to the first.
pub open spec fn next_in(ord: Seq<usize>, t: usize) -> usize {
    let i = ord.index_of(t);
    if i == ord.len() - 1 {
        ord[0]
    } else {
        ord[i + 1]
    }
}

/// The predecessor of `t` in the cyclic order `ord`.
pub open spec fn prev_in(ord: Seq<usize>, t: usize) -> usize {
    let i = ord.index_of(t);
    if i == 0 {
        ord[ord.len() - 1]
    } else {
        ord[i - 1]
    }
}

pub struct TokenRing {
    cap: usize,
    tokens: Vec<usize>,
    arena: slab::Slab<()>,
}

impl TokenRing {
    /// The tokens of the ring in cyclic order.
    pub closed spec fn order(&self) -> Seq<usize> {
        self.tokens@
    }

    /// The capacity the ring was built with.
    pub closed spec fn cap_spec(&self) -> nat {
        self.cap as nat
    }

    /// Structural well-formedness: the tokens are distinct, they are exactly
    /// the keys occupied in the arena, and they fit the capacity.
    pub closed spec fn wf(&self) -> bool {
        &&& self.tokens@.no_duplicates()
        &&& slab_keys(&self.arena) == self.tokens@.to_set()
        &&& 1 <= self.cap
        &&& self.tokens@.len() <= self.cap
    }

    /// The facts of well-formedness that callers outside this module need.
    pub proof fn lemma_wf_order(&self)
        requires
            self.wf(),
        ensures
            self.order().no_duplicates(),
            self.order().len() <= self.cap_spec(),
    {
    }

    pub fn with_capacity(capacity: usize) -> (r: Self)
        requires
            capacity >= 1,
        ensures
            r.wf(),
            r.order() == Seq::<usize>::empty(),
            r.cap_spec() == capacity,
    {
        let r = TokenRing { cap: capacity, tokens: Vec::new(), arena: slab_with_capacity(capacity) };
        proof {
            assert(r.tokens@ =~= Seq::<usize>::empty());
            assert(r.tokens@.to_set() =~= Set::<usize>::empty());
        }
        r
    }

    pub fn len(&self) -> (n: usize)
        ensures
            n == self.order().len(),
    {
        self.tokens.len()
    }

    /// The position of `t` in the order. Private search used by the
    /// neighbour and removal operations.
    fn position_of(&self, t: usize) -> (i: usize)
        requires
            self.wf(),
            self.order().contains(t),
        ensures
            i < self.order().len(),
            self.order()[i as int] == t,
            i == self.order().index_of(t),
    {
        let n = self.tokens.len();
        let mut i: usize = 0;
        while i < n
            invariant
                self.wf(),
                n == self.order().len(),
                self.order().contains(t),
                i <= n,
                forall|j: int| 0 <= j < i ==> self.order()[j] != t,
            decreases n - i,
        {
            if self.tokens[i] == t {
                proof {
                    crate::model::lemma_index_of_unique(self.order(), t, i as int);
                }
                return i;
            }
            i = i + 1;
        }
        proof {
            let w = self.order().index_of(t);
            assert(self.order()[w] == t);
        }
        unreached()
    }

    pub fn next_for_token(&self, t: usize) -> (r: usize)
        requires
            self.wf(),
            self.order().contains(t),
        ensures
            r == next_in(self.order(), t),
            self.order().contains(r),
    {
        let i = self.position_of(t);
        let n = self.tokens.len();
        let r = if i == n - 1 {
            self.tokens[0]
        } else {
            self.tokens[i + 1]
        };
        proof {
            assert(self.order().contains(self.order()[if i == n - 1 { 0int } else { i + 1 }]));
        }
        r
    }

    pub fn prev_for_token(&self, t: usize) -> (r: usize)
        requires
            self.wf(),
            self.order().contains(t),
        ensures
            r == prev_in(self.order(), t),
            self.order().contains(r),
    {
        let i = self.position_of(t);
        let n = self.tokens.len();
        let r = if i == 0 {
            self.tokens[n - 1]
        } else {
            self.tokens[i - 1]
        };
        proof {
            assert(self.order().contains(self.order()[if i == 0 { n - 1 } else { i - 1 }]));
        }
        r
    }

    pub fn remove(&mut self, t: usize)
        requires
            old(self).wf(),
            old(self).order().contains(t),
        ensures
            final(self).wf(),
            final(self).order() == old(self).order().remove(old(self).order().index_of(t)),
            final(self).cap_spec() == old(self).cap_spec(),
            forall|u: usize| #[trigger] final(self).order().contains(u)
                <==> (old(self).order().contains(u) && u != t),
            final(self).order().len() == old(self).order().len() - 1,
    {
        let i = self.position_of(t);
        let ghost pre = self.tokens@;
        self.tokens.remove(i);
        slab_remove(&mut self.arena, t);
        proof {
            let post = self.tokens@;
            assert(post =~= pre.remove(i as int));
            crate::model::lemma_index_of_unique(pre, t, i as int);
            assert(post.no_duplicates()) by {
                assert forall|j: int, k: int|
                    0 <= j < post.len() && 0 <= k < post.len() && j != k
                    implies post[j] != post[k] by {
                    let pj: int = if j < i { j } else { j + 1 };
                    let pk: int = if k < i { k } else { k + 1 };
                    assert(post[j] == pre[pj]);
                    assert(post[k] == pre[pk]);
                }
            }
            // membership both ways
            assert forall|u: usize| #[trigger] post.contains(u) implies (pre.contains(u) && u != t) by {
                let j = choose|j: int| 0 <= j < post.len() && post[j] == u;
                if j < i {
                    assert(pre[j] == u);
                } else {
                    assert(pre[j + 1] == u);
                }
                if u == t {
                    assert(!pre.no_duplicates());
                }
            }
            assert forall|u: usize| pre.contains(u) && u != t implies #[trigger] post.contains(u) by {
                let j = choose|j: int| 0 <= j < pre.len() && pre[j] == u;
                if j < i {
                    assert(post[j] == u);
                } else {
                    assert(j != i);
                    assert(post[j - 1] == u);
                }
            }
            assert(slab_keys(&self.arena) =~= post.to_set());
        }
    }

    /// Inserts a fresh token immediately before `to` in the cyclic order, so
    /// the new token is the one a forward sweep reaches last when standing on
    /// `to`. On an empty ring the anchor is ignored.
    pub fn insert_after(&mut self, to: usize) -> (t: usize)
        requires
            old(self).wf(),
            old(self).order().len() < old(self).cap_spec(),
            old(self).order().len() > 0 ==> old(self).order().contains(to),
        ensures
            final(self).wf(),
            !old(self).order().contains(t),
            final(self).cap_spec() == old(self).cap_spec(),
            final(self).order().len() == old(self).order().len() + 1,
            final(self).order() == (if old(self).order().len() == 0 {
                seq![t]
            } else if old(self).order().index_of(to) == 0 {
                old(self).order().push(t)
            } else {
                old(self).order().insert(old(self).order().index_of(to), t)
            }),
            forall|u: usize| #[trigger] final(self).order().contains(u)
                <==> (old(self).order().contains(u) || u == t),
    {
        let anchor = if self.tokens.len() == 0 {
            0
        } else {
            self.position_of(to)
        };
        let t = slab_insert(&mut self.arena);
        let i = anchor;
        let ghost pre = self.tokens@;
        proof {
            if pre.contains(t) {
                assert(pre.to_set().contains(t));
            }
        }
        if self.tokens.len() == 0 {
            self.tokens.push(t);
            proof {
                let post = self.tokens@;
                assert(post =~= seq![t]);
                assert forall|u: usize| #[trigger] post.contains(u) implies u == t by {
                    let j = choose|j: int| 0 <= j < post.len() && post[j] == u;
                }
                assert(post.contains(t)) by {
                    assert(post[0] == t);
                }
                assert(slab_keys(&self.arena) =~= post.to_set()) by {
                    assert(pre.to_set() =~= Set::<usize>::empty()) by {
                        assert(forall|u: usize| !pre.contains(u));
                    }
                    assert forall|u: usize| post.to_set().contains(u) implies
                        pre.to_set().insert(t).contains(u) by {}
                    assert forall|u: usize| pre.to_set().insert(t).contains(u) implies
                        #[trigger] post.to_set().contains(u) by {}
                }
                assert(forall|u: usize| !pre.contains(u));
            }
            t
        } else {
            if i == 0 {
                self.tokens.push(t);
            } else {
                self.tokens.insert(i, t);
            }
            proof {
                let post = self.tokens@;
                let ghost mid = if i == 0 { pre.push(t) } else { pre.insert(i as int, t) };
                assert(post =~= mid);
                if i == 0 {
                    assert(forall|j: int| 0 <= j < pre.len() ==> post[j] == pre[j]);
                } else {
                    assert(pre.insert(i as int, t) =~= pre.subrange(0, i as int) + seq![t]
                        + pre.subrange(i as int, pre.len() as int));
                }
                // membership both ways
                assert forall|u: usize| #[trigger] post.contains(u) implies (pre.contains(u) || u == t) by {
                    let j = choose|j: int| 0 <= j < post.len() && post[j] == u;
                    if i == 0 {
                        if j < pre.len() {
                            assert(pre[j] == u);
                        }
                    } else {
                        if j < i {
                            assert(pre[j] == u);
                        } else if j > i {
                            assert(post[j] == pre[j - 1]);
                        }
                    }
                }
                assert forall|u: usize| pre.contains(u) || u == t implies #[trigger] post.contains(u) by {
                    if u == t {
                        if i == 0 {
                            assert(post[pre.len() as int] == t);
                        } else {
                            assert(post[i as int] == t);
                        }
                    } else {
                        let j = choose|j: int| 0 <= j < pre.len() && pre[j] == u;
                        if i == 0 {
                            assert(post[j] == u);
                        } else if j < i {
                            assert(post[j] == u);
                        } else {
                            assert(post[j + 1] == pre[j]);
                        }
                    }
                }
                // distinctness
                assert(post.no_duplicates()) by {
                    assert forall|j: int, k: int| 0 <= j < post.len() && 0 <= k < post.len() && j != k
                        implies post[j] != post[k] by {
                        let pj = if i == 0 {
                            if j < pre.len() { pre[j] } else { t }
                        } else {
                            if j < i { pre[j] } else if j == i { t } else { pre[j - 1] }
                        };
                        let pk = if i == 0 {
                            if k < pre.len() { pre[k] } else { t }
                        } else {
                            if k < i { pre[k] } else if k == i { t } else { pre[k - 1] }
                        };
                        assert(post[j] == pj);
                        assert(post[k] == pk);
                        if pj == t && pk != t {
                            assert(pre.contains(pk));
                        } else if pk == t && pj != t {
                            assert(pre.contains(pj));
                        }
                    }
                }
                assert(slab_keys(&self.arena) =~= post.to_set()) by {
                    assert forall|u: usize| post.to_set().contains(u) implies
                        pre.to_set().insert(t).contains(u) by {
                        if u != t {
                            assert(pre.contains(u));
                        }
                    }
                    assert forall|u: usize| pre.to_set().insert(t).contains(u) implies
                        #[trigger] post.to_set().contains(u) by {
                        assert(post.contains(u));
                    }
                }
            }
            t
        }
    }
}

} // verus!
