//! A small set of tokens that keeps the order in which they were added.

use vstd::prelude::*;

verus! {

/// Set of tokens without repetition. Its view is the mathematical set.
pub struct TokenSet {
    items: Vec<usize>,
}

impl View for TokenSet {
    type V = Set<usize>;

    closed spec fn view(&self) -> Set<usize> {
        self.items@.to_set()
    }
}

impl TokenSet {
    /// No token is stored twice.
    pub closed spec fn wf(&self) -> bool {
        self.items@.no_duplicates()
    }

    /// The members in insertion order.
    pub closed spec fn order(&self) -> Seq<usize> {
        self.items@
    }

    /// The order lists exactly the members, each once.
    pub proof fn lemma_order(&self)
        requires
            self.wf(),
        ensures
            self.order().no_duplicates(),
            self.order().to_set() == self@,
            self@.finite(),
            self@.len() == self.order().len(),
    {
        self.items@.unique_seq_to_set();
    }

    /// The empty set.
    pub fn new() -> (s: TokenSet)
        ensures
            s.wf(),
            s@ == Set::<usize>::empty(),
            s.order() == Seq::<usize>::empty(),
    {
        let s = TokenSet { items: Vec::new() };
        assert(s.items@.to_set() =~= Set::<usize>::empty());
        s
    }

    /// Number of members.
    pub fn len(&self) -> (n: usize)
        requires
            self.wf(),
        ensures
            n == self@.len(),
            n == self.order().len(),
    {
        proof {
            self.items@.unique_seq_to_set();
        }
        self.items.len()
    }

    /// Whether the set has no member.
    pub fn is_empty(&self) -> (b: bool)
        ensures
            b == (self@ == Set::<usize>::empty()),
    {
        let b = self.items.len() == 0;
        proof {
            if b {
                assert(self.items@.to_set() =~= Set::<usize>::empty());
            } else {
                assert(self.items@.to_set().contains(self.items@[0]));
            }
        }
        b
    }

    /// The member at a position of the insertion order.
    pub fn at(&self, i: usize) -> (t: usize)
        requires
            i < self.order().len(),
        ensures
            t == self.order()[i as int],
            self@.contains(t),
    {
        assert(self.items@.to_set().contains(self.items@[i as int]));
        self.items[i]
    }

    /// Whether a token is a member.
    pub fn contains(&self, token: usize) -> (b: bool)
        ensures
            b == self@.contains(token),
    {
        let mut i: usize = 0;
        while i < self.items.len()
            invariant
                i <= self.items@.len(),
                forall|j: int| 0 <= j < i ==> self.items@[j] != token,
            decreases self.items@.len() - i,
        {
            if self.items[i] == token {
                assert(self.items@.to_set().contains(self.items@[i as int]));
                return true;
            }
            i += 1;
        }
        false
    }

    /// Adds a token; answers whether it was new.
    pub fn insert(&mut self, token: usize) -> (added: bool)
        requires
            old(self).wf(),
        ensures
            final(self).wf(),
            final(self)@ == old(self)@.insert(token),
            added == !old(self)@.contains(token),
            final(self).order() == (if added {
                old(self).order().push(token)
            } else {
                old(self).order()
            }),
    {
        if self.contains(token) {
            assert(self@.insert(token) =~= self@);
            return false;
        }
        self.items.push(token);
        proof {
            let before = old(self).items@;
            let after = self.items@;
            assert forall|x: usize| after.to_set().contains(x) == before.to_set().insert(
                token,
            ).contains(x) by {
                if after.contains(x) {
                    let j = choose|j: int| 0 <= j < after.len() && after[j] == x;
                    if j < before.len() {
                        assert(before[j] == x);
                    }
                }
                if before.contains(x) {
                    let j = choose|j: int| 0 <= j < before.len() && before[j] == x;
                    assert(after[j] == x);
                }
                assert(after[before.len() as int] == token);
            }
            assert(after.to_set() =~= before.to_set().insert(token));
        }
        true
    }

    /// Takes a token out; answers whether it was a member.
    pub fn remove(&mut self, token: usize) -> (removed: bool)
        requires
            old(self).wf(),
        ensures
            final(self).wf(),
            final(self)@ == old(self)@.remove(token),
            removed == old(self)@.contains(token),
            final(self).order() == (if removed {
                old(self).order().remove(old(self).order().index_of(token))
            } else {
                old(self).order()
            }),
    {
        let mut i: usize = 0;
        while i < self.items.len()
            invariant
                i <= self.items@.len(),
                self.items@ == old(self).items@,
                self.items@.no_duplicates(),
                forall|j: int| 0 <= j < i ==> self.items@[j] != token,
            decreases self.items@.len() - i,
        {
            if self.items[i] == token {
                self.items.remove(i);
                proof {
                    let before = old(self).items@;
                    let after = self.items@;
                    assert(after =~= before.remove(i as int));
                    assert(before[i as int] == token);
                    assert(before.index_of(token) == i) by {
                        let k = before.index_of(token);
                        assert(0 <= k < before.len() && before[k] == token);
                    }
                    assert forall|j: int, k: int|
                        0 <= j < after.len() && 0 <= k < after.len() && j != k implies after[j]
                        != after[k] by {
                        let jj = if j < i { j } else { j + 1 };
                        let kk = if k < i { k } else { k + 1 };
                        assert(before[jj] == after[j] && before[kk] == after[k]);
                    }
                    assert forall|x: usize| after.to_set().contains(x) == before.to_set().remove(
                        token,
                    ).contains(x) by {
                        if after.contains(x) {
                            let j = choose|j: int| 0 <= j < after.len() && after[j] == x;
                            if j < i {
                                assert(before[j] == x);
                            } else {
                                assert(before[j + 1] == x);
                            }
                        }
                        if before.contains(x) && x != token {
                            let j = choose|j: int| 0 <= j < before.len() && before[j] == x;
                            if j < i {
                                assert(after[j] == x);
                            } else {
                                assert(after[j - 1] == x);
                            }
                        }
                    }
                    assert(after.to_set() =~= before.to_set().remove(token));
                }
                return true;
            }
            i += 1;
        }
        assert(self@.remove(token) =~= self@);
        false
    }
}

} // verus!
