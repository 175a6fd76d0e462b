//! Bounded, reusable-slot storage for the connections the reactor tracks.

use slab::Slab;
use vstd::prelude::*;

verus! {

/// Hard ceiling on the number of connections a registry may be built for.
pub const MAX_PUMPS: usize = 1048576;

/// Readiness a connection wants to be woken for.
#[derive(Clone, Copy, PartialEq, Eq, Structural, Debug)]
pub struct Interest {
    pub readable: bool,
    pub writable: bool,
}

/// The registry that holds nothing.
pub open spec fn no_entries() -> Map<usize, Interest> {
    Map::empty()
}

#[verifier::external_type_specification]
#[verifier::external_body]
#[verifier::reject_recursive_types(T)]
pub struct ExSlab<T>(Slab<T>);

/// The occupied slots of a slab, keyed by slot index.
pub uninterp spec fn slab_entries(s: Slab<Interest>) -> Map<usize, Interest>;

/// The number of slots a slab has handed out so far, occupied or vacant.
pub uninterp spec fn slab_slots(s: Slab<Interest>) -> nat;

/// `Slab::with_capacity`: a slab with room reserved and no slot handed out.
/// The reservation is bounded so that the allocation cannot overflow.
#[verifier::external_body]
fn slab_with_capacity(capacity: usize) -> (s: Slab<Interest>)
    requires
        capacity <= MAX_PUMPS,
    ensures
        slab_entries(s) == no_entries(),
        slab_slots(s) == 0,
{
    Slab::with_capacity(capacity)
}

/// `Slab::len`: the number of occupied slots.
#[verifier::external_body]
fn slab_len(s: &Slab<Interest>) -> (n: usize)
    ensures
        n == slab_entries(*s).len(),
{
    s.len()
}

/// `Slab::get`: the value in an occupied slot, nothing for any other index.
#[verifier::external_body]
fn slab_get(s: &Slab<Interest>, key: usize) -> (r: Option<Interest>)
    ensures
        r == (if slab_entries(*s).contains_key(key) {
            Some(slab_entries(*s)[key])
        } else {
            None
        }),
{
    s.get(key).copied()
}

/// `Slab::insert`: stores the value in a slot that was vacant and returns its
/// index. A vacant slot among those already handed out is reused; a new slot
/// is handed out only when every earlier one is occupied.
#[verifier::external_body]
fn slab_insert(s: &mut Slab<Interest>, val: Interest) -> (key: usize)
    requires
        slab_slots(*old(s)) <= MAX_PUMPS,
    ensures
        !slab_entries(*old(s)).contains_key(key),
        slab_entries(*final(s)) == slab_entries(*old(s)).insert(key, val),
        key < slab_slots(*final(s)),
        slab_slots(*final(s)) == (if slab_entries(*old(s)).len() == slab_slots(*old(s)) {
            slab_slots(*old(s)) + 1
        } else {
            slab_slots(*old(s))
        }),
{
    s.insert(val)
}

/// `Slab::get_mut`, used to overwrite the value of an occupied slot in place.
#[verifier::external_body]
fn slab_set(s: &mut Slab<Interest>, key: usize, val: Interest)
    requires
        slab_entries(*old(s)).contains_key(key),
    ensures
        slab_entries(*final(s)) == slab_entries(*old(s)).insert(key, val),
        slab_slots(*final(s)) == slab_slots(*old(s)),
{
    match s.get_mut(key) {
        Some(slot) => *slot = val,
        None => {},
    }
}

/// `Slab::remove`: vacates an occupied slot and returns its value. The slot
/// stays among those handed out and may be returned by a later insertion.
#[verifier::external_body]
fn slab_remove(s: &mut Slab<Interest>, key: usize) -> (val: Interest)
    requires
        slab_entries(*old(s)).contains_key(key),
    ensures
        val == slab_entries(*old(s))[key],
        slab_entries(*final(s)) == slab_entries(*old(s)).remove(key),
        slab_slots(*final(s)) == slab_slots(*old(s)),
{
    s.remove(key)
}

/// Dense table from token to the interest last recorded for that connection.
///
/// Its view is the map of live tokens. A registry never holds more entries
/// than the limit it was built with, and every live token is below that limit.
pub struct Registry {
    slab: Slab<Interest>,
    limit: usize,
}

impl View for Registry {
    type V = Map<usize, Interest>;

    closed spec fn view(&self) -> Map<usize, Interest> {
        slab_entries(self.slab)
    }
}

impl Registry {
    /// The number of entries at which insertion is refused.
    pub closed spec fn spec_limit(&self) -> nat {
        self.limit as nat
    }

    /// The limit is within `MAX_PUMPS`, the entries are finitely many, and
    /// no slot beyond the limit was ever handed out.
    pub closed spec fn wf(&self) -> bool {
        &&& self.limit <= MAX_PUMPS
        &&& slab_entries(self.slab).dom().finite()
        &&& slab_slots(self.slab) <= self.limit
        &&& forall|k: usize|
            (#[trigger] slab_entries(self.slab).contains_key(k)) ==> k < slab_slots(self.slab)
    }

    /// What `get` answers for a token, given the live entries.
    pub open spec fn spec_get(m: Map<usize, Interest>, token: usize) -> Option<Interest> {
        if m.contains_key(token) {
            Some(m[token])
        } else {
            None
        }
    }

    /// Every live token is below the limit, hence below `MAX_PUMPS`.
    pub proof fn lemma_tokens_below_limit(&self, token: usize)
        requires
            self.wf(),
            self@.contains_key(token),
        ensures
            token < self.spec_limit(),
            self.spec_limit() <= MAX_PUMPS,
            self@.dom().finite(),
    {
    }

    /// The limit never exceeds `MAX_PUMPS`, and the entries are finitely many.
    pub proof fn lemma_limit(&self)
        requires
            self.wf(),
        ensures
            self.spec_limit() <= MAX_PUMPS,
            self@.dom().finite(),
    {
    }

    /// An empty registry that admits `limit` entries.
    pub fn new(limit: usize) -> (r: Registry)
        requires
            limit <= MAX_PUMPS,
        ensures
            r.wf(),
            r@ == no_entries(),
            r.spec_limit() == limit,
    {
        Registry { slab: slab_with_capacity(limit), limit }
    }

    /// Number of live entries.
    pub fn len(&self) -> (n: usize)
        requires
            self.wf(),
        ensures
            n == self@.len(),
            self@.dom().finite(),
    {
        slab_len(&self.slab)
    }

    /// The number of entries at which insertion is refused.
    pub fn limit(&self) -> (n: usize)
        ensures
            n == self.spec_limit(),
    {
        self.limit
    }

    /// Whether one more connection would be admitted.
    pub fn has_room(&self) -> (b: bool)
        requires
            self.wf(),
        ensures
            b == (self@.len() < self.spec_limit()),
    {
        slab_len(&self.slab) < self.limit
    }

    /// Whether a token has a live slot.
    pub fn contains(&self, token: usize) -> (b: bool)
        ensures
            b == self@.contains_key(token),
    {
        slab_get(&self.slab, token).is_some()
    }

    /// What is stored under a token; nothing if its slot is not live.
    pub fn get(&self, token: usize) -> (r: Option<Interest>)
        ensures
            r == Self::spec_get(self@, token),
    {
        slab_get(&self.slab, token)
    }

    /// Stores a connection's interest under a fresh token, or refuses when the
    /// registry already holds as many entries as its limit. A refusal leaves
    /// every entry as it was.
    pub fn insert(&mut self, interest: Interest) -> (r: Option<usize>)
        requires
            old(self).wf(),
        ensures
            final(self).wf(),
            final(self).spec_limit() == old(self).spec_limit(),
            r.is_some() == (old(self)@.len() < old(self).spec_limit()),
            match r {
                Some(token) => {
                    &&& !old(self)@.contains_key(token)
                    &&& token < old(self).spec_limit()
                    &&& final(self)@ == old(self)@.insert(token, interest)
                },
                None => final(self)@ == old(self)@,
            },
    {
        if slab_len(&self.slab) >= self.limit {
            return None;
        }
        let token = slab_insert(&mut self.slab, interest);
        Some(token)
    }

    /// Replaces the interest recorded for a live token; any other token is
    /// left alone and reported as absent.
    pub fn record(&mut self, token: usize, interest: Interest) -> (known: bool)
        requires
            old(self).wf(),
        ensures
            final(self).wf(),
            final(self).spec_limit() == old(self).spec_limit(),
            known == old(self)@.contains_key(token),
            final(self)@ == (if known {
                old(self)@.insert(token, interest)
            } else {
                old(self)@
            }),
    {
        if slab_get(&self.slab, token).is_none() {
            return false;
        }
        slab_set(&mut self.slab, token, interest);
        true
    }

    /// Frees the slot of a live token and hands back what was stored there.
    pub fn remove(&mut self, token: usize) -> (r: Interest)
        requires
            old(self).wf(),
            old(self)@.contains_key(token),
        ensures
            final(self).wf(),
            final(self).spec_limit() == old(self).spec_limit(),
            r == old(self)@[token],
            final(self)@ == old(self)@.remove(token),
    {
        slab_remove(&mut self.slab, token)
    }
}

/// Slot reuse safety: once a token has been removed, looking it up finds
/// nothing, whatever the registry held before.
pub proof fn lemma_removed_token_is_absent(m: Map<usize, Interest>, token: usize)
    ensures
        Registry::spec_get(m.remove(token), token) == None::<Interest>,
{
}

/// One change to the entries: a value stored under a token, or a token
/// removed.
pub enum Change {
    Insert(usize, Interest),
    Remove(usize),
}

/// The entries after a sequence of changes, first to last.
pub open spec fn spec_apply(m: Map<usize, Interest>, changes: Seq<Change>) -> Map<usize, Interest>
    decreases changes.len(),
{
    if changes.len() == 0 {
        m
    } else {
        let before = spec_apply(m, changes.drop_last());
        match changes.last() {
            Change::Insert(token, interest) => before.insert(token, interest),
            Change::Remove(token) => before.remove(token),
        }
    }
}

/// A removed token stays absent through any sequence of insertions and
/// removals, until an insertion hands that very token out again.
pub proof fn lemma_removed_token_stays_absent(
    m: Map<usize, Interest>,
    token: usize,
    changes: Seq<Change>,
)
    requires
        forall|i: int, interest: Interest|
            0 <= i < changes.len() ==> changes[i] != Change::Insert(token, interest),
    ensures
        Registry::spec_get(spec_apply(m.remove(token), changes), token) == None::<Interest>,
    decreases changes.len(),
{
    if changes.len() > 0 {
        let earlier = changes.drop_last();
        assert forall|i: int, interest: Interest| 0 <= i < earlier.len() implies earlier[i]
            != Change::Insert(token, interest) by {
            assert(earlier[i] == changes[i]);
        }
        lemma_removed_token_stays_absent(m, token, earlier);
        match changes.last() {
            Change::Insert(t, interest) => {
                assert(changes[changes.len() - 1] != Change::Insert(token, interest));
            },
            Change::Remove(t) => {},
        }
    }
}

/// Inserting under one token or removing another leaves what is stored
/// under every other token as it was, and an inserted value is found under
/// its token.
pub proof fn lemma_other_tokens_untouched(
    m: Map<usize, Interest>,
    token: usize,
    other: usize,
    interest: Interest,
)
    requires
        other != token,
    ensures
        Registry::spec_get(m.insert(other, interest), token) == Registry::spec_get(m, token),
        Registry::spec_get(m.remove(other), token) == Registry::spec_get(m, token),
        Registry::spec_get(m.insert(other, interest), other) == Some(interest),
{
}

} // verus!
