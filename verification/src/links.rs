//! The symmetric table of live client/upstream pairings.

use std::collections::HashMap;
use vstd::prelude::*;

verus! {

/// A table is symmetric when every entry has its mirror image and nothing is
/// paired with itself.
pub open spec fn symmetric(m: Map<usize, usize>) -> bool {
    forall|a: usize|
        (#[trigger] m.contains_key(a)) ==> m[a] != a && m.contains_key(m[a]) && m[m[a]] == a
}

/// The table without any pairing.
pub open spec fn no_links() -> Map<usize, usize> {
    Map::empty()
}

/// The partner recorded for a token, if any.
pub open spec fn spec_partner(m: Map<usize, usize>, a: usize) -> Option<usize> {
    if m.contains_key(a) {
        Some(m[a])
    } else {
        None
    }
}

/// Whether two tokens can be paired: they differ and neither has a partner.
pub open spec fn linkable(m: Map<usize, usize>, a: usize, b: usize) -> bool {
    a != b && !m.contains_key(a) && !m.contains_key(b)
}

/// The table after pairing two tokens; unchanged when they cannot be paired.
pub open spec fn spec_link(m: Map<usize, usize>, a: usize, b: usize) -> Map<usize, usize> {
    if linkable(m, a, b) {
        m.insert(a, b).insert(b, a)
    } else {
        m
    }
}

/// The table after a token's pairing is dissolved: both directions go.
pub open spec fn spec_unlink(m: Map<usize, usize>, a: usize) -> Map<usize, usize> {
    if m.contains_key(a) {
        m.remove(a).remove(m[a])
    } else {
        m
    }
}

/// Pairings stored as two entries each, one per direction.
pub struct LinkTable {
    map: HashMap<usize, usize>,
}

impl View for LinkTable {
    type V = Map<usize, usize>;

    closed spec fn view(&self) -> Map<usize, usize> {
        self.map@
    }
}

impl LinkTable {
    /// The table is symmetric and holds finitely many entries.
    pub open spec fn wf(&self) -> bool {
        symmetric(self@) && self@.dom().finite()
    }

    /// The empty table.
    pub fn new() -> (t: LinkTable)
        ensures
            t.wf(),
            t@ == no_links(),
    {
        LinkTable { map: HashMap::new() }
    }

    /// Number of entries: two per pairing.
    pub fn len(&self) -> (n: usize)
        ensures
            n == self@.len(),
    {
        self.map.len()
    }

    /// The partner of a token, if it has one.
    pub fn partner(&self, a: usize) -> (r: Option<usize>)
        ensures
            r == spec_partner(self@, a),
    {
        match self.map.get(&a) {
            Some(b) => Some(*b),
            None => None,
        }
    }

    /// Pairs two tokens in both directions, or refuses and changes nothing
    /// when they are the same token or either already has a partner.
    pub fn link(&mut self, a: usize, b: usize) -> (linked: bool)
        requires
            old(self).wf(),
        ensures
            final(self).wf(),
            linked == linkable(old(self)@, a, b),
            final(self)@ == spec_link(old(self)@, a, b),
    {
        if a == b || self.map.contains_key(&a) || self.map.contains_key(&b) {
            return false;
        }
        self.map.insert(b, a);
        self.map.insert(a, b);
        proof {
            assert(self@ =~= old(self)@.insert(a, b).insert(b, a));
            lemma_link_symmetric(old(self)@, a, b);
        }
        true
    }

    /// Dissolves a token's pairing in both directions and answers who the
    /// partner was; a token without a partner changes nothing.
    pub fn unlink(&mut self, a: usize) -> (r: Option<usize>)
        requires
            old(self).wf(),
        ensures
            final(self).wf(),
            r == spec_partner(old(self)@, a),
            final(self)@ == spec_unlink(old(self)@, a),
    {
        match self.map.remove(&a) {
            Some(b) => {
                self.map.remove(&b);
                proof {
                    lemma_unlink_both(old(self)@, a);
                }
                Some(b)
            },
            None => None,
        }
    }
}

/// Link symmetry: after two pairable tokens are linked, each one's partner is
/// the other, and the table is still symmetric.
pub proof fn lemma_link_symmetric(m: Map<usize, usize>, a: usize, b: usize)
    requires
        symmetric(m),
        linkable(m, a, b),
    ensures
        spec_partner(spec_link(m, a, b), a) == Some(b),
        spec_partner(spec_link(m, a, b), b) == Some(a),
        symmetric(spec_link(m, a, b)),
{
    let n = spec_link(m, a, b);
    assert forall|x: usize| #[trigger] n.contains_key(x) implies n[x] != x && n.contains_key(n[x])
        && n[n[x]] == x by {
        if x != a && x != b {
            assert(m.contains_key(x));
            assert(m.contains_key(m[x]));
        }
    }
}

/// Unlinking removes both directions at once: neither the token nor its
/// former partner has a partner afterwards, every other pairing is untouched,
/// and the table is still symmetric.
pub proof fn lemma_unlink_both(m: Map<usize, usize>, a: usize)
    requires
        symmetric(m),
        m.contains_key(a),
    ensures
        spec_partner(spec_unlink(m, a), a) == None::<usize>,
        spec_partner(spec_unlink(m, a), m[a]) == None::<usize>,
        forall|x: usize|
            x != a && x != m[a] ==> spec_partner(spec_unlink(m, a), x) == spec_partner(m, x),
        symmetric(spec_unlink(m, a)),
{
    let n = spec_unlink(m, a);
    let b = m[a];
    assert(m.contains_key(b) && m[b] == a);
    assert forall|x: usize| #[trigger] n.contains_key(x) implies n[x] != x && n.contains_key(n[x])
        && n[n[x]] == x by {
        assert(m.contains_key(x));
        assert(m.contains_key(m[x]));
        if m[x] == a {
            assert(m[m[x]] == x);
        }
        if m[x] == b {
            assert(m[m[x]] == x);
        }
    }
}

} // verus!
