//! The reactor's decisions. A driver delivers one readiness event with
//! `start`, performs the action it is handed, reports the outcome with
//! `resume`, and goes on until the event is finished. At the end of a batch
//! it activates the upstreams obtained in it and calls `reconcile`.

use crate::links::{
    linkable, no_links, spec_link, spec_partner, spec_unlink, symmetric, LinkTable,
};
use crate::registry::{no_entries, Interest, Registry, MAX_PUMPS};
use crate::secret::{
    derive_secret, hex_encode, seed_fits, sha256_digest, spec_hex, SECRET_LEN,
};
use crate::tokens::TokenSet;
use vstd::prelude::*;

verus! {

/// Token of the listening socket; no registry slot ever has this index.
pub const LISTENER: usize = usize::MAX - 1;

/// The facets of one readiness event.
#[derive(Clone, Copy, PartialEq, Eq, Structural, Debug)]
pub struct Readiness {
    pub readable: bool,
    pub writable: bool,
    pub hup: bool,
    pub error: bool,
}

/// What draining a readable connection brought.
#[derive(Clone, Copy, PartialEq, Eq, Structural, Debug)]
pub enum Drained {
    /// Enough bytes arrived to choose an upstream, named by its index.
    Routed(u64),
    /// Bytes were absorbed and nothing else was decided.
    Absorbed,
    /// The read failed.
    Failed,
}

/// The request the reactor is waiting to hear back about.
#[derive(Clone, Copy, PartialEq, Eq, Structural, Debug)]
pub enum Stage {
    Idle,
    Draining,
    Acquiring,
    FanningOut,
    PushingOut,
    FanningIn,
    PushingIn,
    Flushing,
    Arming,
}

/// The event in progress.
#[derive(Clone, Copy, PartialEq, Eq, Structural, Debug)]
pub struct Cursor {
    pub stage: Stage,
    pub token: usize,
    pub ready: Readiness,
}

/// What the driver must do next.
#[derive(Clone, Copy, PartialEq, Eq, Structural, Debug)]
pub enum Action {
    /// The event is finished; deliver the next one.
    Next,
    /// The event is finished and the rest of the batch is abandoned.
    Halt,
    /// Accept one inbound socket and offer it with `accept`; then go on.
    Accept,
    /// Drain the connection and report `Outcome::Drained`.
    Drain(usize),
    /// Ask the pool for the upstream with this index on behalf of the client.
    /// If one is obtained, move the client's buffered bytes into it and keep
    /// it aside until activation. Report `Outcome::Acquired`.
    Acquire(usize, u64),
    /// Pull the connection's buffered bytes and report `Outcome::Pulled`.
    Pull(usize),
    /// Push the bytes just pulled into `to`, re-arm `rearm` with its current
    /// interest and report that interest with `Outcome::Pushed`.
    Push { to: usize, rearm: usize },
    /// Flush the connection and report `Outcome::Flushed`.
    Flush(usize),
    /// Re-arm the connection with its current interest and report that
    /// interest with `Outcome::Armed`.
    Rearm(usize),
}

/// What the driver reports after performing an action.
#[derive(Clone, Copy, PartialEq, Eq, Structural, Debug)]
pub enum Outcome {
    Drained(Drained),
    /// Whether the pool supplied an upstream.
    Acquired(bool),
    /// How many bytes were pulled.
    Pulled(usize),
    Pushed(Interest),
    /// Whether the flush succeeded.
    Flushed(bool),
    Armed(Interest),
}

/// The reactor's bookkeeping as mathematical values.
pub struct State {
    /// Live tokens and the interest last recorded for each.
    pub pumps: Map<usize, Interest>,
    /// Entries the registry admits.
    pub limit: nat,
    pub links: Map<usize, usize>,
    pub detached: Set<usize>,
    /// Tokens to be torn down at the end of the cycle.
    pub stale: Set<usize>,
    /// Clients whose upstream awaits activation.
    pub pending: Set<usize>,
    pub cursor: Cursor,
}

/// What holds of the bookkeeping between any two calls.
pub open spec fn inv(s: State) -> bool {
    &&& symmetric(s.links)
    &&& forall|a: usize| s.links.contains_key(a) ==> s.pumps.contains_key(a)
    &&& forall|t: usize|
        s.detached.contains(t) ==> s.pumps.contains_key(t) && !s.links.contains_key(t)
    &&& forall|t: usize| s.stale.contains(t) ==> s.pumps.contains_key(t)
    &&& s.cursor.stage != Stage::Idle ==> s.pumps.contains_key(s.cursor.token)
}

/// Two states agree on links, detached set and live tokens, and the later
/// one's stale set holds at most one more token.
spec fn framed(now: State, before: State, token: usize) -> bool {
    &&& now.links == before.links
    &&& now.detached == before.detached
    &&& now.pumps.dom() =~= before.pumps.dom()
    &&& now.stale.subset_of(before.stale.insert(token))
}

/// The state with the cursor moved to a stage.
pub open spec fn at_stage(s: State, stage: Stage) -> State {
    State { cursor: Cursor { stage, ..s.cursor }, ..s }
}

/// The state with one more token marked stale.
pub open spec fn marked_stale(s: State, token: usize) -> State {
    State { stale: s.stale.insert(token), ..s }
}

/// The entries after a connection reported its interest.
pub open spec fn recorded(m: Map<usize, Interest>, token: usize, interest: Interest) -> Map<
    usize,
    Interest,
> {
    if m.contains_key(token) {
        m.insert(token, interest)
    } else {
        m
    }
}

/// Last facet of an event: hangup or error marks the token stale and wins
/// over re-arming.
pub open spec fn close_phase(s: State) -> (State, Action) {
    if s.cursor.ready.hup || s.cursor.ready.error {
        (at_stage(marked_stale(s, s.cursor.token), Stage::Idle), Action::Next)
    } else {
        (at_stage(s, Stage::Arming), Action::Rearm(s.cursor.token))
    }
}

/// Writable facet: fan in from the partner if there is one, then flush.
pub open spec fn write_phase(s: State) -> (State, Action) {
    if s.cursor.ready.writable {
        match spec_partner(s.links, s.cursor.token) {
            Some(p) => (at_stage(s, Stage::FanningIn), Action::Pull(p)),
            None => (at_stage(s, Stage::Flushing), Action::Flush(s.cursor.token)),
        }
    } else {
        close_phase(s)
    }
}

/// After a drain that did not fail: fan out to the partner if there is one.
pub open spec fn fan_out_phase(s: State) -> (State, Action) {
    match spec_partner(s.links, s.cursor.token) {
        Some(p) => (at_stage(s, Stage::FanningOut), Action::Pull(s.cursor.token)),
        None => write_phase(s),
    }
}

/// The first step for a delivered event.
pub open spec fn spec_start(s: State, token: usize, ready: Readiness) -> (State, Action) {
    let idle = at_stage(s, Stage::Idle);
    if token == LISTENER {
        if s.pumps.len() < s.limit {
            (idle, Action::Accept)
        } else {
            (idle, Action::Next)
        }
    } else if !s.pumps.contains_key(token) {
        (idle, Action::Next)
    } else {
        let begun = State { cursor: Cursor { stage: Stage::Idle, token, ready }, ..s };
        if ready.readable {
            (at_stage(begun, Stage::Draining), Action::Drain(token))
        } else {
            write_phase(begun)
        }
    }
}

/// The step that follows an outcome. An outcome that answers no request in
/// progress ends the event.
pub open spec fn spec_resume(s: State, outcome: Outcome) -> (State, Action) {
    let token = s.cursor.token;
    let partner = spec_partner(s.links, token);
    match (s.cursor.stage, outcome) {
        (Stage::Draining, Outcome::Drained(Drained::Failed)) => (
            at_stage(marked_stale(s, token), Stage::Idle),
            Action::Next,
        ),
        (Stage::Draining, Outcome::Drained(Drained::Routed(upstream))) => (
            at_stage(s, Stage::Acquiring),
            Action::Acquire(token, upstream),
        ),
        (Stage::Draining, Outcome::Drained(Drained::Absorbed)) => fan_out_phase(s),
        (Stage::Acquiring, Outcome::Acquired(true)) => fan_out_phase(
            State { pending: s.pending.insert(token), ..s },
        ),
        (Stage::Acquiring, Outcome::Acquired(false)) => fan_out_phase(marked_stale(s, token)),
        (Stage::FanningOut, Outcome::Pulled(n)) => match partner {
            Some(p) if n > 0 => (
                at_stage(s, Stage::PushingOut),
                Action::Push { to: p, rearm: p },
            ),
            _ => write_phase(s),
        },
        (Stage::PushingOut, Outcome::Pushed(interest)) => match partner {
            Some(p) => write_phase(State { pumps: recorded(s.pumps, p, interest), ..s }),
            None => write_phase(s),
        },
        (Stage::FanningIn, Outcome::Pulled(n)) => match partner {
            Some(p) if n > 0 => (
                at_stage(s, Stage::PushingIn),
                Action::Push { to: token, rearm: p },
            ),
            _ => (at_stage(s, Stage::Flushing), Action::Flush(token)),
        },
        (Stage::PushingIn, Outcome::Pushed(interest)) => match partner {
            Some(p) => (
                at_stage(State { pumps: recorded(s.pumps, p, interest), ..s }, Stage::Flushing),
                Action::Flush(token),
            ),
            None => (at_stage(s, Stage::Flushing), Action::Flush(token)),
        },
        (Stage::Flushing, Outcome::Flushed(true)) => close_phase(s),
        (Stage::Flushing, Outcome::Flushed(false)) => (
            at_stage(marked_stale(s, token), Stage::Idle),
            Action::Halt,
        ),
        (Stage::Arming, Outcome::Armed(interest)) => (
            at_stage(State { pumps: recorded(s.pumps, token, interest), ..s }, Stage::Idle),
            Action::Next,
        ),
        _ => (at_stage(s, Stage::Idle), Action::Next),
    }
}

/// The bookkeeping after a token is torn down. Its slot is freed and it
/// leaves every set; if it was linked, both directions of the link go and the
/// partner becomes detached. A token that is not live changes nothing.
pub open spec fn spec_drop(s: State, token: usize) -> State {
    if !s.pumps.contains_key(token) {
        s
    } else {
        State {
            pumps: s.pumps.remove(token),
            links: spec_unlink(s.links, token),
            detached: match spec_partner(s.links, token) {
                Some(p) => s.detached.remove(token).insert(p),
                None => s.detached.remove(token),
            },
            stale: s.stale.remove(token),
            pending: s.pending.remove(token),
            cursor: Cursor { stage: Stage::Idle, ..s.cursor },
            limit: s.limit,
        }
    }
}

/// Tearing down the tokens of a sequence, first to last.
pub open spec fn spec_drop_each(s: State, tokens: Seq<usize>) -> State
    decreases tokens.len(),
{
    if tokens.len() == 0 {
        s
    } else {
        spec_drop(spec_drop_each(s, tokens.drop_last()), tokens.last())
    }
}

/// The bookkeeping after a set of live tokens is torn down, in whatever
/// order: their slots are freed, every link with an end among them is gone,
/// and a survivor is detached if it was so before or has lost its partner.
pub open spec fn spec_drop_set(s: State, gone: Set<usize>) -> State {
    State {
        pumps: s.pumps.remove_keys(gone),
        links: Map::new(
            |a: usize| s.links.contains_key(a) && !gone.contains(a) && !gone.contains(s.links[a]),
            |a: usize| s.links[a],
        ),
        detached: Set::new(
            |t: usize|
                !gone.contains(t) && (s.detached.contains(t) || (s.links.contains_key(t)
                    && gone.contains(s.links[t]))),
        ),
        stale: s.stale.difference(gone),
        pending: s.pending.difference(gone),
        cursor: if gone =~= Set::<usize>::empty() {
            s.cursor
        } else {
            Cursor { stage: Stage::Idle, ..s.cursor }
        },
        limit: s.limit,
    }
}

/// Whether a token is due for teardown at the end of the cycle: it was
/// marked stale, or it is detached and no longer wants to write.
pub open spec fn due(s: State, token: usize) -> bool {
    s.stale.contains(token) || (s.detached.contains(token) && s.pumps.contains_key(token)
        && !s.pumps[token].writable)
}

/// The bookkeeping with exactly the due tokens marked stale.
pub open spec fn marked_due(s: State) -> State {
    State { stale: Set::new(|t: usize| due(s, t)), ..s }
}

/// Whether a client's upstream can be activated: the client is awaited,
/// live, neither linked nor detached, and the registry has room.
pub open spec fn activatable(s: State, client: usize) -> bool {
    &&& s.pending.contains(client)
    &&& s.pumps.contains_key(client)
    &&& !s.links.contains_key(client)
    &&& !s.detached.contains(client)
    &&& s.pumps.len() < s.limit
}

/// The reactor's state: secret, registry, link table, detached set, and the
/// per-cycle stale and pending sets.
pub struct Server {
    secret: Vec<u8>,
    pumps: Registry,
    links: LinkTable,
    detached: TokenSet,
    stale: TokenSet,
    pending: TokenSet,
    cursor: Cursor,
}

impl View for Server {
    type V = State;

    closed spec fn view(&self) -> State {
        State {
            pumps: self.pumps@,
            limit: self.pumps.spec_limit(),
            links: self.links@,
            detached: self.detached@,
            stale: self.stale@,
            pending: self.pending@,
            cursor: self.cursor,
        }
    }
}

impl Server {
    /// Every part is well formed and the bookkeeping is consistent.
    pub closed spec fn wf(&self) -> bool {
        &&& self.pumps.wf()
        &&& self.links.wf()
        &&& self.detached.wf()
        &&& self.stale.wf()
        &&& self.pending.wf()
        &&& self.secret@.len() == SECRET_LEN
        &&& inv(self@)
    }

    /// The secret's bytes.
    pub closed spec fn spec_secret(&self) -> Seq<u8> {
        self.secret@
    }

    /// What a well-formed reactor guarantees: consistent bookkeeping, a
    /// limit within `MAX_PUMPS`, every live token below the limit, and a
    /// secret of `SECRET_LEN` bytes.
    pub proof fn lemma_wf(&self)
        requires
            self.wf(),
        ensures
            inv(self@),
            self@.limit <= MAX_PUMPS,
            self@.pumps.dom().finite(),
            forall|t: usize| self@.pumps.contains_key(t) ==> t < self@.limit,
            self.spec_secret().len() == SECRET_LEN,
    {
        assert forall|t: usize| self@.pumps.contains_key(t) implies t < self@.limit by {
            self.pumps.lemma_tokens_below_limit(t);
        }
        self.pumps.lemma_limit();
    }

    /// A reactor with room for `MAX_PUMPS` connections.
    pub fn new(seed: &str) -> (r: Server)
        requires
            seed_fits(seed@),
        ensures
            r.wf(),
            r.spec_secret() == sha256_digest(seed@).subrange(0, SECRET_LEN as int),
            r@.limit == MAX_PUMPS,
            r@.pumps == no_entries(),
            r@.links == no_links(),
            r@.detached == Set::<usize>::empty(),
            r@.stale == Set::<usize>::empty(),
            r@.pending == Set::<usize>::empty(),
            r@.cursor.stage == Stage::Idle,
    {
        Server::with_limit(seed, MAX_PUMPS)
    }

    /// A reactor whose registry admits `limit` connections.
    pub fn with_limit(seed: &str, limit: usize) -> (r: Server)
        requires
            seed_fits(seed@),
            limit <= MAX_PUMPS,
        ensures
            r.wf(),
            r.spec_secret() == sha256_digest(seed@).subrange(0, SECRET_LEN as int),
            r@.limit == limit,
            r@.pumps == no_entries(),
            r@.links == no_links(),
            r@.detached == Set::<usize>::empty(),
            r@.stale == Set::<usize>::empty(),
            r@.pending == Set::<usize>::empty(),
            r@.cursor.stage == Stage::Idle,
    {
        Server {
            secret: derive_secret(seed),
            pumps: Registry::new(limit),
            links: LinkTable::new(),
            detached: TokenSet::new(),
            stale: TokenSet::new(),
            pending: TokenSet::new(),
            cursor: Cursor {
                stage: Stage::Idle,
                token: 0,
                ready: Readiness { readable: false, writable: false, hup: false, error: false },
            },
        }
    }

    /// The secret in lower-case hexadecimal.
    pub fn secret(&self) -> (s: String)
        requires
            self.wf(),
        ensures
            s@ == spec_hex(self.spec_secret()),
    {
        hex_encode(&self.secret)
    }

    /// The secret's bytes, for setting up an accepted connection.
    pub fn secret_bytes(&self) -> (s: &Vec<u8>)
        ensures
            s@ == self.spec_secret(),
    {
        &self.secret
    }

    /// Number of live connections.
    pub fn connections(&self) -> (n: usize)
        requires
            self.wf(),
        ensures
            n == self@.pumps.len(),
    {
        self.pumps.len()
    }

    /// Number of link entries: two per pairing.
    pub fn link_entries(&self) -> (n: usize)
        ensures
            n == self@.links.len(),
    {
        self.links.len()
    }

    /// Number of detached connections.
    pub fn detached_count(&self) -> (n: usize)
        requires
            self.wf(),
        ensures
            n == self@.detached.len(),
    {
        self.detached.len()
    }

    /// The interest last recorded for a token, if it is live.
    pub fn interest(&self, token: usize) -> (r: Option<Interest>)
        ensures
            r == Registry::spec_get(self@.pumps, token),
    {
        self.pumps.get(token)
    }

    /// The partner a token is linked to, if any.
    pub fn partner(&self, token: usize) -> (r: Option<usize>)
        ensures
            r == spec_partner(self@.links, token),
    {
        self.links.partner(token)
    }

    /// Whether a token outlives its partner.
    pub fn is_detached(&self, token: usize) -> (b: bool)
        ensures
            b == self@.detached.contains(token),
    {
        self.detached.contains(token)
    }

    /// Whether a token is marked for teardown at the end of the cycle.
    pub fn is_stale(&self, token: usize) -> (b: bool)
        ensures
            b == self@.stale.contains(token),
    {
        self.stale.contains(token)
    }

    /// A client whose upstream awaits activation, if there is one.
    pub fn next_pending(&self) -> (r: Option<usize>)
        requires
            self.wf(),
        ensures
            r.is_some() == (self@.pending != Set::<usize>::empty()),
            match r {
                Some(client) => self@.pending.contains(client),
                None => true,
            },
    {
        if self.pending.is_empty() {
            None
        } else {
            proof {
                self.pending.lemma_order();
                if self.pending.order().len() == 0 {
                    assert(self.pending.order().to_set() =~= Set::<usize>::empty());
                }
            }
            Some(self.pending.at(0))
        }
    }

    /// Admits an accepted connection: stores its interest under a fresh
    /// token, or refuses when the registry is full and changes nothing.
    pub fn accept(&mut self, interest: Interest) -> (r: Option<usize>)
        requires
            old(self).wf(),
        ensures
            final(self).wf(),
            final(self).spec_secret() == old(self).spec_secret(),
            r.is_some() == (old(self)@.pumps.len() < old(self)@.limit),
            match r {
                Some(token) => {
                    &&& !old(self)@.pumps.contains_key(token)
                    &&& token < old(self)@.limit
                    &&& token != LISTENER
                    &&& final(self)@ == (State {
                        pumps: old(self)@.pumps.insert(token, interest),
                        ..old(self)@
                    })
                },
                None => final(self)@ == old(self)@,
            },
    {
        proof {
            self.pumps.lemma_limit();
        }
        self.pumps.insert(interest)
    }

    /// Last facet: marks the token stale on hangup or error, else re-arms.
    fn close(&mut self) -> (action: Action)
        requires
            old(self).wf(),
            old(self)@.pumps.contains_key(old(self)@.cursor.token),
        ensures
            final(self).wf(),
            final(self).spec_secret() == old(self).spec_secret(),
            (final(self)@, action) == close_phase(old(self)@),
    {
        if self.cursor.ready.hup || self.cursor.ready.error {
            self.stale.insert(self.cursor.token);
            self.cursor.stage = Stage::Idle;
            assert(framed(self@, old(self)@, old(self)@.cursor.token));
            Action::Next
        } else {
            self.cursor.stage = Stage::Arming;
            assert(framed(self@, old(self)@, old(self)@.cursor.token));
            Action::Rearm(self.cursor.token)
        }
    }

    /// Writable facet: fan-in from the partner, flush, or on to the last.
    fn write(&mut self) -> (action: Action)
        requires
            old(self).wf(),
            old(self)@.pumps.contains_key(old(self)@.cursor.token),
        ensures
            final(self).wf(),
            final(self).spec_secret() == old(self).spec_secret(),
            (final(self)@, action) == write_phase(old(self)@),
    {
        if self.cursor.ready.writable {
            match self.links.partner(self.cursor.token) {
                Some(p) => {
                    self.cursor.stage = Stage::FanningIn;
                    assert(framed(self@, old(self)@, old(self)@.cursor.token));
                    Action::Pull(p)
                },
                None => {
                    self.cursor.stage = Stage::Flushing;
                    assert(framed(self@, old(self)@, old(self)@.cursor.token));
                    Action::Flush(self.cursor.token)
                },
            }
        } else {
            self.close()
        }
    }

    /// After a drain: fan-out to the partner, or on to the writable facet.
    fn fan_out(&mut self) -> (action: Action)
        requires
            old(self).wf(),
            old(self)@.pumps.contains_key(old(self)@.cursor.token),
        ensures
            final(self).wf(),
            final(self).spec_secret() == old(self).spec_secret(),
            (final(self)@, action) == fan_out_phase(old(self)@),
    {
        match self.links.partner(self.cursor.token) {
            Some(_p) => {
                self.cursor.stage = Stage::FanningOut;
                assert(framed(self@, old(self)@, old(self)@.cursor.token));
                Action::Pull(self.cursor.token)
            },
            None => self.write(),
        }
    }

    /// Asks for the flush of the current token.
    fn flush(&mut self) -> (action: Action)
        requires
            old(self).wf(),
            old(self)@.pumps.contains_key(old(self)@.cursor.token),
        ensures
            final(self).wf(),
            final(self).spec_secret() == old(self).spec_secret(),
            (final(self)@, action) == (
                at_stage(old(self)@, Stage::Flushing),
                Action::Flush(old(self)@.cursor.token),
            ),
    {
        self.cursor.stage = Stage::Flushing;
        assert(framed(self@, old(self)@, old(self)@.cursor.token));
        Action::Flush(self.cursor.token)
    }

    /// Takes up a delivered event and answers with the first thing to do.
    /// The listener's token asks for an accept while the registry has room;
    /// a token without a live slot is skipped.
    pub fn start(&mut self, token: usize, ready: Readiness) -> (action: Action)
        requires
            old(self).wf(),
        ensures
            final(self).wf(),
            final(self).spec_secret() == old(self).spec_secret(),
            (final(self)@, action) == spec_start(old(self)@, token, ready),
    {
        if token == LISTENER {
            self.cursor.stage = Stage::Idle;
            if self.pumps.has_room() {
                assert(framed(self@, old(self)@, old(self)@.cursor.token));
                Action::Accept
            } else {
                assert(framed(self@, old(self)@, old(self)@.cursor.token));
                Action::Next
            }
        } else if !self.pumps.contains(token) {
            self.cursor.stage = Stage::Idle;
            assert(framed(self@, old(self)@, old(self)@.cursor.token));
            Action::Next
        } else {
            self.cursor = Cursor { stage: Stage::Idle, token, ready };
            if ready.readable {
                self.cursor.stage = Stage::Draining;
                assert(framed(self@, old(self)@, old(self)@.cursor.token));
                Action::Drain(token)
            } else {
                assert(framed(self@, old(self)@, token));
                self.write()
            }
        }
    }

    /// Takes the outcome of the action last handed out and answers with the
    /// next thing to do.
    pub fn resume(&mut self, outcome: Outcome) -> (action: Action)
        requires
            old(self).wf(),
        ensures
            final(self).wf(),
            final(self).spec_secret() == old(self).spec_secret(),
            (final(self)@, action) == spec_resume(old(self)@, outcome),
    {
        let token = self.cursor.token;
        let partner = self.links.partner(token);
        match (self.cursor.stage, outcome) {
            (Stage::Draining, Outcome::Drained(Drained::Failed)) => {
                self.stale.insert(token);
                self.cursor.stage = Stage::Idle;
                assert(framed(self@, old(self)@, old(self)@.cursor.token));
                Action::Next
            },
            (Stage::Draining, Outcome::Drained(Drained::Routed(upstream))) => {
                self.cursor.stage = Stage::Acquiring;
                assert(framed(self@, old(self)@, old(self)@.cursor.token));
                Action::Acquire(token, upstream)
            },
            (Stage::Draining, Outcome::Drained(Drained::Absorbed)) => self.fan_out(),
            (Stage::Acquiring, Outcome::Acquired(true)) => {
                self.pending.insert(token);
                self.fan_out()
            },
            (Stage::Acquiring, Outcome::Acquired(false)) => {
                self.stale.insert(token);
                self.fan_out()
            },
            (Stage::FanningOut, Outcome::Pulled(n)) => match partner {
                Some(p) if n > 0 => {
                    self.cursor.stage = Stage::PushingOut;
                    assert(framed(self@, old(self)@, old(self)@.cursor.token));
                    Action::Push { to: p, rearm: p }
                },
                _ => self.write(),
            },
            (Stage::PushingOut, Outcome::Pushed(interest)) => match partner {
                Some(p) => {
                    self.pumps.record(p, interest);
                    self.write()
                },
                None => self.write(),
            },
            (Stage::FanningIn, Outcome::Pulled(n)) => match partner {
                Some(p) if n > 0 => {
                    self.cursor.stage = Stage::PushingIn;
                    assert(framed(self@, old(self)@, old(self)@.cursor.token));
                    Action::Push { to: token, rearm: p }
                },
                _ => self.flush(),
            },
            (Stage::PushingIn, Outcome::Pushed(interest)) => match partner {
                Some(p) => {
                    self.pumps.record(p, interest);
                    self.flush()
                },
                None => self.flush(),
            },
            (Stage::Flushing, Outcome::Flushed(true)) => self.close(),
            (Stage::Flushing, Outcome::Flushed(false)) => {
                self.stale.insert(token);
                self.cursor.stage = Stage::Idle;
                assert(framed(self@, old(self)@, old(self)@.cursor.token));
                Action::Halt
            },
            (Stage::Arming, Outcome::Armed(interest)) => {
                self.pumps.record(token, interest);
                self.cursor.stage = Stage::Idle;
                assert(framed(self@, old(self)@, old(self)@.cursor.token));
                Action::Next
            },
            _ => {
                self.cursor.stage = Stage::Idle;
                assert(framed(self@, old(self)@, old(self)@.cursor.token));
                Action::Next
            },
        }
    }

    /// Tears a token down: it leaves the detached, stale and pending sets,
    /// its slot is freed, and if it was linked both directions of the link
    /// are removed and the partner, which stays live, becomes detached. The
    /// answer is that partner. A token without a live slot changes nothing.
    pub fn drop_pump(&mut self, token: usize) -> (partner: Option<usize>)
        requires
            old(self).wf(),
        ensures
            final(self).wf(),
            final(self).spec_secret() == old(self).spec_secret(),
            final(self)@ == spec_drop(old(self)@, token),
            partner == (if old(self)@.pumps.contains_key(token) {
                spec_partner(old(self)@.links, token)
            } else {
                None
            }),
    {
        if !self.pumps.contains(token) {
            return None;
        }
        self.detached.remove(token);
        self.stale.remove(token);
        self.pending.remove(token);
        self.pumps.remove(token);
        self.cursor.stage = Stage::Idle;
        let partner = self.links.unlink(token);
        match partner {
            Some(p) => {
                self.detached.insert(p);
            },
            None => {},
        }
        proof {
            lemma_drop_keeps_inv(old(self)@, token);
            assert(self@.links == spec_unlink(old(self)@.links, token));
            assert(self@.pumps == old(self)@.pumps.remove(token));
            assert(self@.stale == old(self)@.stale.remove(token));
            assert(self@.pending == old(self)@.pending.remove(token));
            assert(self@.detached == spec_drop(old(self)@, token).detached);
            assert(self@ == spec_drop(old(self)@, token));
        }
        partner
    }

    /// Brings an obtained upstream to life for an awaited client: stores the
    /// upstream's interest under a fresh token and links the two. A client
    /// that is awaited and live but cannot be paired, or for which the
    /// registry has no room, is marked stale instead. Either way the client
    /// is no longer awaited.
    pub fn activate(&mut self, client: usize, interest: Interest) -> (peer: Option<usize>)
        requires
            old(self).wf(),
        ensures
            final(self).wf(),
            final(self).spec_secret() == old(self).spec_secret(),
            peer.is_some() == activatable(old(self)@, client),
            match peer {
                Some(p) => {
                    &&& !old(self)@.pumps.contains_key(p)
                    &&& p != LISTENER
                    &&& p != client
                    &&& final(self)@ == (State {
                        pumps: old(self)@.pumps.insert(p, interest),
                        links: spec_link(old(self)@.links, client, p),
                        pending: old(self)@.pending.remove(client),
                        ..old(self)@
                    })
                },
                None => final(self)@ == (State {
                    pending: old(self)@.pending.remove(client),
                    stale: if old(self)@.pending.contains(client) && old(self)@.pumps.contains_key(
                        client,
                    ) {
                        old(self)@.stale.insert(client)
                    } else {
                        old(self)@.stale
                    },
                    ..old(self)@
                }),
            },
    {
        let awaited = self.pending.remove(client);
        assert(framed(self@, old(self)@, client));
        if !awaited {
            assert(self@.pending =~= old(self)@.pending.remove(client));
            assert(self@.stale == old(self)@.stale);
            assert(self@.pumps == old(self)@.pumps);
            return None;
        }
        if !self.pumps.contains(client) {
            assert(self@.stale == old(self)@.stale);
            assert(self@.pumps == old(self)@.pumps);
            return None;
        }
        if self.links.partner(client).is_some() || self.detached.contains(client)
            || !self.pumps.has_room() {
            self.stale.insert(client);
            assert(framed(self@, old(self)@, client));
            assert(self@.stale == old(self)@.stale.insert(client));
            assert(self@.pumps == old(self)@.pumps);
            return None;
        }
        proof {
            self.pumps.lemma_limit();
        }
        match self.pumps.insert(interest) {
            Some(p) => {
                let linked = self.links.link(client, p);
                proof {
                    assert(linkable(old(self)@.links, client, p));
                    assert(self@.links == spec_link(old(self)@.links, client, p));
                    assert(self@.pumps == old(self)@.pumps.insert(p, interest));
                    assert(self@.detached == old(self)@.detached);
                    assert(self@.stale == old(self)@.stale);
                    assert(inv(self@));
                }
                Some(p)
            },
            None => None,
        }
    }

    /// Gives up on an awaited client whose upstream was lost before it could
    /// be activated: the client is no longer awaited and, if live, is marked
    /// stale. The answer is whether it was awaited; if not, nothing changes.
    pub fn abandon(&mut self, client: usize) -> (awaited: bool)
        requires
            old(self).wf(),
        ensures
            final(self).wf(),
            final(self).spec_secret() == old(self).spec_secret(),
            awaited == old(self)@.pending.contains(client),
            final(self)@ == (State {
                pending: old(self)@.pending.remove(client),
                stale: if awaited && old(self)@.pumps.contains_key(client) {
                    old(self)@.stale.insert(client)
                } else {
                    old(self)@.stale
                },
                ..old(self)@
            }),
    {
        let awaited = self.pending.remove(client);
        assert(framed(self@, old(self)@, client));
        assert(self@.stale == old(self)@.stale);
        assert(self@.pumps == old(self)@.pumps);
        if awaited && self.pumps.contains(client) {
            self.stale.insert(client);
            assert(framed(self@, old(self)@, client));
            assert(self@.stale == old(self)@.stale.insert(client));
            assert(self@.pumps == old(self)@.pumps);
        } else if !awaited {
            assert(self@.pending =~= old(self)@.pending.remove(client));
        }
        awaited
    }

    /// Ends a cycle. Every detached token that no longer wants to write is
    /// marked stale, then every stale token is torn down. The answer lists
    /// the tokens torn down, each once: exactly those that were due.
    pub fn reconcile(&mut self) -> (dropped: Vec<usize>)
        requires
            old(self).wf(),
        ensures
            final(self).wf(),
            final(self).spec_secret() == old(self).spec_secret(),
            dropped@.no_duplicates(),
            forall|t: usize| dropped@.contains(t) <==> due(old(self)@, t),
            final(self)@ == spec_drop_each(marked_due(old(self)@), dropped@),
            final(self)@ == spec_drop_set(
                marked_due(old(self)@),
                Set::new(|t: usize| due(old(self)@, t)),
            ),
            final(self)@.stale == Set::<usize>::empty(),
            forall|t: usize| dropped@.contains(t) ==> !final(self)@.pumps.contains_key(t),
    {
        let count = self.detached.len();
        let mut i: usize = 0;
        proof {
            self.detached.lemma_order();
        }
        while i < count
            invariant
                self.wf(),
                i <= count,
                count == self.detached.order().len(),
                self.detached == old(self).detached,
                self@.pumps == old(self)@.pumps,
                self@.links == old(self)@.links,
                self@.detached == old(self)@.detached,
                self@.pending == old(self)@.pending,
                self@.limit == old(self)@.limit,
                self@.cursor == old(self)@.cursor,
                self.spec_secret() == old(self).spec_secret(),
                forall|t: usize|
                    self@.stale.contains(t) <==> old(self)@.stale.contains(t) || (exists|j: int|
                        0 <= j < i && self.detached.order()[j] == t && due(old(self)@, t)),
            decreases count - i,
        {
            let ghost before = self@;
            let t = self.detached.at(i);
            let idle = match self.pumps.get(t) {
                Some(interest) => !interest.writable,
                None => false,
            };
            if idle {
                self.stale.insert(t);
                assert(framed(self@, before, t));
                assert(self@.pumps == before.pumps);
                assert(self@.stale == before.stale.insert(t));
                assert(due(old(self)@, t));
            }
            i += 1;
        }
        let ghost m = self@;
        proof {
            self.detached.lemma_order();
            assert(m.stale =~= marked_due(old(self)@).stale) by {
                assert forall|t: usize| m.stale.contains(t) == due(old(self)@, t) by {
                    if due(old(self)@, t) && !old(self)@.stale.contains(t) {
                        assert(self.detached.order().to_set().contains(t));
                        let j = choose|j: int|
                            0 <= j < self.detached.order().len() && self.detached.order()[j] == t;
                        assert(0 <= j < i && self.detached.order()[j] == t);
                    }
                }
            }
            assert(m == marked_due(old(self)@));
            self.lemma_wf();
        }
        let mut dropped: Vec<usize> = Vec::new();
        loop
            invariant
                self.wf(),
                self.spec_secret() == old(self).spec_secret(),
                self@ == spec_drop_each(m, dropped@),
                dropped@.no_duplicates(),
                forall|t: usize| m.stale.contains(t) <==> self@.stale.contains(t) || dropped@.contains(t),
                forall|t: usize| dropped@.contains(t) ==> !self@.pumps.contains_key(t),
            ensures
                self@.stale == Set::<usize>::empty(),
            decreases self@.stale.len(),
        {
            proof {
                self.stale.lemma_order();
            }
            if self.stale.len() == 0 {
                assert(self@.stale =~= Set::<usize>::empty());
                break;
            }
            let t = self.stale.at(0);
            let ghost before = self@;
            let ghost listed = dropped@;
            proof {
                self.lemma_wf();
            }
            self.drop_pump(t);
            dropped.push(t);
            proof {
                assert(dropped@.drop_last() =~= listed);
                assert(dropped@.last() == t);
                assert(self@.stale == before.stale.remove(t));
                assert(self@.pumps == before.pumps.remove(t));
                assert forall|x: usize| dropped@.contains(x) implies !self@.pumps.contains_key(x) by {
                    let j = choose|j: int| 0 <= j < dropped@.len() && dropped@[j] == x;
                    if j < listed.len() {
                        assert(listed[j] == x);
                        assert(listed.contains(x));
                    }
                }
                assert forall|x: usize| m.stale.contains(x) == (self@.stale.contains(x)
                    || dropped@.contains(x)) by {
                    assert(dropped@[listed.len() as int] == t);
                    if listed.contains(x) {
                        let j = choose|j: int| 0 <= j < listed.len() && listed[j] == x;
                        assert(dropped@[j] == x);
                    }
                    if dropped@.contains(x) {
                        let j = choose|j: int| 0 <= j < dropped@.len() && dropped@[j] == x;
                        if j < listed.len() {
                            assert(listed[j] == x);
                        }
                    }
                }
                assert(!listed.contains(t));
            }
        }
        proof {
            assert(inv(m));
            assert forall|i: int| 0 <= i < dropped@.len() implies m.pumps.contains_key(
                dropped@[i],
            ) by {
                assert(dropped@.contains(dropped@[i]));
                assert(m.stale.contains(dropped@[i]));
            }
            lemma_drop_order_free(m, dropped@);
            assert(dropped@.to_set() =~= Set::new(|t: usize| due(old(self)@, t)));
        }
        dropped
    }
}

/// Tearing a token down keeps the bookkeeping consistent.
pub proof fn lemma_drop_keeps_inv(s: State, token: usize)
    requires
        inv(s),
    ensures
        inv(spec_drop(s, token)),
{
    if s.pumps.contains_key(token) {
        let n = spec_drop(s, token);
        if s.links.contains_key(token) {
            crate::links::lemma_unlink_both(s.links, token);
            let p = s.links[token];
            assert(s.links.contains_key(p));
            assert forall|a: usize| n.links.contains_key(a) implies n.pumps.contains_key(a) by {
                assert(s.links.contains_key(a));
            }
            assert forall|t: usize| n.detached.contains(t) implies n.pumps.contains_key(t)
                && !n.links.contains_key(t) by {
                if t != p {
                    assert(s.detached.contains(t));
                }
            }
        } else {
            assert(n.links == s.links);
        }
    }
}

/// The order of teardown does not matter: tearing down distinct live tokens
/// one after another gives what tearing down their set gives.
pub proof fn lemma_drop_order_free(s: State, tokens: Seq<usize>)
    requires
        inv(s),
        tokens.no_duplicates(),
        forall|i: int| 0 <= i < tokens.len() ==> s.pumps.contains_key(tokens[i]),
    ensures
        spec_drop_each(s, tokens) == spec_drop_set(s, tokens.to_set()),
        inv(spec_drop_each(s, tokens)),
    decreases tokens.len(),
{
    if tokens.len() == 0 {
        let n = spec_drop_set(s, tokens.to_set());
        assert(tokens.to_set() =~= Set::<usize>::empty());
        assert(n.pumps =~= s.pumps);
        assert(n.links =~= s.links);
        assert(n.detached =~= s.detached);
        assert(n.stale =~= s.stale);
        assert(n.pending =~= s.pending);
    } else {
        let prefix = tokens.drop_last();
        let t = tokens.last();
        let gone = prefix.to_set();
        lemma_drop_order_free(s, prefix);
        let mid = spec_drop_each(s, prefix);
        assert(mid == spec_drop_set(s, gone));
        assert(!gone.contains(t)) by {
            if prefix.contains(t) {
                let j = choose|j: int| 0 <= j < prefix.len() && prefix[j] == t;
                assert(tokens[j] == t);
            }
        }
        assert(tokens.to_set() =~= gone.insert(t)) by {
            assert forall|x: usize| tokens.to_set().contains(x) == gone.insert(t).contains(x) by {
                if tokens.contains(x) {
                    let j = choose|j: int| 0 <= j < tokens.len() && tokens[j] == x;
                    if j < prefix.len() {
                        assert(prefix[j] == x);
                    }
                }
                if prefix.contains(x) {
                    let j = choose|j: int| 0 <= j < prefix.len() && prefix[j] == x;
                    assert(tokens[j] == x);
                }
                assert(tokens[tokens.len() - 1] == t);
            }
        }
        assert(s.pumps.contains_key(t));
        assert(mid.pumps.contains_key(t));
        lemma_drop_keeps_inv(mid, t);
        let out = spec_drop(mid, t);
        let n = spec_drop_set(s, gone.insert(t));
        assert(!(gone.insert(t) =~= Set::<usize>::empty())) by {
            assert(gone.insert(t).contains(t));
        }
        assert(out.pumps =~= n.pumps);
        assert(out.stale =~= n.stale);
        assert(out.pending =~= n.pending);
        assert(out.links =~= n.links) by {
            assert forall|a: usize| out.links.contains_key(a) == n.links.contains_key(a) by {
                if s.links.contains_key(a) {
                    assert(s.links.contains_key(s.links[a]));
                }
                if s.links.contains_key(t) {
                    assert(s.links.contains_key(s.links[t]));
                }
            }
        }
        assert(out.detached =~= n.detached) by {
            assert forall|x: usize| out.detached.contains(x) == n.detached.contains(x) by {
                if s.links.contains_key(x) {
                    assert(s.links.contains_key(s.links[x]));
                }
                if s.links.contains_key(t) {
                    assert(s.links.contains_key(s.links[t]));
                }
            }
        }
        assert(out.cursor == n.cursor);
        assert(out == n);
    }
}

/// Detach before drop: tearing down a linked token frees that token's slot
/// only. The partner stays live, is no longer linked, and is detached.
pub proof fn lemma_drop_detaches_partner(s: State, token: usize)
    requires
        inv(s),
        s.pumps.contains_key(token),
        s.links.contains_key(token),
    ensures
        !spec_drop(s, token).pumps.contains_key(token),
        spec_drop(s, token).pumps.contains_key(s.links[token]),
        spec_drop(s, token).detached.contains(s.links[token]),
        !spec_drop(s, token).detached.contains(token),
        spec_partner(spec_drop(s, token).links, token) == None::<usize>,
        spec_partner(spec_drop(s, token).links, s.links[token]) == None::<usize>,
{
    crate::links::lemma_unlink_both(s.links, token);
    assert(s.links.contains_key(s.links[token]));
}

/// A detached token that still wants to write and was not marked stale is
/// not due, so the end of the cycle leaves it alone; once it no longer wants
/// to write it is due.
pub proof fn lemma_detached_lingers(s: State, token: usize)
    requires
        inv(s),
        s.detached.contains(token),
        !s.stale.contains(token),
    ensures
        due(s, token) == !s.pumps[token].writable,
{
}

/// A torn-down token is gone: looking it up afterwards finds nothing.
pub proof fn lemma_dropped_is_absent(s: State, token: usize)
    ensures
        Registry::spec_get(spec_drop(s, token).pumps, token) == None::<Interest>,
{
}

/// Relaying nothing touches nobody: when a pull brings no bytes, the step
/// that follows changes no recorded interest and asks neither for a push nor
/// for re-arming the partner. After a fan-out it is the step of the writable
/// facet; after a fan-in it is the flush.
pub proof fn lemma_empty_relay(s: State)
    requires
        inv(s),
        s.cursor.stage == Stage::FanningOut || s.cursor.stage == Stage::FanningIn,
    ensures
        spec_resume(s, Outcome::Pulled(0)).0.pumps == s.pumps,
        !(spec_resume(s, Outcome::Pulled(0)).1 is Push),
        forall|p: usize|
            spec_partner(s.links, s.cursor.token) == Some(p) ==> spec_resume(
                s,
                Outcome::Pulled(0),
            ).1 != Action::Rearm(p),
        s.cursor.stage == Stage::FanningOut ==> spec_resume(s, Outcome::Pulled(0)) == write_phase(s),
        s.cursor.stage == Stage::FanningIn ==> spec_resume(s, Outcome::Pulled(0)) == (
            at_stage(s, Stage::Flushing),
            Action::Flush(s.cursor.token),
        ),
{
}

/// A full registry refuses the listener and nothing else: the listener's
/// event ends at once without an accept, while the first step for any other
/// token is the same whatever the limit.
pub proof fn lemma_full_registry(s: State, token: usize, ready: Readiness, limit: nat)
    requires
        s.pumps.len() >= s.limit,
    ensures
        spec_start(s, LISTENER, ready) == (at_stage(s, Stage::Idle), Action::Next),
        token != LISTENER ==> spec_start(State { limit, ..s }, token, ready).1 == spec_start(
            s,
            token,
            ready,
        ).1,
{
}

} // verus!
