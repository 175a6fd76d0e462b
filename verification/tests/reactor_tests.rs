use relay_reactor::reactor::{Action, Drained, Outcome, Readiness, Server, LISTENER};
use relay_reactor::registry::{Interest, MAX_PUMPS};

const READ: Interest = Interest { readable: true, writable: false };
const BOTH: Interest = Interest { readable: true, writable: true };

fn ready(readable: bool, writable: bool, hup: bool, error: bool) -> Readiness {
    Readiness { readable, writable, hup, error }
}

fn readable() -> Readiness {
    ready(true, false, false, false)
}

fn writable() -> Readiness {
    ready(false, true, false, false)
}

/// A client and its activated upstream, both recorded with the given interest.
fn linked_pair(server: &mut Server, interest: Interest) -> (usize, usize) {
    let client: usize = server.accept(interest).unwrap();
    assert_eq!(server.start(client, readable()), Action::Drain(client));
    assert_eq!(
        server.resume(Outcome::Drained(Drained::Routed(3))),
        Action::Acquire(client, 3)
    );
    assert_eq!(server.resume(Outcome::Acquired(true)), Action::Rearm(client));
    assert_eq!(server.resume(Outcome::Armed(interest)), Action::Next);
    let upstream: usize = server.activate(client, interest).unwrap();
    (client, upstream)
}

#[test]
fn listener_token_is_far_from_slots() {
    assert_eq!(LISTENER, usize::MAX - 1);
    assert!(LISTENER > MAX_PUMPS);
}

#[test]
fn listener_event_asks_for_accept() {
    let mut server = Server::with_limit("seed", 2);
    assert_eq!(server.start(LISTENER, readable()), Action::Accept);
    let token: usize = server.accept(READ).unwrap();
    assert_ne!(token, LISTENER);
    assert_eq!(server.interest(token), Some(READ));
    assert_eq!(server.connections(), 1);
}

#[test]
fn unknown_token_is_skipped() {
    let mut server = Server::with_limit("seed", 2);
    assert_eq!(server.start(7, ready(true, true, true, true)), Action::Next);
    assert!(!server.is_stale(7));
    assert_eq!(server.connections(), 0);
}

#[test]
fn third_accept_is_refused_at_capacity_two() {
    let mut server = Server::with_limit("seed", 2);
    let a: usize = server.accept(READ).unwrap();
    let b: usize = server.accept(BOTH).unwrap();
    assert_eq!(server.start(LISTENER, readable()), Action::Next);
    assert_eq!(server.accept(READ), None);
    assert_eq!(server.connections(), 2);
    assert_eq!(server.interest(a), Some(READ));
    assert_eq!(server.interest(b), Some(BOTH));
    assert_eq!(server.start(a, readable()), Action::Drain(a));
    assert_eq!(server.resume(Outcome::Drained(Drained::Absorbed)), Action::Rearm(a));
    assert_eq!(server.resume(Outcome::Armed(READ)), Action::Next);
}

#[test]
fn registry_at_max_pumps_refuses_one_more() {
    let mut server = Server::new("seed");
    let mut first: usize = 0;
    let mut n: usize = 0;
    while n < MAX_PUMPS {
        let token: usize = server.accept(READ).unwrap();
        if n == 0 {
            first = token;
        }
        n += 1;
    }
    assert_eq!(server.connections(), MAX_PUMPS);
    assert_eq!(server.start(LISTENER, readable()), Action::Next);
    assert_eq!(server.accept(READ), None);
    assert_eq!(server.connections(), MAX_PUMPS);
    assert_eq!(server.start(first, writable()), Action::Flush(first));
    assert_eq!(server.resume(Outcome::Flushed(true)), Action::Rearm(first));
    assert_eq!(server.resume(Outcome::Armed(READ)), Action::Next);
    assert_eq!(server.drop_pump(first), None);
    assert_eq!(server.start(LISTENER, readable()), Action::Accept);
    assert!(server.accept(READ).is_some());
}

#[test]
fn drain_failure_marks_stale_and_ends_event() {
    let mut server = Server::with_limit("seed", 4);
    let (client, _upstream) = linked_pair(&mut server, READ);
    assert_eq!(server.start(client, ready(true, true, false, false)), Action::Drain(client));
    assert_eq!(server.resume(Outcome::Drained(Drained::Failed)), Action::Next);
    assert!(server.is_stale(client));
}

#[test]
fn missing_upstream_marks_client_stale() {
    let mut server = Server::with_limit("seed", 4);
    let client: usize = server.accept(READ).unwrap();
    assert_eq!(server.start(client, readable()), Action::Drain(client));
    assert_eq!(
        server.resume(Outcome::Drained(Drained::Routed(11))),
        Action::Acquire(client, 11)
    );
    assert_eq!(server.resume(Outcome::Acquired(false)), Action::Rearm(client));
    assert!(server.is_stale(client));
    assert_eq!(server.next_pending(), None);
    assert_eq!(server.resume(Outcome::Armed(READ)), Action::Next);
    assert_eq!(server.reconcile(), vec![client]);
    assert_eq!(server.connections(), 0);
}

#[test]
fn read_is_handled_before_write() {
    let mut server = Server::with_limit("seed", 4);
    let client: usize = server.accept(READ).unwrap();
    assert_eq!(server.start(client, ready(true, true, false, false)), Action::Drain(client));
    assert_eq!(server.resume(Outcome::Drained(Drained::Absorbed)), Action::Flush(client));
    assert_eq!(server.resume(Outcome::Flushed(true)), Action::Rearm(client));
    assert_eq!(server.resume(Outcome::Armed(BOTH)), Action::Next);
    assert_eq!(server.interest(client), Some(BOTH));
}

#[test]
fn flush_failure_halts_the_batch() {
    let mut server = Server::with_limit("seed", 4);
    let client: usize = server.accept(READ).unwrap();
    assert_eq!(server.start(client, ready(false, true, true, false)), Action::Flush(client));
    assert_eq!(server.resume(Outcome::Flushed(false)), Action::Halt);
    assert!(server.is_stale(client));
    assert_eq!(server.resume(Outcome::Armed(BOTH)), Action::Next);
    assert_eq!(server.interest(client), Some(READ));
}

#[test]
fn hangup_wins_over_rearming() {
    let mut server = Server::with_limit("seed", 4);
    let a: usize = server.accept(READ).unwrap();
    let b: usize = server.accept(READ).unwrap();
    assert_eq!(server.start(a, ready(false, false, true, false)), Action::Next);
    assert!(server.is_stale(a));
    assert_eq!(server.start(b, ready(false, false, false, true)), Action::Next);
    assert!(server.is_stale(b));
    let mut dropped: Vec<usize> = server.reconcile();
    dropped.sort();
    let mut expected: Vec<usize> = vec![a, b];
    expected.sort();
    assert_eq!(dropped, expected);
}

#[test]
fn event_without_facets_rearms() {
    let mut server = Server::with_limit("seed", 4);
    let a: usize = server.accept(READ).unwrap();
    assert_eq!(server.start(a, ready(false, false, false, false)), Action::Rearm(a));
    assert_eq!(server.resume(Outcome::Armed(BOTH)), Action::Next);
    assert_eq!(server.interest(a), Some(BOTH));
}

#[test]
fn outcome_without_request_ends_event() {
    let mut server = Server::with_limit("seed", 4);
    let a: usize = server.accept(READ).unwrap();
    assert_eq!(server.resume(Outcome::Flushed(false)), Action::Next);
    assert!(!server.is_stale(a));
    assert_eq!(server.start(a, readable()), Action::Drain(a));
    assert_eq!(server.resume(Outcome::Pulled(9)), Action::Next);
    assert_eq!(server.resume(Outcome::Drained(Drained::Failed)), Action::Next);
    assert!(!server.is_stale(a));
}

#[test]
fn fan_out_with_nothing_buffered_touches_no_peer() {
    let mut server = Server::with_limit("seed", 4);
    let (client, upstream) = linked_pair(&mut server, READ);
    assert_eq!(server.start(client, readable()), Action::Drain(client));
    assert_eq!(server.resume(Outcome::Drained(Drained::Absorbed)), Action::Pull(client));
    assert_eq!(server.resume(Outcome::Pulled(0)), Action::Rearm(client));
    assert_eq!(server.interest(upstream), Some(READ));
    assert_eq!(server.resume(Outcome::Armed(READ)), Action::Next);
    assert_eq!(server.interest(upstream), Some(READ));
}

#[test]
fn fan_in_with_nothing_buffered_goes_straight_to_flush() {
    let mut server = Server::with_limit("seed", 4);
    let (client, upstream) = linked_pair(&mut server, READ);
    assert_eq!(server.start(upstream, writable()), Action::Pull(client));
    assert_eq!(server.resume(Outcome::Pulled(0)), Action::Flush(upstream));
    assert_eq!(server.interest(client), Some(READ));
}

#[test]
fn fan_out_pushes_to_partner_and_rearms_it() {
    let mut server = Server::with_limit("seed", 4);
    let (client, upstream) = linked_pair(&mut server, READ);
    assert_eq!(server.start(client, readable()), Action::Drain(client));
    assert_eq!(server.resume(Outcome::Drained(Drained::Absorbed)), Action::Pull(client));
    assert_eq!(
        server.resume(Outcome::Pulled(12)),
        Action::Push { to: upstream, rearm: upstream }
    );
    assert_eq!(server.resume(Outcome::Pushed(BOTH)), Action::Rearm(client));
    assert_eq!(server.interest(upstream), Some(BOTH));
    assert_eq!(server.interest(client), Some(READ));
}

#[test]
fn fan_in_pushes_to_current_and_rearms_partner() {
    let mut server = Server::with_limit("seed", 4);
    let (client, upstream) = linked_pair(&mut server, BOTH);
    assert_eq!(server.start(upstream, writable()), Action::Pull(client));
    assert_eq!(
        server.resume(Outcome::Pulled(1)),
        Action::Push { to: upstream, rearm: client }
    );
    assert_eq!(server.resume(Outcome::Pushed(READ)), Action::Flush(upstream));
    assert_eq!(server.interest(client), Some(READ));
    assert_eq!(server.interest(upstream), Some(BOTH));
}

#[test]
fn end_to_end_relay() {
    let mut server = Server::with_limit("seed", 8);
    assert_eq!(server.start(LISTENER, readable()), Action::Accept);
    let client: usize = server.accept(READ).unwrap();

    assert_eq!(server.start(client, readable()), Action::Drain(client));
    assert_eq!(
        server.resume(Outcome::Drained(Drained::Routed(2))),
        Action::Acquire(client, 2)
    );
    assert_eq!(server.resume(Outcome::Acquired(true)), Action::Rearm(client));
    assert_eq!(server.resume(Outcome::Armed(READ)), Action::Next);
    assert_eq!(server.partner(client), None);

    assert_eq!(server.next_pending(), Some(client));
    let upstream: usize = server.activate(client, BOTH).unwrap();
    assert_eq!(server.next_pending(), None);
    assert_eq!(server.reconcile(), Vec::<usize>::new());
    assert_eq!(server.partner(client), Some(upstream));
    assert_eq!(server.partner(upstream), Some(client));

    assert_eq!(server.start(upstream, writable()), Action::Pull(client));
    assert_eq!(server.resume(Outcome::Pulled(0)), Action::Flush(upstream));
    assert_eq!(server.resume(Outcome::Flushed(true)), Action::Rearm(upstream));
    assert_eq!(server.resume(Outcome::Armed(READ)), Action::Next);
    assert_eq!(server.reconcile(), Vec::<usize>::new());

    assert_eq!(server.start(upstream, readable()), Action::Drain(upstream));
    assert_eq!(server.resume(Outcome::Drained(Drained::Absorbed)), Action::Pull(upstream));
    assert_eq!(
        server.resume(Outcome::Pulled(64)),
        Action::Push { to: client, rearm: client }
    );
    assert_eq!(server.resume(Outcome::Pushed(BOTH)), Action::Rearm(upstream));
    assert_eq!(server.resume(Outcome::Armed(READ)), Action::Next);
    assert_eq!(server.reconcile(), Vec::<usize>::new());

    assert_eq!(server.start(client, writable()), Action::Pull(upstream));
    assert_eq!(server.resume(Outcome::Pulled(0)), Action::Flush(client));
    assert_eq!(server.resume(Outcome::Flushed(true)), Action::Rearm(client));
    assert_eq!(server.resume(Outcome::Armed(READ)), Action::Next);
    assert_eq!(server.reconcile(), Vec::<usize>::new());

    assert_eq!(server.interest(client), Some(READ));
    assert_eq!(server.interest(upstream), Some(READ));
    assert_eq!(server.partner(client), Some(upstream));
    assert_eq!(server.partner(upstream), Some(client));
    assert_eq!(server.link_entries(), 2);
    assert_eq!(server.detached_count(), 0);
    assert_eq!(server.connections(), 2);
}

#[test]
fn teardown_detaches_partner_then_drops_it_when_drained() {
    let mut server = Server::with_limit("seed", 8);
    let (a, b) = linked_pair(&mut server, BOTH);

    assert_eq!(server.start(a, ready(false, false, true, false)), Action::Next);
    assert!(server.is_stale(a));
    assert_eq!(server.reconcile(), vec![a]);
    assert_eq!(server.interest(a), None);
    assert_eq!(server.partner(a), None);
    assert_eq!(server.partner(b), None);
    assert_eq!(server.link_entries(), 0);
    assert!(server.is_detached(b));
    assert!(!server.is_detached(a));
    assert_eq!(server.interest(b), Some(BOTH));
    assert_eq!(server.connections(), 1);

    assert_eq!(server.reconcile(), Vec::<usize>::new());
    assert!(server.is_detached(b));

    assert_eq!(server.start(b, writable()), Action::Flush(b));
    assert_eq!(server.resume(Outcome::Flushed(true)), Action::Rearm(b));
    assert_eq!(server.resume(Outcome::Armed(READ)), Action::Next);
    assert!(!server.is_stale(b));

    assert_eq!(server.reconcile(), vec![b]);
    assert_eq!(server.interest(b), None);
    assert!(!server.is_detached(b));
    assert_eq!(server.detached_count(), 0);
    assert_eq!(server.connections(), 0);
}

#[test]
fn drop_of_linked_token_keeps_partner_alive() {
    let mut server = Server::with_limit("seed", 8);
    let (a, b) = linked_pair(&mut server, BOTH);
    assert_eq!(server.drop_pump(a), Some(b));
    assert_eq!(server.interest(a), None);
    assert_eq!(server.interest(b), Some(BOTH));
    assert!(server.is_detached(b));
    assert_eq!(server.drop_pump(a), None);
    assert_eq!(server.connections(), 1);
    assert_eq!(server.drop_pump(b), None);
    assert_eq!(server.detached_count(), 0);
    assert_eq!(server.connections(), 0);
}

#[test]
fn both_sides_stale_leaves_nothing_detached() {
    let mut server = Server::with_limit("seed", 8);
    let (a, b) = linked_pair(&mut server, BOTH);
    assert_eq!(server.start(a, ready(false, false, true, false)), Action::Next);
    assert_eq!(server.start(b, ready(false, false, false, true)), Action::Next);
    let dropped: Vec<usize> = server.reconcile();
    assert_eq!(dropped.len(), 2);
    assert!(dropped.contains(&a) && dropped.contains(&b));
    assert_eq!(server.detached_count(), 0);
    assert_eq!(server.link_entries(), 0);
    assert_eq!(server.connections(), 0);
}

#[test]
fn activation_needs_an_awaited_client() {
    let mut server = Server::with_limit("seed", 8);
    let a: usize = server.accept(READ).unwrap();
    assert_eq!(server.activate(a, READ), None);
    assert!(!server.is_stale(a));
    assert_eq!(server.activate(99, READ), None);
    assert_eq!(server.connections(), 1);
}

#[test]
fn activation_without_room_marks_client_stale() {
    let mut server = Server::with_limit("seed", 1);
    let a: usize = server.accept(READ).unwrap();
    assert_eq!(server.start(a, readable()), Action::Drain(a));
    assert_eq!(server.resume(Outcome::Drained(Drained::Routed(0))), Action::Acquire(a, 0));
    assert_eq!(server.resume(Outcome::Acquired(true)), Action::Rearm(a));
    assert_eq!(server.resume(Outcome::Armed(READ)), Action::Next);
    assert_eq!(server.next_pending(), Some(a));
    assert_eq!(server.activate(a, READ), None);
    assert_eq!(server.next_pending(), None);
    assert!(server.is_stale(a));
    assert_eq!(server.reconcile(), vec![a]);
}

#[test]
fn slot_of_dropped_token_is_not_read_as_old_connection() {
    let mut server = Server::with_limit("seed", 2);
    let a: usize = server.accept(READ).unwrap();
    server.drop_pump(a);
    assert_eq!(server.interest(a), None);
    assert_eq!(server.start(a, readable()), Action::Next);
    let b: usize = server.accept(BOTH).unwrap();
    assert_eq!(server.interest(b), Some(BOTH));
}

#[test]
fn abandoned_client_is_torn_down() {
    let mut server = Server::with_limit("seed", 4);
    let a: usize = server.accept(READ).unwrap();
    assert!(!server.abandon(a));
    assert!(!server.is_stale(a));
    assert_eq!(server.start(a, readable()), Action::Drain(a));
    assert_eq!(server.resume(Outcome::Drained(Drained::Routed(5))), Action::Acquire(a, 5));
    assert_eq!(server.resume(Outcome::Acquired(true)), Action::Rearm(a));
    assert_eq!(server.resume(Outcome::Armed(READ)), Action::Next);
    assert_eq!(server.next_pending(), Some(a));
    assert!(server.abandon(a));
    assert_eq!(server.next_pending(), None);
    assert!(server.is_stale(a));
    assert_eq!(server.connections(), 1);
    assert_eq!(server.reconcile(), vec![a]);
    assert_eq!(server.connections(), 0);
}
