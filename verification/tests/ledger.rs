use reverse_cluster::coordinator::ledger::{MoveLedger, MoveTicket, ReserveStep, WaitOutcome};
use reverse_cluster::endpoint::normalized;

fn eps(list: &[&str]) -> Vec<String> {
    list.iter().map(|e| e.to_string()).collect()
}

fn reserve(ledger: &mut MoveLedger, list: &[&str]) -> MoveTicket {
    ledger.reserve(&eps(list)).expect("nothing else holds it")
}

/// A reservation with a deadline, where every wait ends as `wait` says.
fn reserve_until(ledger: &mut MoveLedger, list: &[&str], wait: WaitOutcome) -> Option<MoveTicket> {
    let mut last = None;
    loop {
        match ledger.reserve_until(&eps(list), last) {
            ReserveStep::Granted(t) => return Some(t),
            ReserveStep::GaveUp => return None,
            ReserveStep::Wait => last = Some(wait),
        }
    }
}

/// Two reservations over disjoint endpoint sets are both granted without blocking.
#[test]
fn reserve_disjoint_sets_do_not_block() {
    let mut ledger = MoveLedger::new();
    let a = reserve(&mut ledger, &["http://a:1", "http://b:1"]);
    let b = reserve(&mut ledger, &["http://c:1", "http://d:1"]);
    ledger.release(a);
    ledger.release(b);
}

/// A reservation overlapping a held one waits until the holder's ticket is given back.
#[test]
fn reserve_overlapping_blocks_until_release() {
    let mut ledger = MoveLedger::new();
    let first = reserve(&mut ledger, &["http://a:1", "http://b:1"]);
    let want = eps(&["http://b:1", "http://c:1"]);
    assert!(
        ledger.reserve(&want).is_none(),
        "an overlapping reserve was granted while the conflicting ticket was held"
    );
    assert!(matches!(
        ledger.reserve_until(&want, None),
        ReserveStep::Wait
    ));
    ledger.release(first);
    assert!(
        matches!(
            ledger.reserve_until(&want, Some(WaitOutcome::Woken)),
            ReserveStep::Granted(_)
        ),
        "the waiter is granted once the conflicting ticket drops"
    );
}

/// Giving a ticket back releases its endpoints: a subsequent overlapping reserve succeeds.
#[test]
fn ticket_drop_releases_endpoints() {
    let mut ledger = MoveLedger::new();
    let t = reserve(&mut ledger, &["http://a:1"]);
    ledger.release(t);
    // Would be refused if the release had not freed the endpoint.
    let t = reserve(&mut ledger, &["http://a:1"]);
    ledger.release(t);
}

/// Deadline admission never leaves a partial reservation behind, and a
/// later caller can acquire the previously-conflicting endpoint normally.
#[test]
fn reserve_until_times_out_without_reserving() {
    let mut ledger = MoveLedger::new();
    let held = reserve(&mut ledger, &["http://a:1"]);
    assert!(
        reserve_until(
            &mut ledger,
            &["http://a:1", "http://b:1"],
            WaitOutcome::TimedOut
        )
        .is_none(),
        "the overlapping reservation must respect its deadline"
    );
    let b = reserve_until(&mut ledger, &["http://b:1"], WaitOutcome::Elapsed)
        .expect("the timed-out waiter never reserved its disjoint endpoint");
    ledger.release(b);
    ledger.release(held);
}

/// An elapsed deadline is a try-once operation rather than an automatic refusal.
#[test]
fn reserve_until_elapsed_deadline_still_tries_once() {
    let mut ledger = MoveLedger::new();
    let ticket = reserve_until(&mut ledger, &["http://a:1"], WaitOutcome::Elapsed)
        .expect("an idle endpoint is admitted immediately");
    ledger.release(ticket);
}

/// Formatting variants of one physical endpoint still conflict; otherwise
/// a caller-controlled spelling could bypass the fence-window ledger.
#[test]
fn endpoint_identity_is_normalized() {
    let mut ledger = MoveLedger::new();
    let held = reserve(&mut ledger, &["HTTP://NODE:50051/"]);
    assert!(
        reserve_until(&mut ledger, &["http://node:50051"], WaitOutcome::Elapsed).is_none(),
        "case and trailing slash must not create a disjoint reservation"
    );
    ledger.release(held);
}

/// All-or-nothing: a waiter for {A, B} (A held) must not hold B while waiting.
#[test]
fn reserve_is_all_or_nothing() {
    let mut ledger = MoveLedger::new();
    let a = reserve(&mut ledger, &["http://a:1"]);
    let both = eps(&["http://a:1", "http://b:1"]);
    assert!(matches!(
        ledger.reserve_until(&both, None),
        ReserveStep::Wait
    ));
    // B must still be free: the blocked waiter holds NO partial reservation.
    let b = reserve(&mut ledger, &["http://b:1"]);
    ledger.release(b);
    ledger.release(a);
    assert!(matches!(
        ledger.reserve_until(&both, Some(WaitOutcome::Woken)),
        ReserveStep::Granted(_)
    ));
}

#[test]
fn spelling_is_normalized_exactly() {
    assert_eq!(normalized("HTTP://Node:50051//"), "http://node:50051");
    assert_eq!(normalized("////"), "");
    assert_eq!(normalized("ÄB/c"), "Äb/c");
}
