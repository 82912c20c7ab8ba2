use if_watch::{AddressSet, IfEvent, IpNet, Ipv4Net, RetryPolicy, Watcher};

fn v4(a: u8, b: u8, c: u8, d: u8, plen: u8) -> IpNet {
    IpNet::V4(Ipv4Net::from_octets(a, b, c, d, plen))
}

/// Replays an event list over a starting set: adding on `Up`, removing on `Down`.
fn replay(start: &[IpNet], evs: &[IfEvent]) -> Vec<IpNet> {
    let mut set: Vec<IpNet> = start.to_vec();
    for ev in evs {
        match ev {
            IfEvent::Up(p) => {
                if !set.contains(p) {
                    set.push(*p);
                }
            }
            IfEvent::Down(p) => {
                set.retain(|q| q != p);
            }
        }
    }
    set
}

fn same_elements(a: &[IpNet], b: &[IpNet]) -> bool {
    a.iter().all(|p| b.contains(p)) && b.iter().all(|p| a.contains(p))
}

#[test]
fn snapshot_idempotent() {
    let snap = vec![v4(10, 0, 0, 1, 24), v4(10, 0, 0, 2, 16)];
    let mut set = AddressSet::new();
    let first = set.apply_snapshot(&snap);
    assert_eq!(first.len(), 2);
    let second = set.apply_snapshot(&snap);
    assert!(second.is_empty());
    let third = set.apply_snapshot(&snap);
    assert!(third.is_empty());
}

#[test]
fn diff_reconstructs_snapshot() {
    let a = v4(10, 0, 0, 1, 24);
    let b = v4(10, 0, 0, 2, 24);
    let c = v4(172, 16, 0, 1, 12);
    let d = v4(192, 168, 1, 1, 16);
    let old_snap = vec![a, b, c];
    let new_snap = vec![b, d];
    let mut set = AddressSet::from_snapshot(&old_snap);
    let evs = set.apply_snapshot(&new_snap);
    let rebuilt = replay(&old_snap, &evs);
    assert!(same_elements(&rebuilt, &new_snap));
    assert!(same_elements(set.addresses(), &new_snap));
}

#[test]
fn no_spurious_duplicates() {
    let a = v4(10, 0, 0, 1, 24);
    let b = v4(10, 0, 0, 2, 24);
    let mut set = AddressSet::from_snapshot(&vec![a]);

    // An `Up` for a prefix already present is suppressed.
    assert_eq!(set.handle_up(a), None);
    assert_eq!(set.addresses(), &vec![a]);

    // A `Down` for a prefix not present is suppressed.
    assert_eq!(set.handle_down(b), None);
    assert_eq!(set.addresses(), &vec![a]);

    // Real transitions still go through.
    assert_eq!(set.handle_up(b), Some(IfEvent::Up(b)));
    assert_eq!(set.handle_down(a), Some(IfEvent::Down(a)));
    assert_eq!(set.addresses(), &vec![b]);
}

#[test]
fn removal_before_addition() {
    let gone = v4(10, 0, 0, 1, 24);
    let fresh = v4(10, 0, 0, 2, 24);
    let mut set = AddressSet::from_snapshot(&vec![gone]);
    let evs = set.apply_snapshot(&vec![fresh]);
    assert_eq!(evs, vec![IfEvent::Down(gone), IfEvent::Up(fresh)]);
}

#[test]
fn prefixes_differing_in_length_are_distinct() {
    let narrow = v4(10, 0, 0, 1, 24);
    let wide = v4(10, 0, 0, 1, 16);
    let mut set = AddressSet::from_snapshot(&vec![narrow]);
    let evs = set.apply_snapshot(&vec![wide]);
    assert_eq!(evs, vec![IfEvent::Down(narrow), IfEvent::Up(wide)]);
}

#[test]
fn snapshot_duplicates_collapse() {
    let a = v4(10, 0, 0, 1, 24);
    let b = v4(10, 0, 0, 2, 24);
    let mut set = AddressSet::new();
    let evs = set.apply_snapshot(&vec![a, a, b, a]);
    assert_eq!(evs, vec![IfEvent::Up(a), IfEvent::Up(b)]);
    assert_eq!(set.addresses(), &vec![a, b]);
}

#[test]
fn interface_down_emits_one_event_per_prefix() {
    let a = v4(10, 0, 0, 1, 24);
    let b = v4(10, 0, 0, 2, 24);
    let c = v4(10, 0, 0, 3, 24);
    let mut set = AddressSet::from_snapshot(&vec![a, b, c]);
    let evs = set.apply_snapshot(&Vec::new());
    assert_eq!(evs, vec![IfEvent::Down(a), IfEvent::Down(b), IfEvent::Down(c)]);
    assert!(set.addresses().is_empty());
}

#[test]
fn end_to_end_assign_then_remove() {
    let home = v4(192, 168, 1, 5, 24);

    // Start with no addresses.
    let mut watcher = Watcher::new();
    assert!(watcher.networks().is_empty());
    assert_eq!(watcher.poll_next(), None);

    // The address is assigned externally; the next enumeration sees it.
    watcher.push_snapshot(&vec![home]);
    assert_eq!(watcher.poll_next(), Some(IfEvent::Up(home)));
    assert_eq!(watcher.networks(), &vec![home]);
    assert_eq!(watcher.poll_next(), None);

    // The address is removed externally.
    watcher.push_snapshot(&Vec::new());
    assert_eq!(watcher.poll_next(), Some(IfEvent::Down(home)));
    assert!(watcher.networks().is_empty());
    assert_eq!(watcher.poll_next(), None);
}

#[test]
fn initial_enumeration_reports_no_events() {
    let a = v4(10, 0, 0, 1, 24);
    let mut watcher = Watcher::from_snapshot(&vec![a]);
    assert_eq!(watcher.networks(), &vec![a]);
    assert_eq!(watcher.poll_next(), None);
}

#[test]
fn events_drain_in_derivation_order() {
    let a = v4(10, 0, 0, 1, 24);
    let b = v4(10, 0, 0, 2, 24);
    let c = v4(10, 0, 0, 3, 24);
    let mut watcher = Watcher::from_snapshot(&vec![a]);
    watcher.push_snapshot(&vec![b, c]);
    assert_eq!(watcher.poll_next(), Some(IfEvent::Down(a)));
    assert_eq!(watcher.poll_next(), Some(IfEvent::Up(b)));
    assert_eq!(watcher.poll_next(), Some(IfEvent::Up(c)));
    assert_eq!(watcher.poll_next(), None);
}

#[test]
fn incremental_notifications_queue_events() {
    let a = v4(10, 0, 0, 1, 24);
    let mut watcher = Watcher::new();
    watcher.notify_up(a);
    watcher.notify_up(a); // duplicate: suppressed
    watcher.notify_down(a);
    watcher.notify_down(a); // not present any more: suppressed
    assert_eq!(watcher.poll_next(), Some(IfEvent::Up(a)));
    assert_eq!(watcher.poll_next(), Some(IfEvent::Down(a)));
    assert_eq!(watcher.poll_next(), None);
}

#[test]
fn down_then_up_across_two_passes() {
    // A prefix that disappears and reappears across two separate polls
    // legitimately emits Down then Up.
    let a = v4(10, 0, 0, 1, 24);
    let mut watcher = Watcher::from_snapshot(&vec![a]);
    watcher.push_snapshot(&Vec::new());
    watcher.push_snapshot(&vec![a]);
    assert_eq!(watcher.poll_next(), Some(IfEvent::Down(a)));
    assert_eq!(watcher.poll_next(), Some(IfEvent::Up(a)));
    assert_eq!(watcher.poll_next(), None);
}

#[test]
fn pending_is_visible_without_draining() {
    let a = v4(10, 0, 0, 1, 24);
    let mut watcher = Watcher::new();
    assert!(!watcher.has_pending());
    watcher.notify_up(a);
    assert!(watcher.has_pending());
    assert_eq!(watcher.poll_next(), Some(IfEvent::Up(a)));
    assert!(!watcher.has_pending());
}

#[test]
fn fatal_failure_is_recorded() {
    let mut watcher = Watcher::new();
    assert!(!watcher.is_failed());
    watcher.mark_failed();
    assert!(watcher.is_failed());
}

#[test]
fn retry_ceiling_turns_transient_into_fatal() {
    let mut policy = RetryPolicy::new(2);
    assert!(!policy.record_failure()); // 1 consecutive failure
    assert!(!policy.record_failure()); // 2: still at the ceiling
    assert!(policy.record_failure()); // 3: past the ceiling, fatal

    // A success resets the run.
    let mut policy = RetryPolicy::new(2);
    assert!(!policy.record_failure());
    assert!(!policy.record_failure());
    policy.record_success();
    assert!(!policy.record_failure());
    assert!(!policy.record_failure());
    assert!(policy.record_failure());
}
