//! The watcher core: the authoritative address set together with the queue of
//! pending events, exposed through the one poll-based operation every backend
//! shares. Backends feed it full snapshots (re-enumerating backends) or framed
//! address-change messages (event-driven backends); the caller drains events
//! one at a time and is told "not ready" when none is pending.

use vstd::prelude::*;

use crate::diff::{AddressSet, IfEvent, dedup, diff_events, seq_remove};
use crate::net::IpNet;
use crate::parse::{parse_message, spec_parse_message, spec_split, split_clean, split_messages};

verus! {

broadcast use vstd::seq_lib::group_seq_properties;

/// The state after one incremental message: an `Up` for an absent prefix adds
/// it, a `Down` for a present prefix drops it, everything else — a duplicate
/// notification or an unparseable message — leaves the state alone.
pub open spec fn msg_step_state(st: Seq<IpNet>, m: Seq<u8>) -> Seq<IpNet> {
    match spec_parse_message(m) {
        Ok(IfEvent::Up(p)) => if st.contains(p) {
            st
        } else {
            st.push(p)
        },
        Ok(IfEvent::Down(p)) => if st.contains(p) {
            seq_remove(st, p)
        } else {
            st
        },
        Err(_) => st,
    }
}

/// The events one incremental message emits: exactly one when it changes the
/// state, none when it is a duplicate, unrecognized or malformed.
pub open spec fn msg_step_events(st: Seq<IpNet>, m: Seq<u8>) -> Seq<IfEvent> {
    match spec_parse_message(m) {
        Ok(IfEvent::Up(p)) => if st.contains(p) {
            Seq::empty()
        } else {
            seq![IfEvent::Up(p)]
        },
        Ok(IfEvent::Down(p)) => if st.contains(p) {
            seq![IfEvent::Down(p)]
        } else {
            Seq::empty()
        },
        Err(_) => Seq::empty(),
    }
}

/// The state after a run of messages, processed in message order.
pub open spec fn batch_state(st: Seq<IpNet>, msgs: Seq<Seq<u8>>) -> Seq<IpNet>
    decreases msgs.len(),
{
    if msgs.len() == 0 {
        st
    } else {
        msg_step_state(batch_state(st, msgs.drop_last()), msgs.last())
    }
}

/// The events a run of messages emits, in message order.
pub open spec fn batch_events(st: Seq<IpNet>, msgs: Seq<Seq<u8>>) -> Seq<IfEvent>
    decreases msgs.len(),
{
    if msgs.len() == 0 {
        Seq::empty()
    } else {
        batch_events(st, msgs.drop_last()) + msg_step_events(
            batch_state(st, msgs.drop_last()),
            msgs.last(),
        )
    }
}

/// Malformed-message resilience: one unparseable message anywhere in a run
/// changes neither the state the run leaves behind nor the events the other
/// messages emit.
pub proof fn lemma_malformed_message_skipped(
    st: Seq<IpNet>,
    before: Seq<Seq<u8>>,
    bad: Seq<u8>,
    after: Seq<Seq<u8>>,
)
    requires
        spec_parse_message(bad) is Err,
    ensures
        batch_state(st, before + seq![bad] + after) == batch_state(st, before + after),
        batch_events(st, before + seq![bad] + after) == batch_events(st, before + after),
    decreases after.len(),
{
    if after.len() == 0 {
        assert(before + seq![bad] + after =~= before + seq![bad]);
        assert(before + after =~= before);
        assert((before + seq![bad]).drop_last() =~= before);
        assert((before + seq![bad]).last() == bad);
        assert(batch_state(st, before + seq![bad]) == batch_state(st, before));
        assert(batch_events(st, before + seq![bad]) == batch_events(st, before) + Seq::<
            IfEvent,
        >::empty());
        assert(batch_events(st, before) + Seq::<IfEvent>::empty() =~= batch_events(st, before));
    } else {
        lemma_malformed_message_skipped(st, before, bad, after.drop_last());
        let whole = before + seq![bad] + after;
        let slim = before + after;
        assert(whole.drop_last() =~= before + seq![bad] + after.drop_last());
        assert(whole.last() == after.last());
        assert(slim.drop_last() =~= before + after.drop_last());
        assert(slim.last() == after.last());
        assert(batch_state(st, whole) == msg_step_state(
            batch_state(st, whole.drop_last()),
            after.last(),
        ));
        assert(batch_state(st, slim) == msg_step_state(
            batch_state(st, slim.drop_last()),
            after.last(),
        ));
        assert(batch_events(st, whole) == batch_events(st, whole.drop_last()) + msg_step_events(
            batch_state(st, whole.drop_last()),
            after.last(),
        ));
        assert(batch_events(st, slim) == batch_events(st, slim.drop_last()) + msg_step_events(
            batch_state(st, slim.drop_last()),
            after.last(),
        ));
    }
}

/// Watches for interface changes: the verified core every backend drives.
/// Holds the current address set and the events derived from it that the
/// caller has not yet drained.
#[derive(Debug)]
pub struct Watcher {
    set: AddressSet,
    queue: Vec<IfEvent>,
    failed: bool,
}

impl Watcher {
    /// The prefixes currently believed present, in discovery order.
    pub closed spec fn addrs(&self) -> Seq<IpNet> {
        self.set@
    }

    /// The events derived but not yet handed to the caller, oldest first.
    pub closed spec fn pending(&self) -> Seq<IfEvent> {
        self.queue@
    }

    /// Whether a fatal resource failure was recorded.
    pub closed spec fn failed(&self) -> bool {
        self.failed
    }

    /// The structural invariant: the address set holds no prefix twice.
    pub closed spec fn wf(&self) -> bool {
        self.set.wf()
    }

    /// A watcher that believes no address present and has nothing pending.
    pub fn new() -> (r: Watcher)
        ensures
            r.addrs() == Seq::<IpNet>::empty(),
            r.pending() == Seq::<IfEvent>::empty(),
            !r.failed(),
            r.wf(),
    {
        Watcher { set: AddressSet::new(), queue: Vec::new(), failed: false }
    }

    /// A watcher populated by one initial full enumeration: the set is filled
    /// before any event is reported, so nothing is pending.
    pub fn from_snapshot(snap: &Vec<IpNet>) -> (r: Watcher)
        ensures
            r.addrs() == dedup(snap@),
            r.pending() == Seq::<IfEvent>::empty(),
            !r.failed(),
            r.wf(),
    {
        Watcher { set: AddressSet::from_snapshot(snap), queue: Vec::new(), failed: false }
    }

    /// The current networks, in discovery order: a non-suspending snapshot
    /// read of the live set.
    pub fn networks(&self) -> (r: &Vec<IpNet>)
        ensures
            r@ == self.addrs(),
    {
        self.set.addresses()
    }

    /// Full-snapshot pass: diffs the snapshot against the held set, replaces
    /// the set, and queues the derived events — removals first, then
    /// additions.
    pub fn push_snapshot(&mut self, snap: &Vec<IpNet>)
        requires
            old(self).wf(),
        ensures
            final(self).wf(),
            final(self).addrs() == dedup(snap@),
            final(self).pending() == old(self).pending() + diff_events(
                old(self).addrs(),
                dedup(snap@),
            ),
            final(self).failed() == old(self).failed(),
    {
        let mut evs = self.set.apply_snapshot(snap);
        let ghost q0 = self.queue@;
        let ghost all = evs@;
        let ghost f0 = self.failed;
        let mut i: usize = 0;
        while i < evs.len()
            invariant
                i <= evs.len(),
                evs@ == all,
                self.set@ == dedup(snap@),
                self.set.wf(),
                self.failed == f0,
                self.queue@ == q0 + all.take(i as int),
            decreases evs.len() - i,
        {
            proof {
                assert(all.take(i + 1) =~= all.take(i as int).push(all[i as int]));
                assert(q0 + all.take(i + 1) =~= (q0 + all.take(i as int)).push(all[i as int]));
            }
            self.queue.push(evs[i]);
            i = i + 1;
        }
        proof {
            assert(all.take(all.len() as int) =~= all);
        }
    }

    /// Incremental "address added" notification: queues one `Up` event and
    /// records the prefix, unless the prefix is already present, in which case
    /// nothing is emitted and nothing changes.
    pub fn notify_up(&mut self, p: IpNet)
        requires
            old(self).wf(),
        ensures
            final(self).wf(),
            final(self).failed() == old(self).failed(),
            old(self).addrs().contains(p) ==> final(self).addrs() == old(self).addrs() && final(self).pending() == old(self).pending(),
            !old(self).addrs().contains(p) ==> final(self).addrs() == old(self).addrs().push(p)
                && final(self).pending() == old(self).pending().push(IfEvent::Up(p)),
    {
        match self.set.handle_up(p) {
            Some(ev) => self.queue.push(ev),
            None => (),
        }
    }

    /// Incremental "address removed" notification: queues one `Down` event and
    /// drops the prefix, unless the prefix is absent, in which case nothing is
    /// emitted and nothing changes.
    pub fn notify_down(&mut self, p: IpNet)
        requires
            old(self).wf(),
        ensures
            final(self).wf(),
            final(self).failed() == old(self).failed(),
            !old(self).addrs().contains(p) ==> final(self).addrs() == old(self).addrs() && final(self).pending() == old(self).pending(),
            old(self).addrs().contains(p) ==> final(self).addrs() == seq_remove(
                old(self).addrs(),
                p,
            ) && final(self).pending() == old(self).pending().push(IfEvent::Down(p)),
    {
        match self.set.handle_down(p) {
            Some(ev) => self.queue.push(ev),
            None => (),
        }
    }

    /// Feeds one framed address-change message through the incremental path.
    /// A message that parses acts as `notify_up` or `notify_down`; one that
    /// does not is skipped, never fatal.
    pub fn handle_message(&mut self, msg: &Vec<u8>)
        requires
            old(self).wf(),
        ensures
            final(self).wf(),
            final(self).failed() == old(self).failed(),
            final(self).addrs() == msg_step_state(old(self).addrs(), msg@),
            final(self).pending() == old(self).pending() + msg_step_events(
                old(self).addrs(),
                msg@,
            ),
    {
        let ghost q0 = self.queue@;
        let ghost st0 = self.set@;
        match parse_message(msg) {
            Ok(IfEvent::Up(p)) => {
                self.notify_up(p);
                proof {
                    if st0.contains(p) {
                        assert(q0 + msg_step_events(st0, msg@) =~= q0);
                    } else {
                        assert(q0 + msg_step_events(st0, msg@) =~= q0.push(IfEvent::Up(p)));
                    }
                }
            },
            Ok(IfEvent::Down(p)) => {
                self.notify_down(p);
                proof {
                    if st0.contains(p) {
                        assert(q0 + msg_step_events(st0, msg@) =~= q0.push(IfEvent::Down(p)));
                    } else {
                        assert(q0 + msg_step_events(st0, msg@) =~= q0);
                    }
                }
            },
            Err(_) => {
                proof {
                    assert(q0 + msg_step_events(st0, msg@) =~= q0);
                    assert(msg_step_state(st0, msg@) =~= st0);
                }
            },
        }
    }

    /// Feeds a run of framed messages through the incremental path, in
    /// message order, skipping the unparseable ones.
    pub fn handle_messages(&mut self, msgs: &Vec<Vec<u8>>)
        requires
            old(self).wf(),
        ensures
            final(self).wf(),
            final(self).failed() == old(self).failed(),
            final(self).addrs() == batch_state(old(self).addrs(), msgs.deep_view()),
            final(self).pending() == old(self).pending() + batch_events(
                old(self).addrs(),
                msgs.deep_view(),
            ),
    {
        let ghost st0 = self.addrs();
        let ghost q0 = self.pending();
        let ghost f0 = self.failed();
        let ghost all = msgs.deep_view();
        let mut i: usize = 0;
        while i < msgs.len()
            invariant
                i <= msgs.len(),
                msgs.deep_view() == all,
                all.len() == msgs@.len(),
                self.wf(),
                self.failed() == f0,
                self.addrs() == batch_state(st0, all.take(i as int)),
                self.pending() == q0 + batch_events(st0, all.take(i as int)),
            decreases msgs.len() - i,
        {
            proof {
                assert(all.take(i + 1).drop_last() =~= all.take(i as int));
                assert(all.take(i + 1).last() == all[i as int]);
                assert(all[i as int] =~= msgs@[i as int]@);
            }
            let ghost qpre = self.pending();
            let ghost stpre = self.addrs();
            self.handle_message(&msgs[i]);
            proof {
                assert(q0 + batch_events(st0, all.take(i + 1)) =~= (q0 + batch_events(
                    st0,
                    all.take(i as int),
                )) + msg_step_events(stpre, msgs@[i as int]@));
            }
            i = i + 1;
        }
        proof {
            assert(all.take(all.len() as int) =~= all);
        }
    }

    /// Feeds one received datagram: splits it into the framed messages its
    /// length fields delimit and processes them in order. Returns whether the
    /// buffer was well framed end to end; when it was not, the read was
    /// corrupt and the backend is to fail the watcher, since the messages
    /// after the corruption are lost.
    pub fn handle_datagram(&mut self, buf: &Vec<u8>) -> (clean: bool)
        requires
            old(self).wf(),
        ensures
            final(self).wf(),
            final(self).failed() == old(self).failed(),
            final(self).addrs() == batch_state(old(self).addrs(), spec_split(buf@, 0)),
            final(self).pending() == old(self).pending() + batch_events(
                old(self).addrs(),
                spec_split(buf@, 0),
            ),
            clean == split_clean(buf@, 0),
    {
        let (frames, clean) = split_messages(buf);
        self.handle_messages(&frames);
        clean
    }

    /// Whether an event is pending, without draining it.
    pub fn has_pending(&self) -> (r: bool)
        ensures
            r == (self.pending().len() > 0),
    {
        self.queue.len() > 0
    }

    /// The suspension-contract operation: hands out the oldest pending event,
    /// or reports "not ready" — the caller is then to be resumed when the
    /// backend's resource signals again. A watcher that recorded a fatal
    /// failure must not be polled.
    pub fn poll_next(&mut self) -> (r: Option<IfEvent>)
        requires
            old(self).wf(),
            !old(self).failed(),
        ensures
            final(self).wf(),
            final(self).addrs() == old(self).addrs(),
            final(self).failed() == old(self).failed(),
            old(self).pending().len() == 0 ==> r is None && final(self).pending() == old(self).pending(),
            old(self).pending().len() > 0 ==> r == Some(old(self).pending()[0]) && final(self).pending() == old(self).pending().remove(0),
    {
        if self.queue.len() == 0 {
            None
        } else {
            Some(self.queue.remove(0))
        }
    }

    /// Records a fatal resource failure: the socket or handle entered an
    /// error state the watcher cannot see past, so its view can no longer be
    /// trusted to converge. The state is kept for inspection; polling is over.
    pub fn mark_failed(&mut self)
        requires
            old(self).wf(),
        ensures
            final(self).wf(),
            final(self).failed(),
            final(self).addrs() == old(self).addrs(),
            final(self).pending() == old(self).pending(),
    {
        self.failed = true;
    }

    /// Whether a fatal resource failure was recorded.
    pub fn is_failed(&self) -> (r: bool)
        ensures
            r == self.failed(),
    {
        self.failed
    }
}

} // verus!
