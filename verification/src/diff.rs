//! The snapshot & diff engine: the watcher's authoritative set of prefixes,
//! and the algorithm that turns successive snapshots into a minimal, ordered
//! list of `Up`/`Down` events.

use vstd::prelude::*;

use crate::net::IpNet;

verus! {

broadcast use vstd::seq_lib::group_seq_properties;

/// An address change event: one atomic addition or removal of a prefix.
#[derive(Clone, Copy, Debug, Hash, PartialEq, Eq, Structural)]
pub enum IfEvent {
    /// A new local address has been added.
    Up(IpNet),
    /// A local address has been deleted.
    Down(IpNet),
}

/// No prefix occurs twice in the sequence.
pub open spec fn no_dups(s: Seq<IpNet>) -> bool {
    forall|i: int, j: int| 0 <= i < j < s.len() ==> s[i] != s[j]
}

/// First-occurrence deduplication: the sequence with every repeat of an
/// earlier element dropped, order otherwise kept.
pub open spec fn dedup(s: Seq<IpNet>) -> Seq<IpNet>
    decreases s.len(),
{
    if s.len() == 0 {
        Seq::empty()
    } else {
        let rest = dedup(s.drop_last());
        if rest.contains(s.last()) {
            rest
        } else {
            rest.push(s.last())
        }
    }
}

/// One `Down` event for each element of `old` absent from `new`, in `old`
/// iteration order.
pub open spec fn down_events(old: Seq<IpNet>, new: Seq<IpNet>) -> Seq<IfEvent>
    decreases old.len(),
{
    if old.len() == 0 {
        Seq::empty()
    } else {
        let rest = down_events(old.drop_last(), new);
        if new.contains(old.last()) {
            rest
        } else {
            rest.push(IfEvent::Down(old.last()))
        }
    }
}

/// One `Up` event for each element of `new` absent from `old`, in `new`
/// iteration order.
pub open spec fn up_events(old: Seq<IpNet>, new: Seq<IpNet>) -> Seq<IfEvent>
    decreases new.len(),
{
    if new.len() == 0 {
        Seq::empty()
    } else {
        let rest = up_events(old, new.drop_last());
        if old.contains(new.last()) {
            rest
        } else {
            rest.push(IfEvent::Up(new.last()))
        }
    }
}

/// The full-snapshot diff: every removal, then every addition.
pub open spec fn diff_events(old: Seq<IpNet>, new: Seq<IpNet>) -> Seq<IfEvent> {
    down_events(old, new) + up_events(old, new)
}

/// Every occurrence of `x` removed from `s`, order otherwise kept.
pub open spec fn seq_remove(s: Seq<IpNet>, x: IpNet) -> Seq<IpNet>
    decreases s.len(),
{
    if s.len() == 0 {
        s
    } else {
        let rest = seq_remove(s.drop_last(), x);
        if s.last() == x {
            rest
        } else {
            rest.push(s.last())
        }
    }
}

/// Replay of an event list over a set of prefixes, first event first:
/// `Up` inserts, `Down` removes.
pub open spec fn apply_events(s: Set<IpNet>, evs: Seq<IfEvent>) -> Set<IpNet>
    decreases evs.len(),
{
    if evs.len() == 0 {
        s
    } else {
        let prior = apply_events(s, evs.drop_last());
        match evs.last() {
            IfEvent::Up(p) => prior.insert(p),
            IfEvent::Down(p) => prior.remove(p),
        }
    }
}

/// Membership in a nonempty sequence splits into membership in all but the
/// last element, or equality with the last element.
pub proof fn lemma_contains_split(s: Seq<IpNet>)
    requires
        s.len() > 0,
    ensures
        forall|x: IpNet|
            #![trigger s.contains(x)]
            #![trigger s.drop_last().contains(x)]
            s.contains(x) <==> (s.drop_last().contains(x) || s.last() == x),
{
    assert forall|x: IpNet| s.contains(x) implies (s.drop_last().contains(x) || s.last() == x) by {
        let i = choose|i: int| 0 <= i < s.len() && s[i] == x;
        if i < s.len() - 1 {
            assert(s.drop_last()[i] == x);
        }
    }
    assert forall|x: IpNet| (s.drop_last().contains(x) || s.last() == x) implies s.contains(x) by {
        if s.drop_last().contains(x) {
            let i = choose|i: int| 0 <= i < s.drop_last().len() && s.drop_last()[i] == x;
            assert(s[i] == x);
        } else {
            assert(s[s.len() - 1] == x);
        }
    }
}

/// Membership in `seq_remove(s, x)` is membership in `s` minus `x`, and
/// removal keeps freedom from duplicates.
pub proof fn lemma_seq_remove_props(s: Seq<IpNet>, x: IpNet)
    ensures
        forall|y: IpNet| #[trigger] seq_remove(s, x).contains(y) <==> (s.contains(y) && y != x),
        no_dups(s) ==> no_dups(seq_remove(s, x)),
    decreases s.len(),
{
    if s.len() == 0 {
    } else {
        lemma_seq_remove_props(s.drop_last(), x);
        lemma_contains_split(s);
        if no_dups(s) {
            assert forall|i: int, j: int| 0 <= i < j < s.drop_last().len() implies s.drop_last()[i]
                != s.drop_last()[j] by {
                assert(s.drop_last()[i] == s[i]);
                assert(s.drop_last()[j] == s[j]);
            }
        }
        let rest = seq_remove(s.drop_last(), x);
        if s.last() == x {
        } else {
            assert forall|y: IpNet| #[trigger] rest.push(s.last()).contains(y) implies (s.contains(
                y,
            ) && y != x) by {}
            assert forall|y: IpNet| (s.contains(y) && y != x) implies #[trigger] rest.push(
                s.last(),
            ).contains(y) by {}
            if no_dups(s) {
                assert(!s.drop_last().contains(s.last())) by {
                    if s.drop_last().contains(s.last()) {
                        let i = choose|i: int|
                            0 <= i < s.drop_last().len() && s.drop_last()[i] == s.last();
                        assert(s[i] == s[s.len() - 1]);
                    }
                }
                assert(!rest.contains(s.last()));
                let r = rest.push(s.last());
                assert forall|i: int, j: int| 0 <= i < j < r.len() implies r[i] != r[j] by {
                    if j < r.len() - 1 {
                        assert(no_dups(rest));
                    } else {
                        if r[i] == r[j] {
                            assert(rest[i] == s.last());
                            assert(rest.contains(s.last()));
                        }
                    }
                }
            }
        }
    }
}

/// Deduplication keeps exactly the original elements and yields no duplicates.
pub proof fn lemma_dedup_props(s: Seq<IpNet>)
    ensures
        forall|y: IpNet| #[trigger] dedup(s).contains(y) <==> s.contains(y),
        no_dups(dedup(s)),
    decreases s.len(),
{
    if s.len() == 0 {
    } else {
        lemma_dedup_props(s.drop_last());
        lemma_contains_split(s);
        let rest = dedup(s.drop_last());
        if rest.contains(s.last()) {
        } else {
            let r = rest.push(s.last());
            assert forall|i: int, j: int| 0 <= i < j < r.len() implies r[i] != r[j] by {
                if j < r.len() - 1 {
                    assert(no_dups(rest));
                } else {
                    if r[i] == r[j] {
                        assert(rest[i] == s.last());
                        assert(rest.contains(s.last()));
                    }
                }
            }
        }
    }
}

/// No `Down` event arises when every old element is still in the new snapshot.
proof fn lemma_down_events_all_present(old: Seq<IpNet>, new: Seq<IpNet>)
    requires
        forall|i: int| 0 <= i < old.len() ==> new.contains(#[trigger] old[i]),
    ensures
        down_events(old, new) == Seq::<IfEvent>::empty(),
    decreases old.len(),
{
    if old.len() == 0 {
        assert(down_events(old, new) =~= Seq::<IfEvent>::empty());
    } else {
        assert forall|i: int| 0 <= i < old.drop_last().len() implies new.contains(
            #[trigger] old.drop_last()[i],
        ) by {
            assert(old.drop_last()[i] == old[i]);
        }
        lemma_down_events_all_present(old.drop_last(), new);
        assert(new.contains(old[old.len() - 1]));
    }
}

/// No `Up` event arises when every new element was already in the old set.
proof fn lemma_up_events_all_present(old: Seq<IpNet>, new: Seq<IpNet>)
    requires
        forall|i: int| 0 <= i < new.len() ==> old.contains(#[trigger] new[i]),
    ensures
        up_events(old, new) == Seq::<IfEvent>::empty(),
    decreases new.len(),
{
    if new.len() == 0 {
        assert(up_events(old, new) =~= Seq::<IfEvent>::empty());
    } else {
        assert forall|i: int| 0 <= i < new.drop_last().len() implies old.contains(
            #[trigger] new.drop_last()[i],
        ) by {
            assert(new.drop_last()[i] == new[i]);
        }
        lemma_up_events_all_present(old, new.drop_last());
        assert(old.contains(new[new.len() - 1]));
    }
}

/// Idempotence: diffing a snapshot against a state that already holds exactly
/// that snapshot emits no events. In particular, feeding the engine the same
/// full snapshot twice in a row yields no events on the second pass, whatever
/// the starting set was: the first pass leaves the state equal to the
/// deduplicated snapshot, and the second pass diffs that state against itself.
pub proof fn lemma_diff_idempotent(s: Seq<IpNet>)
    ensures
        diff_events(s, s) == Seq::<IfEvent>::empty(),
{
    assert forall|i: int| 0 <= i < s.len() implies s.contains(#[trigger] s[i]) by {}
    lemma_down_events_all_present(s, s);
    lemma_up_events_all_present(s, s);
    assert(diff_events(s, s) =~= Seq::<IfEvent>::empty());
}

/// Replaying a concatenation replays the first part, then the second.
proof fn lemma_apply_concat(s: Set<IpNet>, a: Seq<IfEvent>, b: Seq<IfEvent>)
    ensures
        apply_events(s, a + b) == apply_events(apply_events(s, a), b),
    decreases b.len(),
{
    if b.len() == 0 {
        assert(a + b =~= a);
    } else {
        lemma_apply_concat(s, a, b.drop_last());
        assert((a + b).drop_last() =~= a + b.drop_last());
        assert((a + b).last() == b.last());
    }
}

/// Replaying the `Down` events of a diff removes exactly the old elements that
/// the new snapshot no longer holds.
proof fn lemma_apply_downs(s: Set<IpNet>, old: Seq<IpNet>, new: Seq<IpNet>)
    ensures
        apply_events(s, down_events(old, new)) == s.difference(
            old.to_set().difference(new.to_set()),
        ),
    decreases old.len(),
{
    if old.len() == 0 {
        assert(down_events(old, new) =~= Seq::<IfEvent>::empty());
        assert(s.difference(old.to_set().difference(new.to_set())) =~= s);
    } else {
        lemma_apply_downs(s, old.drop_last(), new);
        lemma_contains_split(old);
        let o = old.drop_last();
        let p = old.last();
        if new.contains(p) {
            assert(s.difference(old.to_set().difference(new.to_set())) =~= s.difference(
                o.to_set().difference(new.to_set()),
            ));
        } else {
            let evs = down_events(o, new);
            assert(evs.push(IfEvent::Down(p)).drop_last() =~= evs);
            assert(apply_events(s, evs.push(IfEvent::Down(p))) == apply_events(s, evs).remove(p));
            assert(s.difference(o.to_set().difference(new.to_set())).remove(p) =~= s.difference(
                old.to_set().difference(new.to_set()),
            ));
        }
    }
}

/// Replaying the `Up` events of a diff adds exactly the new elements that the
/// old set did not hold.
proof fn lemma_apply_ups(s: Set<IpNet>, old: Seq<IpNet>, new: Seq<IpNet>)
    ensures
        apply_events(s, up_events(old, new)) == s.union(new.to_set().difference(old.to_set())),
    decreases new.len(),
{
    if new.len() == 0 {
        assert(up_events(old, new) =~= Seq::<IfEvent>::empty());
        assert(s.union(new.to_set().difference(old.to_set())) =~= s);
    } else {
        lemma_apply_ups(s, old, new.drop_last());
        lemma_contains_split(new);
        let n = new.drop_last();
        let p = new.last();
        if old.contains(p) {
            assert(s.union(new.to_set().difference(old.to_set())) =~= s.union(
                n.to_set().difference(old.to_set()),
            ));
        } else {
            let evs = up_events(old, n);
            assert(evs.push(IfEvent::Up(p)).drop_last() =~= evs);
            assert(apply_events(s, evs.push(IfEvent::Up(p))) == apply_events(s, evs).insert(p));
            assert(s.union(n.to_set().difference(old.to_set())).insert(p) =~= s.union(
                new.to_set().difference(old.to_set()),
            ));
        }
    }
}

/// Completeness: replaying the emitted event list over the old set — adding on
/// `Up`, removing on `Down` — reconstructs exactly the new snapshot's set of
/// prefixes, for any two snapshots.
pub proof fn lemma_diff_complete(old: Seq<IpNet>, new: Seq<IpNet>)
    ensures
        apply_events(old.to_set(), diff_events(old, new)) == new.to_set(),
{
    lemma_apply_concat(old.to_set(), down_events(old, new), up_events(old, new));
    lemma_apply_downs(old.to_set(), old, new);
    lemma_apply_ups(old.to_set().difference(old.to_set().difference(new.to_set())), old, new);
    assert(old.to_set().difference(old.to_set().difference(new.to_set())).union(
        new.to_set().difference(old.to_set()),
    ) =~= new.to_set());
}

/// Every event of `down_events` is a `Down`.
proof fn lemma_down_events_are_down(old: Seq<IpNet>, new: Seq<IpNet>)
    ensures
        forall|k: int|
            0 <= k < down_events(old, new).len() ==> #[trigger] down_events(old, new)[k] is Down,
    decreases old.len(),
{
    if old.len() == 0 {
    } else {
        lemma_down_events_are_down(old.drop_last(), new);
    }
}

/// Every event of `up_events` is an `Up`.
proof fn lemma_up_events_are_up(old: Seq<IpNet>, new: Seq<IpNet>)
    ensures
        forall|k: int|
            0 <= k < up_events(old, new).len() ==> #[trigger] up_events(old, new)[k] is Up,
    decreases new.len(),
{
    if new.len() == 0 {
    } else {
        lemma_up_events_are_up(old, new.drop_last());
    }
}

/// Removal-before-addition ordering: in one diff pass, every `Down` event
/// stands before every `Up` event.
pub proof fn lemma_downs_before_ups(old: Seq<IpNet>, new: Seq<IpNet>)
    ensures
        forall|i: int, j: int|
            0 <= i < diff_events(old, new).len() && 0 <= j < diff_events(old, new).len()
                && #[trigger] diff_events(old, new)[i] is Down && #[trigger] diff_events(
                old,
                new,
            )[j] is Up ==> i < j,
{
    lemma_down_events_are_down(old, new);
    lemma_up_events_are_up(old, new);
    let d = down_events(old, new);
    let u = up_events(old, new);
    assert forall|i: int, j: int|
        0 <= i < diff_events(old, new).len() && 0 <= j < diff_events(old, new).len()
            && #[trigger] diff_events(old, new)[i] is Down && #[trigger] diff_events(
            old,
            new,
        )[j] is Up implies i < j by {
        if i >= d.len() {
            assert(diff_events(old, new)[i] == u[i - d.len()]);
        }
        if j < d.len() {
            assert(diff_events(old, new)[j] == d[j]);
        }
    }
}

// ---------------------------------------------------------------------------
// Executable engine
// ---------------------------------------------------------------------------

/// Whether `v` holds `p`.
fn vec_contains(v: &Vec<IpNet>, p: &IpNet) -> (r: bool)
    ensures
        r == v@.contains(*p),
{
    let mut i: usize = 0;
    while i < v.len()
        invariant
            i <= v.len(),
            forall|k: int| 0 <= k < i ==> v@[k] != *p,
        decreases v.len() - i,
    {
        if v[i] == *p {
            return true;
        }
        i = i + 1;
    }
    false
}

/// First-occurrence deduplication of a snapshot, order kept.
fn dedup_vec(snap: &Vec<IpNet>) -> (r: Vec<IpNet>)
    ensures
        r@ == dedup(snap@),
{
    let mut r: Vec<IpNet> = Vec::new();
    let mut i: usize = 0;
    while i < snap.len()
        invariant
            i <= snap.len(),
            r@ == dedup(snap@.take(i as int)),
        decreases snap.len() - i,
    {
        proof {
            assert(snap@.take(i + 1).drop_last() =~= snap@.take(i as int));
            assert(snap@.take(i + 1).last() == snap@[i as int]);
        }
        if !vec_contains(&r, &snap[i]) {
            r.push(snap[i]);
        }
        i = i + 1;
    }
    proof {
        assert(snap@.take(snap@.len() as int) =~= snap@);
    }
    r
}

/// The watcher's authoritative state: the set of prefixes currently believed
/// present on the host, kept in discovery order and free of duplicates.
/// Mutated only by the diff operations below, which are the single writer.
#[derive(Debug)]
pub struct AddressSet {
    addrs: Vec<IpNet>,
}

impl View for AddressSet {
    type V = Seq<IpNet>;

    closed spec fn view(&self) -> Seq<IpNet> {
        self.addrs@
    }
}

impl AddressSet {
    /// The structural invariant: no prefix is held twice.
    pub open spec fn wf(&self) -> bool {
        no_dups(self@)
    }

    /// An empty address set.
    pub fn new() -> (r: AddressSet)
        ensures
            r@ == Seq::<IpNet>::empty(),
            r.wf(),
    {
        AddressSet { addrs: Vec::new() }
    }

    /// The set populated from one full enumeration, duplicates dropped.
    pub fn from_snapshot(snap: &Vec<IpNet>) -> (r: AddressSet)
        ensures
            r@ == dedup(snap@),
            r.wf(),
    {
        let addrs = dedup_vec(snap);
        proof {
            lemma_dedup_props(snap@);
        }
        AddressSet { addrs }
    }

    /// Whether `p` is currently believed present.
    pub fn contains(&self, p: &IpNet) -> (r: bool)
        ensures
            r == self@.contains(*p),
    {
        vec_contains(&self.addrs, p)
    }

    /// The current prefixes, in discovery order.
    pub fn addresses(&self) -> (r: &Vec<IpNet>)
        ensures
            r@ == self@,
    {
        &self.addrs
    }

    /// How many prefixes are currently held.
    pub fn len(&self) -> (r: usize)
        ensures
            r == self@.len(),
    {
        self.addrs.len()
    }

    /// Full-snapshot diff pass: replaces the stored set with the (deduplicated)
    /// snapshot and returns the minimal event list bringing the old set to the
    /// new one — every removal, in old-set order, then every addition, in
    /// snapshot order.
    pub fn apply_snapshot(&mut self, snap: &Vec<IpNet>) -> (evs: Vec<IfEvent>)
        requires
            old(self).wf(),
        ensures
            final(self)@ == dedup(snap@),
            final(self).wf(),
            evs@ == diff_events(old(self)@, dedup(snap@)),
    {
        let newv = dedup_vec(snap);
        proof {
            lemma_dedup_props(snap@);
        }
        let ghost old_seq = self.addrs@;
        let mut evs: Vec<IfEvent> = Vec::new();

        let mut i: usize = 0;
        while i < self.addrs.len()
            invariant
                i <= self.addrs.len(),
                self.addrs@ == old_seq,
                newv@ == dedup(snap@),
                evs@ == down_events(old_seq.take(i as int), newv@),
            decreases self.addrs.len() - i,
        {
            proof {
                assert(old_seq.take(i + 1).drop_last() =~= old_seq.take(i as int));
                assert(old_seq.take(i + 1).last() == old_seq[i as int]);
            }
            if !vec_contains(&newv, &self.addrs[i]) {
                evs.push(IfEvent::Down(self.addrs[i]));
            }
            i = i + 1;
        }
        proof {
            assert(old_seq.take(old_seq.len() as int) =~= old_seq);
        }

        let mut j: usize = 0;
        while j < newv.len()
            invariant
                j <= newv.len(),
                self.addrs@ == old_seq,
                newv@ == dedup(snap@),
                evs@ == down_events(old_seq, newv@) + up_events(old_seq, newv@.take(j as int)),
            decreases newv.len() - j,
        {
            proof {
                assert(newv@.take(j + 1).drop_last() =~= newv@.take(j as int));
                assert(newv@.take(j + 1).last() == newv@[j as int]);
            }
            if !vec_contains(&self.addrs, &newv[j]) {
                evs.push(IfEvent::Up(newv[j]));
            }
            j = j + 1;
        }
        proof {
            assert(newv@.take(newv@.len() as int) =~= newv@);
        }

        self.addrs = newv;
        evs
    }

    /// Incremental "address added" notification: if the prefix is already
    /// present the event is suppressed and nothing changes; otherwise it is
    /// recorded and the `Up` event returned.
    pub fn handle_up(&mut self, p: IpNet) -> (r: Option<IfEvent>)
        requires
            old(self).wf(),
        ensures
            final(self).wf(),
            old(self)@.contains(p) ==> r is None && final(self)@ == old(self)@,
            !old(self)@.contains(p) ==> r == Some(IfEvent::Up(p)) && final(self)@ == old(
                self,
            )@.push(p),
    {
        if vec_contains(&self.addrs, &p) {
            None
        } else {
            let ghost pre = self.addrs@;
            self.addrs.push(p);
            proof {
                assert forall|i: int, j: int| 0 <= i < j < self.addrs@.len() implies self.addrs@[i]
                    != self.addrs@[j] by {
                    if j < self.addrs@.len() - 1 {
                        assert(pre[i] != pre[j]);
                    } else {
                        if self.addrs@[i] == self.addrs@[j] {
                            assert(pre[i] == p);
                            assert(pre.contains(p));
                        }
                    }
                }
            }
            Some(IfEvent::Up(p))
        }
    }

    /// Incremental "address removed" notification: if the prefix is absent the
    /// event is suppressed and nothing changes; otherwise it is dropped from
    /// the set and the `Down` event returned.
    pub fn handle_down(&mut self, p: IpNet) -> (r: Option<IfEvent>)
        requires
            old(self).wf(),
        ensures
            final(self).wf(),
            !old(self)@.contains(p) ==> r is None && final(self)@ == old(self)@,
            old(self)@.contains(p) ==> r == Some(IfEvent::Down(p)) && final(self)@ == seq_remove(
                old(self)@,
                p,
            ),
    {
        if !vec_contains(&self.addrs, &p) {
            return None;
        }
        let ghost pre = self.addrs@;
        let mut kept: Vec<IpNet> = Vec::new();
        let mut i: usize = 0;
        while i < self.addrs.len()
            invariant
                i <= self.addrs.len(),
                self.addrs@ == pre,
                kept@ == seq_remove(pre.take(i as int), p),
            decreases self.addrs.len() - i,
        {
            proof {
                assert(pre.take(i + 1).drop_last() =~= pre.take(i as int));
                assert(pre.take(i + 1).last() == pre[i as int]);
            }
            if !(self.addrs[i] == p) {
                kept.push(self.addrs[i]);
            }
            i = i + 1;
        }
        proof {
            assert(pre.take(pre.len() as int) =~= pre);
            lemma_seq_remove_props(pre, p);
        }
        self.addrs = kept;
        Some(IfEvent::Down(p))
    }
}

} // verus!
