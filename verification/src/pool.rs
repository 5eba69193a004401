//! The pool of backends: who is in it, who serves the next request, who is busy with how many.
//!
//! A backend keeps its slot for as long as the pool lives, also when it is removed, so that
//! requests in flight and probes under way can still account for a backend that has left. A slot
//! number is what the pool hands out for a backend. It is never given to another one.

use crate::backend::{views, Backend, BackendView};
use crate::config::Strategy;
use crate::ring::{held_backends, held_schedule, weights_of, Ring, RingCell};
use crate::schedule::{is_schedule, law_schedule_serves_positive_weights};
use std::sync::Arc;
use vstd::arithmetic::div_mod::{
    lemma_add_mod_noop, lemma_mod_add_multiples_vanish, lemma_small_mod,
};
use vstd::prelude::*;

verus! {

/// The state of a pool.
pub struct PoolView {
    /// Every backend that was ever added.
    pub slots: Seq<BackendView>,
    /// The slots of the backends that are in the pool, in the order in which they joined.
    pub members: Seq<usize>,
    /// The pick order of round robin: positions in `members`.
    pub schedule: Seq<usize>,
    pub strategy: Strategy,
    /// How many round-robin picks there were.
    pub cursor: usize,
}

impl PoolView {
    /// The backend that is the `p`-th member.
    pub open spec fn member(self, p: int) -> BackendView {
        self.slots[self.members[p] as int]
    }

    pub open spec fn weights(self) -> Seq<u32> {
        weights_of(self.slots, self.members)
    }

    /// Members have slots, no two the same, and the schedule is the one for their weights.
    pub open spec fn wf(self) -> bool {
        &&& self.slots.len() <= usize::MAX
        &&& forall|p: int| 0 <= p < self.members.len() ==> #[trigger] self.members[p] < self.slots.len()
        &&& self.members.no_duplicates()
        &&& is_schedule(self.weights(), self.schedule)
    }

    /// Some member has this address.
    pub open spec fn has(self, addr: Seq<char>) -> bool {
        exists|p: int| 0 <= p < self.members.len() && (#[trigger] self.member(p)).addr == addr
    }

    /// `p` is the first member that has this address.
    pub open spec fn is_first_with(self, addr: Seq<char>, p: int) -> bool {
        &&& 0 <= p < self.members.len()
        &&& self.member(p).addr == addr
        &&& forall|q: int| 0 <= q < p ==> (#[trigger] self.member(q)).addr != addr
    }

    /// `after` is this pool with a new member.
    pub open spec fn is_added(self, addr: Seq<char>, weight: u32, after: PoolView) -> bool {
        &&& after.wf()
        &&& after.slots == self.slots.push(BackendView::fresh(addr, weight))
        &&& after.members == self.members.push(self.slots.len() as usize)
        &&& after.strategy == self.strategy
        &&& after.cursor == self.cursor
    }

    /// `after` is this pool without the members that have this address.
    pub open spec fn is_removed(self, addr: Seq<char>, after: PoolView) -> bool {
        &&& after.wf()
        &&& after.slots == self.slots
        &&& after.members == self.members.filter(|m: usize| self.slots[m as int].addr != addr)
        &&& after.strategy == self.strategy
        &&& after.cursor == self.cursor
    }

    /// `after` is this pool with another weight for the `p`-th member.
    pub open spec fn is_reweighted(self, p: int, weight: u32, after: PoolView) -> bool {
        &&& after.wf()
        &&& after.slots == self.slots.update(
            self.members[p] as int,
            self.member(p).with_weight(weight),
        )
        &&& after.members == self.members
        &&& after.strategy == self.strategy
        &&& after.cursor == self.cursor
    }

    /// This pool with another state of one backend.
    pub open spec fn with_slot(self, slot: usize, backend: BackendView) -> PoolView {
        PoolView { slots: self.slots.update(slot as int, backend), ..self }
    }

    /// The slot whose turn it is after `i` others: the schedule is walked from the cursor on, and
    /// begins anew at its end.
    pub open spec fn turn(self, i: int) -> usize {
        self.members[self.schedule[(self.cursor + i) % self.schedule.len() as int] as int]
    }

    pub open spec fn is_up(self, slot: usize) -> bool {
        self.slots[slot as int].healthy
    }

    /// Round robin: the first backend from the cursor on, in schedule order, that is up.
    pub open spec fn is_round_robin_pick(self, pick: Option<usize>) -> bool {
        match pick {
            Some(slot) => exists|i: int|
                {
                    &&& 0 <= i < self.schedule.len()
                    &&& slot == #[trigger] self.turn(i)
                    &&& self.is_up(slot)
                    &&& forall|j: int| 0 <= j < i ==> !self.is_up(#[trigger] self.turn(j))
                },
            None => forall|i: int|
                0 <= i < self.schedule.len() ==> !self.is_up(#[trigger] self.turn(i)),
        }
    }

    /// Least connections: of the members that are up, the first one with the fewest connections.
    pub open spec fn is_least_connections_pick(self, pick: Option<usize>) -> bool {
        match pick {
            Some(slot) => exists|p: int|
                {
                    &&& 0 <= p < self.members.len()
                    &&& slot == self.members[p]
                    &&& (#[trigger] self.member(p)).healthy
                    &&& forall|q: int|
                        0 <= q < self.members.len() && (#[trigger] self.member(q)).healthy ==> {
                            &&& self.member(p).active_conns <= self.member(q).active_conns
                            &&& q < p ==> self.member(p).active_conns < self.member(q).active_conns
                        }
                },
            None => forall|p: int|
                0 <= p < self.members.len() ==> !(#[trigger] self.member(p)).healthy,
        }
    }

    /// `pick` is what the pool's strategy picks.
    pub open spec fn is_pick(self, pick: Option<usize>) -> bool {
        match self.strategy {
            Strategy::RoundRobin => self.is_round_robin_pick(pick),
            Strategy::LeastConnections => self.is_least_connections_pick(pick),
        }
    }

    /// The pool after a pick: round robin moves on by one, if there is anybody to pick.
    pub open spec fn after_pick(self) -> PoolView {
        if self.strategy == Strategy::RoundRobin && self.members.len() > 0 {
            PoolView { cursor: self.cursor.wrapping_add(1), ..self }
        } else {
            self
        }
    }

    /// The pool after `n` picks.
    pub open spec fn after_picks(self, n: nat) -> PoolView
        decreases n,
    {
        if n == 0 {
            self
        } else {
            self.after_picks((n - 1) as nat).after_pick()
        }
    }
}

pub struct BackendPool {
    slots: Vec<Backend>,
    ring: RingCell,
    strategy: Strategy,
    cursor: usize,
}

impl View for BackendPool {
    type V = PoolView;

    closed spec fn view(&self) -> PoolView {
        PoolView {
            slots: views(self.slots@),
            members: held_backends(self.ring),
            schedule: held_schedule(self.ring),
            strategy: self.strategy,
            cursor: self.cursor,
        }
    }
}

/// The backends that a pool starts with.
pub open spec fn fresh_backends(backends: Seq<(String, u32)>) -> Seq<BackendView> {
    Seq::new(backends.len(), |i: int| BackendView::fresh(backends[i].0@, backends[i].1))
}

impl BackendPool {
    pub open spec fn wf(self) -> bool {
        self@.wf()
    }

    pub fn new(backends: Vec<(String, u32)>, strategy: Strategy) -> (pool: BackendPool)
        ensures
            pool.wf(),
            pool@.slots == fresh_backends(backends@),
            pool@.members == Seq::new(backends@.len(), |i: int| i as usize),
            pool@.strategy == strategy,
            pool@.cursor == 0,
    {
        let mut slots: Vec<Backend> = Vec::new();
        let mut members: Vec<usize> = Vec::new();
        let mut i: usize = 0;
        while i < backends.len()
            invariant
                i <= backends@.len(),
                slots@.len() == i,
                forall|j: int|
                    0 <= j < i ==> (#[trigger] slots@[j])@ == fresh_backends(backends@)[j],
                members@ == Seq::new(i as nat, |j: int| j as usize),
            decreases backends@.len() - i,
        {
            slots.push(Backend::new(backends[i].0.clone(), backends[i].1));
            members.push(i);
            i = i + 1;
        }
        assert(views(slots@) == fresh_backends(backends@));
        let ring: Ring = Ring::build(&slots, members);
        assert(slots.len() <= usize::MAX);
        BackendPool { slots, ring: RingCell::new(ring), strategy, cursor: 0 }
    }

    /// A pool for callers that do not care about weights: every backend gets weight 1.
    pub fn from_addrs(addrs: Vec<String>, strategy: Strategy) -> (pool: BackendPool)
        ensures
            pool.wf(),
            pool@.slots == Seq::new(addrs@.len(), |i: int| BackendView::fresh(addrs@[i]@, 1)),
            pool@.members == Seq::new(addrs@.len(), |i: int| i as usize),
            pool@.strategy == strategy,
            pool@.cursor == 0,
    {
        let mut backends: Vec<(String, u32)> = Vec::new();
        let mut i: usize = 0;
        while i < addrs.len()
            invariant
                i <= addrs@.len(),
                backends@.len() == i,
                forall|j: int|
                    0 <= j < i ==> (#[trigger] backends@[j]).0@ == addrs@[j]@ && backends@[j].1
                        == 1,
            decreases addrs@.len() - i,
        {
            backends.push((addrs[i].clone(), 1));
            i = i + 1;
        }
        let pool = BackendPool::new(backends, strategy);
        assert(pool@.slots == Seq::new(addrs@.len(), |i: int| BackendView::fresh(addrs@[i]@, 1)));
        pool
    }

    /// The slots of the backends that are in the pool now.
    pub fn snapshot(&self) -> (members: Vec<usize>)
        ensures
            members@ == self@.members,
    {
        let ring: Arc<Ring> = self.ring.load();
        ring.backends.clone()
    }

    /// How many slots there are. Every number below is a slot.
    pub fn slot_count(&self) -> (n: usize)
        ensures
            n == self@.slots.len(),
    {
        self.slots.len()
    }

    /// The backend in a slot.
    pub fn backend(&self, slot: usize) -> (backend: &Backend)
        requires
            slot < self@.slots.len(),
        ensures
            backend@ == self@.slots[slot as int],
    {
        &self.slots[slot]
    }

    /// Adds a backend, unless one with this address is in the pool already.
    pub fn add(&mut self, addr: String, weight: u32) -> (added: bool)
        requires
            old(self).wf(),
        ensures
            final(self).wf(),
            added == !old(self)@.has(addr@),
            added ==> old(self)@.is_added(addr@, weight, final(self)@),
            !added ==> final(self)@ == old(self)@,
    {
        let current: Arc<Ring> = self.ring.load();
        let mut i: usize = 0;
        while i < current.backends.len()
            invariant
                self.wf(),
                current.backends@ == self@.members,
                i <= current.backends@.len(),
                *self == *old(self),
                forall|p: int| 0 <= p < i ==> (#[trigger] self@.member(p)).addr != addr@,
            decreases current.backends@.len() - i,
        {
            if *self.slots[current.backends[i]].addr() == addr {
                assert(self@.member(i as int).addr == addr@);
                return false;
            }
            i = i + 1;
        }
        let mut members: Vec<usize> = current.backends.clone();
        members.push(self.slots.len());
        self.slots.push(Backend::new(addr, weight));
        assert(views(self.slots@) == views(old(self).slots@).push(BackendView::fresh(addr@, weight)));
        let ring: Ring = Ring::build(&self.slots, members);
        self.ring.store(Arc::new(ring));
        assert(self.slots.len() <= usize::MAX);
        true
    }

    /// Removes every backend that has this address.
    pub fn remove(&mut self, addr: &str) -> (removed: bool)
        requires
            old(self).wf(),
        ensures
            final(self).wf(),
            removed == old(self)@.has(addr@),
            removed ==> old(self)@.is_removed(addr@, final(self)@),
            !removed ==> final(self)@ == old(self)@,
    {
        let wanted: String = addr.to_owned();
        let current: Arc<Ring> = self.ring.load();
        let mut members: Vec<usize> = Vec::new();
        let ghost keeps = |m: usize| self@.slots[m as int].addr != addr@;
        let mut i: usize = 0;
        while i < current.backends.len()
            invariant
                self.wf(),
                wanted@ == addr@,
                *self == *old(self),
                current.backends@ == self@.members,
                keeps == (|m: usize| self@.slots[m as int].addr != addr@),
                i <= current.backends@.len(),
                members@ == current.backends@.take(i as int).filter(keeps),
                members@.len() == i <==> forall|p: int|
                    0 <= p < i ==> (#[trigger] self@.member(p)).addr != addr@,
                members@.len() <= i,
            decreases current.backends@.len() - i,
        {
            proof {
                let m = current.backends@[i as int];
                assert(current.backends@.take(i + 1) == current.backends@.take(i as int).push(m));
                lemma_filter_push(current.backends@.take(i as int), m, keeps);
                assert(self@.member(i as int).addr == self@.slots[m as int].addr);
            }
            if !(*self.slots[current.backends[i]].addr() == wanted) {
                members.push(current.backends[i]);
            }
            i = i + 1;
        }
        assert(current.backends@.take(i as int) == current.backends@);
        if members.len() == current.backends.len() {
            return false;
        }
        proof {
            lemma_filter_keeps(self@.members, keeps);
        }
        let ring: Ring = Ring::build(&self.slots, members);
        self.ring.store(Arc::new(ring));
        true
    }

    /// Shifts traffic by giving a backend another weight, from the next pick on.
    pub fn set_weight(&mut self, addr: &str, weight: u32) -> (updated: bool)
        requires
            old(self).wf(),
        ensures
            final(self).wf(),
            updated == old(self)@.has(addr@),
            updated ==> exists|p: int|
                {
                    &&& #[trigger] old(self)@.is_first_with(addr@, p)
                    &&& old(self)@.is_reweighted(p, weight, final(self)@)
                },
            !updated ==> final(self)@ == old(self)@,
    {
        let wanted: String = addr.to_owned();
        let current: Arc<Ring> = self.ring.load();
        let mut i: usize = 0;
        while i < current.backends.len()
            invariant
                self.wf(),
                wanted@ == addr@,
                *self == *old(self),
                current.backends@ == self@.members,
                i <= current.backends@.len(),
                forall|p: int| 0 <= p < i ==> (#[trigger] self@.member(p)).addr != addr@,
            decreases current.backends@.len() - i,
        {
            let slot: usize = current.backends[i];
            if *self.slots[slot].addr() == wanted {
                assert(self@.member(i as int).addr == addr@);
                self.slots[slot].set_weight(weight);
                assert(views(self.slots@) == views(old(self).slots@).update(
                    slot as int,
                    old(self)@.member(i as int).with_weight(weight),
                ));
                let ring: Ring = Ring::build(&self.slots, current.backends.clone());
                self.ring.store(Arc::new(ring));
                assert(old(self)@.is_first_with(addr@, i as int));
                return true;
            }
            i = i + 1;
        }
        false
    }

    /// Picks a healthy backend as the strategy has it.
    pub fn pick(&mut self) -> (pick: Option<usize>)
        requires
            old(self).wf(),
        ensures
            final(self).wf(),
            old(self)@.is_pick(pick),
            pick matches Some(slot) ==> slot < final(self)@.slots.len(),
            final(self)@ == old(self)@.after_pick(),
    {
        let ring: Arc<Ring> = self.ring.load();
        proof {
            law_schedule_serves_positive_weights(self@.weights(), self@.schedule);
        }
        if ring.backends.is_empty() {
            return None;
        }
        match self.strategy {
            Strategy::RoundRobin => {
                let n: usize = ring.schedule.len();
                let start: usize = self.cursor;
                self.cursor = self.cursor.wrapping_add(1);
                assert(self@.weights() == old(self)@.weights());
                let first: usize = start % n;
                let left: usize = n - first;
                let mut i: usize = 0;
                while i < n
                    invariant
                        old(self).wf(),
                        self.wf(),
                        self@ == old(self)@.after_pick(),
                        old(self)@.strategy == Strategy::RoundRobin,
                        self.slots == old(self).slots,
                        n == ring.schedule@.len(),
                        n > 0,
                        i <= n,
                        start == old(self)@.cursor,
                        first == start % n,
                        left == n - first,
                        ring.schedule@ == old(self)@.schedule,
                        ring.backends@ == old(self)@.members,
                        forall|k: int|
                            0 <= k < n ==> #[trigger] ring.schedule@[k] < ring.backends@.len(),
                        forall|j: int|
                            0 <= j < i ==> !old(self)@.is_up(#[trigger] old(self)@.turn(j)),
                    decreases n - i,
                {
                    let at: usize = if i < left {
                        first + i
                    } else {
                        i - left
                    };
                    proof {
                        lemma_walk(start as int, i as int, n as int);
                    }
                    let slot: usize = ring.backends[ring.schedule[at]];
                    assert(slot == old(self)@.turn(i as int));
                    if self.slots[slot].is_healthy() {
                        return Some(slot);
                    }
                    i = i + 1;
                }
                None
            },
            Strategy::LeastConnections => {
                let mut best: Option<usize> = None;
                let mut fewest: usize = 0;
                let mut i: usize = 0;
                let ghost mut at: int = 0;
                while i < ring.backends.len()
                    invariant
                        self.wf(),
                        *self == *old(self),
                        i <= ring.backends@.len(),
                        ring.backends@ == self@.members,
                        best is None ==> forall|p: int|
                            0 <= p < i ==> !(#[trigger] self@.member(p)).healthy,
                        best matches Some(slot) ==> {
                            &&& 0 <= at < i
                            &&& slot == self@.members[at]
                            &&& self@.member(at).healthy
                            &&& fewest == self@.member(at).active_conns
                            &&& forall|q: int|
                                0 <= q < i && (#[trigger] self@.member(q)).healthy ==> {
                                    &&& fewest <= self@.member(q).active_conns
                                    &&& q < at ==> fewest < self@.member(q).active_conns
                                }
                        },
                    decreases ring.backends@.len() - i,
                {
                    let slot: usize = ring.backends[i];
                    let backend: &Backend = &self.slots[slot];
                    assert(backend@ == self@.member(i as int));
                    if backend.is_healthy() {
                        let conns: usize = backend.active_conns();
                        if best.is_none() || conns < fewest {
                            best = Some(slot);
                            fewest = conns;
                            proof {
                                at = i as int;
                            }
                        }
                    }
                    i = i + 1;
                }
                best
            },
        }
    }

    /// Records what a probe of the backend in `slot` found, as `Backend::record_probe` does.
    pub fn record_probe(&mut self, slot: usize, ok: bool, fall: u32, rise: u32) -> (change: Option<
        bool,
    >)
        requires
            old(self).wf(),
            slot < old(self)@.slots.len(),
        ensures
            final(self).wf(),
            final(self)@ == old(self)@.with_slot(
                slot,
                old(self)@.slots[slot as int].probed(ok, fall, rise),
            ),
            change == old(self)@.slots[slot as int].verdict(ok, fall, rise),
    {
        let change: Option<bool> = self.slots[slot].record_probe(ok, fall, rise);
        proof {
            lemma_slot_update(*old(self), *self, slot);
        }
        change
    }

    fn inc_conns(&mut self, slot: usize)
        requires
            old(self).wf(),
            slot < old(self)@.slots.len(),
        ensures
            final(self).wf(),
            final(self)@ == old(self)@.with_slot(slot, old(self)@.slots[slot as int].busier()),
    {
        self.slots[slot].inc_conns();
        proof {
            lemma_slot_update(*old(self), *self, slot);
        }
    }

    fn dec_conns(&mut self, slot: usize)
        requires
            old(self).wf(),
            slot < old(self)@.slots.len(),
        ensures
            final(self).wf(),
            final(self)@ == old(self)@.with_slot(slot, old(self)@.slots[slot as int].idler()),
    {
        self.slots[slot].dec_conns();
        proof {
            lemma_slot_update(*old(self), *self, slot);
        }
    }
}

/// A connection to a backend, for as long as a request is in flight. It counts among the
/// backend's active connections from `new` to `release`. Only `release` gives it back: a guard
/// that goes out of scope without it leaves the connection counted, as the guard has no hold on
/// the pool by itself. Whoever may lose a guard, such as a future that can be dropped, has to
/// release it then.
#[must_use]
#[derive(Debug)]
pub struct ConnGuard {
    backend: usize,
}

impl ConnGuard {
    /// The slot of the backend that the connection goes to.
    pub closed spec fn slot(self) -> usize {
        self.backend
    }

    pub fn new(backend: usize, pool: &mut BackendPool) -> (guard: ConnGuard)
        requires
            old(pool).wf(),
            backend < old(pool)@.slots.len(),
        ensures
            guard.slot() == backend,
            final(pool).wf(),
            final(pool)@ == old(pool)@.with_slot(
                backend,
                old(pool)@.slots[backend as int].busier(),
            ),
    {
        pool.inc_conns(backend);
        ConnGuard { backend }
    }

    pub fn backend(&self) -> (backend: usize)
        ensures
            backend == self.slot(),
    {
        self.backend
    }

    /// Gives the connection back.
    pub fn release(self, pool: &mut BackendPool)
        requires
            old(pool).wf(),
            self.slot() < old(pool)@.slots.len(),
        ensures
            final(pool).wf(),
            final(pool)@ == old(pool)@.with_slot(
                self.slot(),
                old(pool)@.slots[self.slot() as int].idler(),
            ),
    {
        pool.dec_conns(self.backend);
    }
}

/// A new state of one backend that leaves its weight alone leaves the pool well-formed.
proof fn lemma_slot_update(before: BackendPool, after: BackendPool, slot: usize)
    requires
        before.wf(),
        slot < before.slots@.len(),
        after.slots@ == before.slots@.update(slot as int, after.slots@[slot as int]),
        after.slots@[slot as int]@.weight == before.slots@[slot as int]@.weight,
        after.ring == before.ring,
        after.strategy == before.strategy,
        after.cursor == before.cursor,
    ensures
        after.wf(),
        after@ == before@.with_slot(slot, after.slots@[slot as int]@),
{
    assert(after@.slots == before@.slots.update(slot as int, after.slots@[slot as int]@));
    assert(after@.weights() == before@.weights());
}

/// The place that is `i` steps from place `start % n` in a cycle of `n` places.
proof fn lemma_walk(start: int, i: int, n: int)
    requires
        0 <= i < n,
    ensures
        (start + i) % n == if i < n - start % n {
            start % n + i
        } else {
            i - (n - start % n)
        },
{
    let first = start % n;
    lemma_add_mod_noop(start, i, n);
    lemma_small_mod(i as nat, n as nat);
    if first + i < n {
        lemma_small_mod((first + i) as nat, n as nat);
    } else {
        lemma_mod_add_multiples_vanish(first + i - n, n);
        lemma_small_mod((first + i - n) as nat, n as nat);
    }
}

proof fn lemma_filter_push<A>(s: Seq<A>, a: A, pred: spec_fn(A) -> bool)
    ensures
        s.push(a).filter(pred) == if pred(a) {
            s.filter(pred).push(a)
        } else {
            s.filter(pred)
        },
{
    reveal(Seq::filter);
    assert(s.push(a).drop_last() == s);
}

/// A filtered sequence without duplicates has none, and only elements of the whole.
proof fn lemma_filter_keeps(s: Seq<usize>, pred: spec_fn(usize) -> bool)
    requires
        s.no_duplicates(),
    ensures
        s.filter(pred).no_duplicates(),
        forall|i: int|
            0 <= i < s.filter(pred).len() ==> s.contains(#[trigger] s.filter(pred)[i]) && pred(
                s.filter(pred)[i],
            ),
    decreases s.len(),
{
    reveal(Seq::filter);
    if s.len() > 0 {
        let before = s.drop_last();
        assert(before.no_duplicates());
        lemma_filter_keeps(before, pred);
        let kept = before.filter(pred);
        assert forall|i: int| 0 <= i < kept.len() implies s.contains(#[trigger] kept[i]) && kept[i]
            != s.last() by {
            let k = choose|k: int| 0 <= k < before.len() && before[k] == kept[i];
            assert(s[k] == kept[i]);
        }
        assert(s.contains(s[s.len() - 1]));
    }
}

} // verus!
