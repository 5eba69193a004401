//! What holds over time, with requests in flight side by side while the pool changes under them.

use crate::metrics::{active_delta, MetricOp};
use crate::pool::PoolView;
use crate::pool_laws::law_pick_is_up_and_in_line;
use crate::proxy::{lemma_active_delta_push, Begin, Finish, ProxyError, Upstream};
use vstd::arithmetic::div_mod::{lemma_add_mod_noop, lemma_small_mod};
use vstd::prelude::*;

verus! {

/// One operation on a pool. A round of health checks is a series of probes.
pub enum Step {
    /// `proxy::begin` took in a request.
    Begin { path: Option<Seq<char>>, peer_ip: Seq<char>, begin: Begin },
    /// `proxy::finish` ended a request to the backend in `slot`.
    Finish { slot: usize, upstream: Upstream, finish: Finish },
    /// `proxy::abandon` ended a request to the backend in `slot`.
    Abandon { slot: usize, ops: Seq<MetricOp> },
    /// `ConnGuard::new` was called for no request of the proxy.
    Open { slot: usize },
    /// `ConnGuard::release` was called for no request of the proxy.
    Close { slot: usize },
    Pick { pick: Option<usize> },
    Probe { slot: usize, ok: bool, fall: u32, rise: u32 },
    Add { addr: Seq<char>, weight: u32 },
    Remove { addr: Seq<char> },
    SetWeight { addr: Seq<char>, weight: u32 },
}

impl Step {
    /// The operation takes a pool from `before` to `after`.
    pub open spec fn leads(self, before: PoolView, after: PoolView) -> bool {
        &&& before.wf()
        &&& after.wf()
        &&& match self {
            Step::Begin { path, peer_ip, begin } => exists|pick: Option<usize>|
                {
                    &&& #[trigger] before.is_pick(pick)
                    &&& begin.is_begin(before, pick, path, peer_ip, after)
                },
            Step::Finish { slot, upstream, finish } => {
                &&& slot < before.slots.len()
                &&& after == before.with_slot(slot, before.slots[slot as int].idler())
                &&& finish.is_finish(upstream)
            },
            Step::Abandon { slot, ops } => {
                &&& slot < before.slots.len()
                &&& after == before.with_slot(slot, before.slots[slot as int].idler())
                &&& ops == seq![MetricOp::ActiveDec]
            },
            Step::Open { slot } => {
                &&& slot < before.slots.len()
                &&& after == before.with_slot(slot, before.slots[slot as int].busier())
            },
            Step::Close { slot } => {
                &&& slot < before.slots.len()
                &&& after == before.with_slot(slot, before.slots[slot as int].idler())
            },
            Step::Pick { pick } => {
                &&& before.is_pick(pick)
                &&& after == before.after_pick()
            },
            Step::Probe { slot, ok, fall, rise } => {
                &&& slot < before.slots.len()
                &&& after == before.with_slot(
                    slot,
                    before.slots[slot as int].probed(ok, fall, rise),
                )
            },
            Step::Add { addr, weight } => if before.has(addr) {
                after == before
            } else {
                before.is_added(addr, weight, after)
            },
            Step::Remove { addr } => if before.has(addr) {
                before.is_removed(addr, after)
            } else {
                after == before
            },
            Step::SetWeight { addr, weight } => if before.has(addr) {
                exists|p: int|
                    {
                        &&& #[trigger] before.is_first_with(addr, p)
                        &&& before.is_reweighted(p, weight, after)
                    }
            } else {
                after == before
            },
        }
    }

    /// The slot of the backend to which the operation opens or closes a connection.
    pub open spec fn slot(self) -> Option<usize> {
        match self {
            Step::Begin { begin: Begin::Forward(forward), .. } => Some(forward.guard.slot()),
            Step::Finish { slot, .. } => Some(slot),
            Step::Abandon { slot, .. } => Some(slot),
            Step::Open { slot } => Some(slot),
            Step::Close { slot } => Some(slot),
            _ => None,
        }
    }

    /// The connections that the operation opens, less those that it closes.
    pub open spec fn opened(self) -> int {
        match self {
            Step::Begin { begin: Begin::Forward(_), .. } => 1,
            Step::Open { .. } => 1,
            Step::Finish { .. } => -1,
            Step::Abandon { .. } => -1,
            Step::Close { .. } => -1,
            _ => 0,
        }
    }

    /// The connections to the backend in `slot` that the operation opens, less those that it
    /// closes.
    pub open spec fn opened_to(self, slot: usize) -> int {
        if self.slot() == Some(slot) {
            self.opened()
        } else {
            0
        }
    }

    /// The operation concerns a request of the proxy.
    pub open spec fn is_of_request(self) -> bool {
        self is Begin || self is Finish || self is Abandon
    }

    /// The requests to the backend in `slot` that the operation begins, less those that it ends.
    pub open spec fn begun_to(self, slot: usize) -> int {
        if self.is_of_request() {
            self.opened_to(slot)
        } else {
            0
        }
    }

    /// What the operation comes to for the gauge of requests in flight to `addr`, where a request
    /// is counted under the address of the backend that it goes to.
    pub open spec fn gauge_change(self, before: PoolView, addr: Seq<char>) -> int {
        match self {
            Step::Begin { begin: Begin::Forward(forward), .. } => if forward.addr@ == addr {
                active_delta(forward.ops@)
            } else {
                0
            },
            Step::Begin { begin: Begin::Refuse(refusal), .. } => if refusal.addr@ == addr {
                active_delta(refusal.ops@)
            } else {
                0
            },
            Step::Finish { slot, finish, .. } => if before.slots[slot as int].addr == addr {
                active_delta(finish.ops@)
            } else {
                0
            },
            Step::Abandon { slot, ops } => if before.slots[slot as int].addr == addr {
                active_delta(ops)
            } else {
                0
            },
            _ => 0,
        }
    }
}

/// A pool went through `states`, by one of `steps` from each to the next.
pub open spec fn is_run(states: Seq<PoolView>, steps: Seq<Step>) -> bool {
    &&& states.len() == steps.len() + 1
    &&& forall|i: int|
        0 <= i < steps.len() ==> (#[trigger] steps[i]).leads(states[i], states[i + 1])
}

/// The connections to the backend in `slot` that the first `n` steps opened, less those that they
/// closed.
pub open spec fn opened_after(steps: Seq<Step>, n: nat, slot: usize) -> int
    decreases n,
{
    if n == 0 {
        0
    } else {
        opened_after(steps, (n - 1) as nat, slot) + steps[n - 1].opened_to(slot)
    }
}

/// The requests to the backend in `slot` that are in flight after `n` steps.
pub open spec fn in_flight_after(steps: Seq<Step>, n: nat, slot: usize) -> int
    decreases n,
{
    if n == 0 {
        0
    } else {
        in_flight_after(steps, (n - 1) as nat, slot) + steps[n - 1].begun_to(slot)
    }
}

/// The requests in flight after `n` steps to those backends in the first `k` slots of `v` that
/// have the address `addr`.
pub open spec fn in_flight_at(
    v: PoolView,
    steps: Seq<Step>,
    n: nat,
    addr: Seq<char>,
    k: nat,
) -> int
    decreases k,
{
    if k == 0 {
        0
    } else {
        in_flight_at(v, steps, n, addr, (k - 1) as nat) + if v.slots[k - 1].addr == addr {
            in_flight_after(steps, n, (k - 1) as usize)
        } else {
            0
        }
    }
}

/// What the first `n` steps come to for the gauge of requests in flight to `addr`.
pub open spec fn gauge_after(
    states: Seq<PoolView>,
    steps: Seq<Step>,
    n: nat,
    addr: Seq<char>,
) -> int
    decreases n,
{
    if n == 0 {
        0
    } else {
        gauge_after(states, steps, (n - 1) as nat, addr) + steps[n - 1].gauge_change(
            states[n - 1],
            addr,
        )
    }
}

/// The connections to the backend in `slot`, 0 if there is none yet.
pub open spec fn conns_at(v: PoolView, slot: usize) -> int {
    if slot < v.slots.len() {
        v.slots[slot as int].active_conns as int
    } else {
        0
    }
}

/// Backends keep their slots and addresses, and a step counts the connections that it opens and
/// closes.
proof fn lemma_step(step: Step, before: PoolView, after: PoolView, slot: usize)
    requires
        step.leads(before, after),
    ensures
        before.slots.len() <= after.slots.len(),
        slot < before.slots.len() ==> after.slots[slot as int].addr
            == before.slots[slot as int].addr,
        conns_at(after, slot) == (conns_at(before, slot) + step.opened_to(slot)) % (usize::MAX
            + 1),
        slot >= before.slots.len() ==> step.opened_to(slot) == 0,
        step.slot() matches Some(touched) ==> touched < before.slots.len(),
{
    let range = usize::MAX + 1;
    lemma_small_mod(conns_at(before, slot) as nat, range as nat);
    if 0 <= conns_at(before, slot) + step.opened_to(slot) <= usize::MAX {
        lemma_small_mod((conns_at(before, slot) + step.opened_to(slot)) as nat, range as nat);
    }
    match step {
        Step::Begin { path, peer_ip, begin } => {
            let pick = choose|pick: Option<usize>|
                {
                    &&& #[trigger] before.is_pick(pick)
                    &&& begin.is_begin(before, pick, path, peer_ip, after)
                };
            if pick is Some {
                law_pick_is_up_and_in_line(before, pick->0);
            }
        },
        _ => {},
    }
}

/// The number of a backend's active connections is right at any time: however requests, picks,
/// probes and changes of the pool follow upon one another, it is what it was at the start, plus
/// the connections opened since, less those closed. A backend that is added meanwhile starts with
/// none. (The count has the range of `usize`, and wraps round at its ends.)
pub proof fn law_connections_are_counted(
    states: Seq<PoolView>,
    steps: Seq<Step>,
    n: nat,
    slot: usize,
)
    requires
        is_run(states, steps),
        n <= steps.len(),
    ensures
        ({
            let count = conns_at(states[0], slot) + opened_after(steps, n, slot);
            &&& conns_at(states[n as int], slot) == count % (usize::MAX + 1)
            &&& 0 <= count <= usize::MAX ==> conns_at(states[n as int], slot) == count
        }),
    decreases n,
{
    let range = usize::MAX + 1;
    let count = conns_at(states[0], slot) + opened_after(steps, n, slot);
    if n > 0 {
        law_connections_are_counted(states, steps, (n - 1) as nat, slot);
        let step = steps[n - 1];
        assert(step.leads(states[n - 1], states[n - 1 + 1]));
        lemma_step(step, states[n - 1], states[n as int], slot);
        let earlier = count - step.opened_to(slot);
        lemma_add_mod_noop(earlier, step.opened_to(slot), range);
        lemma_add_mod_noop(earlier % range, step.opened_to(slot), range);
        lemma_small_mod((earlier % range) as nat, range as nat);
    }
    if 0 <= count <= usize::MAX {
        lemma_small_mod(count as nat, range as nat);
    }
}

proof fn lemma_finish_delta(finish: Finish, upstream: Upstream)
    requires
        finish.is_finish(upstream),
    ensures
        active_delta(finish.ops@) == -1,
{
    let none = Seq::<MetricOp>::empty();
    let two = none.push(MetricOp::ActiveDec).push(MetricOp::ObserveLatency);
    lemma_active_delta_push(none, MetricOp::ActiveDec);
    lemma_active_delta_push(none.push(MetricOp::ActiveDec), MetricOp::ObserveLatency);
    let status: u16 = match upstream {
        Upstream::Responded(status) => status,
        Upstream::Failed => 502,
    };
    let three = two.push(MetricOp::CountRequest(status));
    lemma_active_delta_push(two, MetricOp::CountRequest(status));
    match upstream {
        Upstream::Responded(_) => {
            assert(finish.ops@ == three);
        },
        Upstream::Failed => {
            let error = MetricOp::CountError(ProxyError::Upstream);
            lemma_active_delta_push(three, error);
            assert(finish.ops@ == three.push(error));
        },
    }
}

proof fn lemma_begin_delta(
    before: PoolView,
    pick: Option<usize>,
    path: Option<Seq<char>>,
    peer_ip: Seq<char>,
    begin: Begin,
    after: PoolView,
)
    requires
        begin.is_begin(before, pick, path, peer_ip, after),
    ensures
        begin matches Begin::Forward(forward) ==> active_delta(forward.ops@) == 1 && forward.addr@
            == before.slots[forward.guard.slot() as int].addr,
        begin matches Begin::Refuse(refusal) ==> active_delta(refusal.ops@) == 0,
{
    let none = Seq::<MetricOp>::empty();
    let one = none.push(MetricOp::ActiveInc);
    let two = one.push(MetricOp::ActiveDec);
    let bad_uri = MetricOp::CountError(ProxyError::BadUri);
    let no_backend = MetricOp::CountError(ProxyError::NoBackend);
    lemma_active_delta_push(none, MetricOp::ActiveInc);
    lemma_active_delta_push(one, MetricOp::ActiveDec);
    lemma_active_delta_push(two, bad_uri);
    lemma_active_delta_push(none, no_backend);
    match begin {
        Begin::Forward(forward) => {
            assert(forward.ops@ == one);
        },
        Begin::Refuse(refusal) => {
            assert(refusal.ops@ == two.push(bad_uri) || refusal.ops@ == none.push(no_backend));
        },
    }
}

/// A step moves the gauge of an address by the requests to it that it begins and ends.
proof fn lemma_step_gauge(step: Step, before: PoolView, after: PoolView, addr: Seq<char>)
    requires
        step.leads(before, after),
    ensures
        step.gauge_change(before, addr) == match step.slot() {
            Some(slot) => if step.is_of_request() && before.slots[slot as int].addr == addr {
                step.opened()
            } else {
                0
            },
            None => 0,
        },
{
    match step {
        Step::Begin { path, peer_ip, begin } => {
            let pick = choose|pick: Option<usize>|
                {
                    &&& #[trigger] before.is_pick(pick)
                    &&& begin.is_begin(before, pick, path, peer_ip, after)
                };
            lemma_begin_delta(before, pick, path, peer_ip, begin, after);
        },
        Step::Finish { slot, upstream, finish } => {
            lemma_finish_delta(finish, upstream);
        },
        Step::Abandon { slot, ops } => {
            let none = Seq::<MetricOp>::empty();
            lemma_active_delta_push(none, MetricOp::ActiveDec);
            assert(ops == none.push(MetricOp::ActiveDec));
        },
        _ => {},
    }
}

/// No request is in flight to a backend that is not there yet.
proof fn lemma_none_in_flight_yet(
    states: Seq<PoolView>,
    steps: Seq<Step>,
    n: nat,
    slot: usize,
)
    requires
        is_run(states, steps),
        n <= steps.len(),
        slot >= states[n as int].slots.len(),
    ensures
        in_flight_after(steps, n, slot) == 0,
    decreases n,
{
    if n > 0 {
        let step = steps[n - 1];
        assert(step.leads(states[n - 1], states[n - 1 + 1]));
        lemma_step(step, states[n - 1], states[n as int], slot);
        lemma_none_in_flight_yet(states, steps, (n - 1) as nat, slot);
    }
}

/// How step `n - 1` changes the number of requests in flight to `addr`, over the first `k` slots.
proof fn lemma_in_flight_at_step(
    states: Seq<PoolView>,
    steps: Seq<Step>,
    n: nat,
    addr: Seq<char>,
    k: nat,
)
    requires
        is_run(states, steps),
        0 < n <= steps.len(),
        k <= states[n - 1].slots.len(),
    ensures
        in_flight_at(states[n as int], steps, n, addr, k) == in_flight_at(
            states[n - 1],
            steps,
            (n - 1) as nat,
            addr,
            k,
        ) + match steps[n - 1].slot() {
            Some(slot) => if slot < k && steps[n - 1].is_of_request()
                && states[n - 1].slots[slot as int].addr == addr {
                steps[n - 1].opened()
            } else {
                0
            },
            None => 0,
        },
    decreases k,
{
    if k > 0 {
        lemma_in_flight_at_step(states, steps, n, addr, (k - 1) as nat);
        let step = steps[n - 1];
        assert(step.leads(states[n - 1], states[n - 1 + 1]));
        lemma_step(step, states[n - 1], states[n as int], (k - 1) as usize);
    }
}

/// The gauge of requests in flight is right at any time: however requests and changes of the pool
/// follow upon one another, it has risen by the number of requests that are in flight to the
/// backends of that address, also where such a backend has left the pool meanwhile.
pub proof fn law_gauge_counts_requests_in_flight(
    states: Seq<PoolView>,
    steps: Seq<Step>,
    n: nat,
    addr: Seq<char>,
)
    requires
        is_run(states, steps),
        n <= steps.len(),
    ensures
        gauge_after(states, steps, n, addr) == in_flight_at(
            states[n as int],
            steps,
            n,
            addr,
            states[n as int].slots.len(),
        ),
    decreases n,
{
    if n == 0 {
        lemma_none_at(states[0], steps, 0, addr, states[0].slots.len());
    } else {
        law_gauge_counts_requests_in_flight(states, steps, (n - 1) as nat, addr);
        let (before, after) = (states[n - 1], states[n as int]);
        let step = steps[n - 1];
        assert(step.leads(states[n - 1], states[n - 1 + 1]));
        lemma_step_gauge(step, before, after, addr);
        lemma_in_flight_at_step(states, steps, n, addr, before.slots.len());
        lemma_step(step, before, after, 0);
        lemma_newcomers(states, steps, n, addr, after.slots.len());
    }
}

/// Slots that step `n - 1` adds have no requests in flight.
proof fn lemma_newcomers(
    states: Seq<PoolView>,
    steps: Seq<Step>,
    n: nat,
    addr: Seq<char>,
    k: nat,
)
    requires
        is_run(states, steps),
        0 < n <= steps.len(),
        states[n - 1].slots.len() <= k <= states[n as int].slots.len(),
        states[n as int].slots.len() <= usize::MAX,
    ensures
        in_flight_at(states[n as int], steps, n, addr, k) == in_flight_at(
            states[n as int],
            steps,
            n,
            addr,
            states[n - 1].slots.len(),
        ),
    decreases k,
{
    if k > states[n - 1].slots.len() {
        let slot = (k - 1) as usize;
        let step = steps[n - 1];
        assert(step.leads(states[n - 1], states[n - 1 + 1]));
        lemma_step(step, states[n - 1], states[n as int], slot);
        lemma_none_in_flight_yet(states, steps, (n - 1) as nat, slot);
        lemma_newcomers(states, steps, n, addr, (k - 1) as nat);
    }
}

proof fn lemma_none_at(v: PoolView, steps: Seq<Step>, n: nat, addr: Seq<char>, k: nat)
    requires
        forall|slot: usize| #[trigger] in_flight_after(steps, n, slot) == 0,
    ensures
        in_flight_at(v, steps, n, addr, k) == 0,
    decreases k,
{
    if k > 0 {
        lemma_none_at(v, steps, n, addr, (k - 1) as nat);
    }
}

/// No request stays counted once it is over: when every connection that was opened is closed
/// again, and every request that was begun has ended, served or failed or given up, then every
/// backend has the connections that it had and every gauge stands where it stood, whatever went on
/// side by side.
pub proof fn law_nothing_stays_in_flight(states: Seq<PoolView>, steps: Seq<Step>)
    requires
        is_run(states, steps),
        forall|slot: usize| #[trigger] opened_after(steps, steps.len(), slot) == 0,
        forall|slot: usize| #[trigger] in_flight_after(steps, steps.len(), slot) == 0,
    ensures
        forall|slot: usize| #[trigger] conns_at(states.last(), slot) == conns_at(states[0], slot),
        forall|addr: Seq<char>| #[trigger] gauge_after(states, steps, steps.len(), addr) == 0,
{
    let n = steps.len();
    assert forall|slot: usize| #[trigger] conns_at(states.last(), slot) == conns_at(
        states[0],
        slot,
    ) by {
        law_connections_are_counted(states, steps, n, slot);
        assert(opened_after(steps, n, slot) == 0);
    }
    assert forall|addr: Seq<char>| #[trigger] gauge_after(states, steps, n, addr) == 0 by {
        law_gauge_counts_requests_in_flight(states, steps, n, addr);
        lemma_none_at(states.last(), steps, n, addr, states.last().slots.len());
    }
}

} // verus!
