//! What becomes of a request: to whom it goes, under which URI, and what is answered and counted
//! when it cannot be served.

use crate::backend::law_connections_and_weight_change_alone;
use crate::config::Strategy;
use crate::http::{header_value_parses, is_header_char, uri_accepts, uri_parses};
use crate::metrics::{active_delta, MetricOp};
use crate::pool::{BackendPool, ConnGuard, PoolView};
use crate::pick_laws::law_pick_moves_the_cursor_on;
use crate::pool_laws::{law_guard_balances, law_pick_is_up_and_in_line};
use crate::text::joined;
use vstd::prelude::*;

verus! {

/// Why the proxy answers a request itself.
#[derive(Debug, Clone, Copy, PartialEq, Eq, Structural)]
pub enum ProxyError {
    /// No backend is available.
    NoBackend,
    /// The backend's address and the request's path make no URI.
    BadUri,
    /// The backend could not be reached, or broke off.
    Upstream,
}

impl ProxyError {
    pub open spec fn spec_status(self) -> u16 {
        match self {
            ProxyError::NoBackend => 503,
            ProxyError::BadUri => 502,
            ProxyError::Upstream => 502,
        }
    }

    pub open spec fn spec_body(self) -> Seq<char> {
        match self {
            ProxyError::NoBackend => "no healthy backends"@,
            ProxyError::BadUri => "bad target uri"@,
            ProxyError::Upstream => "upstream error"@,
        }
    }

    pub open spec fn spec_label(self) -> Seq<char> {
        match self {
            ProxyError::NoBackend => "no_backend"@,
            ProxyError::BadUri => "bad_uri"@,
            ProxyError::Upstream => "upstream"@,
        }
    }

    /// The status of the answer.
    pub fn status(&self) -> (status: u16)
        ensures
            status == self.spec_status(),
    {
        match self {
            ProxyError::NoBackend => 503,
            ProxyError::BadUri => 502,
            ProxyError::Upstream => 502,
        }
    }

    /// The body of the answer.
    pub fn body(&self) -> (body: &'static str)
        ensures
            body@ == self.spec_body(),
    {
        match self {
            ProxyError::NoBackend => "no healthy backends",
            ProxyError::BadUri => "bad target uri",
            ProxyError::Upstream => "upstream error",
        }
    }

    /// The kind under which the error is counted.
    pub fn label(&self) -> (label: &'static str)
        ensures
            label@ == self.spec_label(),
    {
        match self {
            ProxyError::NoBackend => "no_backend",
            ProxyError::BadUri => "bad_uri",
            ProxyError::Upstream => "upstream",
        }
    }
}

/// A request that the proxy answers itself.
#[derive(Debug)]
pub struct Refusal {
    pub error: ProxyError,
    /// The address of the backend that was picked, empty if there was none.
    pub addr: String,
    /// What was to be the URI to ask the backend for, empty if none was picked.
    pub target: String,
    pub ops: Vec<MetricOp>,
}

/// A request that is to be sent to a backend.
#[derive(Debug)]
pub struct Forward {
    pub guard: ConnGuard,
    /// The address of the backend.
    pub addr: String,
    /// The URI to ask the backend for.
    pub target: String,
    /// The value to append as `x-forwarded-for`.
    pub forwarded_for: Option<String>,
    pub ops: Vec<MetricOp>,
}

/// What is to be done with a request.
#[derive(Debug)]
pub enum Begin {
    Refuse(Refusal),
    Forward(Forward),
}

/// What the backend did with a request.
#[derive(Debug, Clone, Copy, PartialEq, Eq, Structural)]
pub enum Upstream {
    /// It answered with this status.
    Responded(u16),
    Failed,
}

/// How a request that was sent to a backend ends.
#[derive(Debug)]
pub struct Finish {
    /// What the proxy answers itself. With `None` it hands the backend's response through.
    pub error: Option<ProxyError>,
    pub ops: Vec<MetricOp>,
}

/// The path and query that a request asks for, `/` if it names none.
pub open spec fn path_or_root(path: Option<Seq<char>>) -> Seq<char> {
    match path {
        Some(path) => path,
        None => "/"@,
    }
}

/// `text` can be the value of a header.
pub open spec fn is_header_value(text: Seq<char>) -> bool {
    forall|i: int| 0 <= i < text.len() ==> is_header_char(#[trigger] text[i])
}

impl Begin {
    /// No backend was available.
    pub open spec fn is_no_backend(self) -> bool {
        match self {
            Begin::Refuse(refusal) => {
                &&& refusal.error == ProxyError::NoBackend
                &&& refusal.addr@ == Seq::<char>::empty()
                &&& refusal.target@ == Seq::<char>::empty()
                &&& refusal.ops@ == seq![MetricOp::CountError(ProxyError::NoBackend)]
            },
            Begin::Forward(_) => false,
        }
    }

    /// The backend at `addr` was picked, but `target` is no URI.
    pub open spec fn is_bad_uri(self, addr: Seq<char>, target: Seq<char>) -> bool {
        match self {
            Begin::Refuse(refusal) => {
                &&& refusal.error == ProxyError::BadUri
                &&& refusal.addr@ == addr
                &&& refusal.target@ == target
                &&& refusal.ops@ == seq![
                    MetricOp::ActiveInc,
                    MetricOp::ActiveDec,
                    MetricOp::CountError(ProxyError::BadUri),
                ]
            },
            Begin::Forward(_) => false,
        }
    }

    /// The request goes to the backend in `slot`, at `addr`, and says for whom.
    pub open spec fn is_forward(
        self,
        slot: usize,
        addr: Seq<char>,
        target: Seq<char>,
        peer_ip: Seq<char>,
    ) -> bool {
        match self {
            Begin::Refuse(_) => false,
            Begin::Forward(forward) => {
                &&& forward.guard.slot() == slot
                &&& forward.addr@ == addr
                &&& forward.target@ == target
                &&& is_header_value(peer_ip) ==> forward.forwarded_for is Some
                    && forward.forwarded_for->0@ == peer_ip
                &&& !is_header_value(peer_ip) ==> forward.forwarded_for is None
                &&& forward.ops@ == seq![MetricOp::ActiveInc]
            },
        }
    }

    /// What becomes of a request for which the backend in `slot` was picked, where `target_ok`
    /// says whether `target` is a URI.
    pub open spec fn is_dispatch(
        self,
        before: PoolView,
        slot: usize,
        target: Seq<char>,
        target_ok: bool,
        peer_ip: Seq<char>,
        after: PoolView,
    ) -> bool {
        let backend = before.slots[slot as int];
        if target_ok {
            &&& self.is_forward(slot, backend.addr, target, peer_ip)
            &&& after == before.with_slot(slot, backend.busier())
        } else {
            &&& self.is_bad_uri(backend.addr, target)
            &&& after == before
        }
    }

    /// What becomes of a request in a pool that picks `pick`.
    pub open spec fn is_begin(
        self,
        before: PoolView,
        pick: Option<usize>,
        path: Option<Seq<char>>,
        peer_ip: Seq<char>,
        after: PoolView,
    ) -> bool {
        match pick {
            None => {
                &&& self.is_no_backend()
                &&& after == before.after_pick()
            },
            Some(slot) => {
                let target = before.slots[slot as int].addr + path_or_root(path);
                self.is_dispatch(
                    before.after_pick(),
                    slot,
                    target,
                    uri_accepts(target),
                    peer_ip,
                    after,
                )
            },
        }
    }
}

/// The view of the path of a request.
pub open spec fn path_view(path: Option<String>) -> Option<Seq<char>> {
    match path {
        Some(path) => Some(path@),
        None => None,
    }
}

/// Takes in a request: picks a backend and says what to do. The path and query are those that the
/// client asked for, if any; `peer_ip` is the client's address.
pub fn begin(pool: &mut BackendPool, path: Option<String>, peer_ip: &str) -> (begin: Begin)
    requires
        old(pool).wf(),
    ensures
        final(pool).wf(),
        exists|pick: Option<usize>|
            {
                &&& #[trigger] old(pool)@.is_pick(pick)
                &&& begin.is_begin(old(pool)@, pick, path_view(path), peer_ip@, final(pool)@)
            },
        begin matches Begin::Forward(forward) ==> forward.guard.slot() < final(pool)@.slots.len(),
        final(pool)@.slots.len() == old(pool)@.slots.len(),
{
    let pick: Option<usize> = pool.pick();
    match pick {
        None => {
            let mut ops: Vec<MetricOp> = Vec::new();
            ops.push(MetricOp::CountError(ProxyError::NoBackend));
            Begin::Refuse(
                Refusal {
                    error: ProxyError::NoBackend,
                    addr: String::new(),
                    target: String::new(),
                    ops,
                },
            )
        },
        Some(slot) => {
            let addr: &String = pool.backend(slot).addr();
            let target: String = match &path {
                Some(path) => joined(addr, path),
                None => joined(addr, "/"),
            };
            let target_ok: bool = uri_parses(&target);
            dispatch(pool, slot, target, target_ok, peer_ip)
        },
    }
}

/// Sends a request on its way to the backend in `slot`, or refuses it where `target` is no URI.
pub fn dispatch(
    pool: &mut BackendPool,
    slot: usize,
    target: String,
    target_ok: bool,
    peer_ip: &str,
) -> (begin: Begin)
    requires
        old(pool).wf(),
        slot < old(pool)@.slots.len(),
    ensures
        final(pool).wf(),
        begin.is_dispatch(old(pool)@, slot, target@, target_ok, peer_ip@, final(pool)@),
{
    let addr: String = pool.backend(slot).addr().clone();
    let guard: ConnGuard = ConnGuard::new(slot, pool);
    let mut ops: Vec<MetricOp> = Vec::new();
    ops.push(MetricOp::ActiveInc);
    if !target_ok {
        ops.push(MetricOp::ActiveDec);
        ops.push(MetricOp::CountError(ProxyError::BadUri));
        guard.release(pool);
        proof {
            law_guard_balances(old(pool)@, slot);
            assert(ops@ == seq![
                MetricOp::ActiveInc,
                MetricOp::ActiveDec,
                MetricOp::CountError(ProxyError::BadUri),
            ]);
        }
        return Begin::Refuse(Refusal { error: ProxyError::BadUri, addr, target, ops });
    }
    let forwarded_for: Option<String> = if header_value_parses(peer_ip) {
        Some(peer_ip.to_owned())
    } else {
        None
    };
    Begin::Forward(Forward { guard, addr, target, forwarded_for, ops })
}

impl Finish {
    pub open spec fn is_finish(self, upstream: Upstream) -> bool {
        match upstream {
            Upstream::Responded(status) => {
                &&& self.error is None
                &&& self.ops@ == seq![
                    MetricOp::ActiveDec,
                    MetricOp::ObserveLatency,
                    MetricOp::CountRequest(status),
                ]
            },
            Upstream::Failed => {
                &&& self.error == Some(ProxyError::Upstream)
                &&& self.ops@ == seq![
                    MetricOp::ActiveDec,
                    MetricOp::ObserveLatency,
                    MetricOp::CountRequest(502),
                    MetricOp::CountError(ProxyError::Upstream),
                ]
            },
        }
    }
}

/// Ends a request that was sent to a backend: gives its connection back, and says what to answer
/// and to count.
pub fn finish(pool: &mut BackendPool, guard: ConnGuard, upstream: Upstream) -> (finish: Finish)
    requires
        old(pool).wf(),
        guard.slot() < old(pool)@.slots.len(),
    ensures
        final(pool).wf(),
        final(pool)@ == old(pool)@.with_slot(
            guard.slot(),
            old(pool)@.slots[guard.slot() as int].idler(),
        ),
        finish.is_finish(upstream),
{
    let mut ops: Vec<MetricOp> = Vec::new();
    ops.push(MetricOp::ActiveDec);
    ops.push(MetricOp::ObserveLatency);
    guard.release(pool);
    match upstream {
        Upstream::Responded(status) => {
            ops.push(MetricOp::CountRequest(status));
            assert(ops@ == seq![
                MetricOp::ActiveDec,
                MetricOp::ObserveLatency,
                MetricOp::CountRequest(status),
            ]);
            Finish { error: None, ops }
        },
        Upstream::Failed => {
            ops.push(MetricOp::CountRequest(502));
            ops.push(MetricOp::CountError(ProxyError::Upstream));
            assert(ops@ == seq![
                MetricOp::ActiveDec,
                MetricOp::ObserveLatency,
                MetricOp::CountRequest(502),
                MetricOp::CountError(ProxyError::Upstream),
            ]);
            Finish { error: Some(ProxyError::Upstream), ops }
        },
    }
}

/// Ends a request that was sent to a backend and given up before it came back: gives its
/// connection back, and says what to count.
pub fn abandon(pool: &mut BackendPool, guard: ConnGuard) -> (ops: Vec<MetricOp>)
    requires
        old(pool).wf(),
        guard.slot() < old(pool)@.slots.len(),
    ensures
        final(pool).wf(),
        final(pool)@ == old(pool)@.with_slot(
            guard.slot(),
            old(pool)@.slots[guard.slot() as int].idler(),
        ),
        ops@ == seq![MetricOp::ActiveDec],
{
    let mut ops: Vec<MetricOp> = Vec::new();
    ops.push(MetricOp::ActiveDec);
    guard.release(pool);
    assert(ops@ == seq![MetricOp::ActiveDec]);
    ops
}

pub(crate) proof fn lemma_active_delta_push(ops: Seq<MetricOp>, op: MetricOp)
    ensures
        active_delta(ops.push(op)) == active_delta(ops) + match op {
            MetricOp::ActiveInc => 1int,
            MetricOp::ActiveDec => -1int,
            _ => 0int,
        },
{
    assert(ops.push(op).drop_last() == ops);
}

/// How many of `ops` count a served request, and how many an error.
pub open spec fn counted(ops: Seq<MetricOp>) -> (nat, nat)
    decreases ops.len(),
{
    if ops.len() == 0 {
        (0, 0)
    } else {
        let (requests, errors) = counted(ops.drop_last());
        match ops.last() {
            MetricOp::CountRequest(_) => (requests + 1, errors),
            MetricOp::CountError(_) => (requests, errors + 1),
            _ => (requests, errors),
        }
    }
}

proof fn lemma_counted_push(ops: Seq<MetricOp>, op: MetricOp)
    ensures
        counted(ops.push(op)) == match op {
            MetricOp::CountRequest(_) => (counted(ops).0 + 1, counted(ops).1),
            MetricOp::CountError(_) => (counted(ops).0, counted(ops).1 + 1),
            _ => counted(ops),
        },
{
    assert(ops.push(op).drop_last() == ops);
}

proof fn lemma_three_ops(a: MetricOp, b: MetricOp, c: MetricOp)
    ensures
        active_delta(seq![a, b, c]) == active_delta(seq![a]) + active_delta(seq![b]) + active_delta(
            seq![c],
        ),
        counted(seq![a, b, c]) == (
            counted(seq![a]).0 + counted(seq![b]).0 + counted(seq![c]).0,
            counted(seq![a]).1 + counted(seq![b]).1 + counted(seq![c]).1,
        ),
{
    let none = Seq::<MetricOp>::empty();
    assert(seq![a] == none.push(a));
    assert(seq![b] == none.push(b));
    assert(seq![c] == none.push(c));
    assert(seq![a, b, c] == none.push(a).push(b).push(c));
    lemma_active_delta_push(none, a);
    lemma_active_delta_push(none, b);
    lemma_active_delta_push(none, c);
    lemma_active_delta_push(none.push(a), b);
    lemma_active_delta_push(none.push(a).push(b), c);
    lemma_counted_push(none, a);
    lemma_counted_push(none, b);
    lemma_counted_push(none, c);
    lemma_counted_push(none.push(a), b);
    lemma_counted_push(none.push(a).push(b), c);
}

proof fn lemma_one_op(op: MetricOp)
    ensures
        active_delta(seq![op]) == match op {
            MetricOp::ActiveInc => 1int,
            MetricOp::ActiveDec => -1int,
            _ => 0int,
        },
        counted(seq![op]) == match op {
            MetricOp::CountRequest(_) => (1nat, 0nat),
            MetricOp::CountError(_) => (0nat, 1nat),
            _ => (0nat, 0nat),
        },
{
    let none = Seq::<MetricOp>::empty();
    assert(seq![op] == none.push(op));
    lemma_active_delta_push(none, op);
    lemma_counted_push(none, op);
}

/// A refused request leaves nothing behind: no backend's connections change, the number of
/// requests in flight is as before, no request is counted as served and one error is counted.
/// It is answered 503 if nobody could be picked, and 502 otherwise.
pub proof fn law_refusal_leaves_no_trace(
    before: PoolView,
    pick: Option<usize>,
    path: Option<Seq<char>>,
    peer_ip: Seq<char>,
    begin: Begin,
    after: PoolView,
)
    requires
        begin.is_begin(before, pick, path, peer_ip, after),
        begin is Refuse,
    ensures
        after == before.after_pick(),
        active_delta(begin->Refuse_0.ops@) == 0,
        counted(begin->Refuse_0.ops@) == (0nat, 1nat),
        begin->Refuse_0.error.spec_status() == if pick is None {
            503u16
        } else {
            502u16
        },
{
    lemma_one_op(MetricOp::CountError(ProxyError::NoBackend));
    lemma_one_op(MetricOp::CountError(ProxyError::BadUri));
    lemma_one_op(MetricOp::ActiveInc);
    lemma_one_op(MetricOp::ActiveDec);
    lemma_three_ops(
        MetricOp::ActiveInc,
        MetricOp::ActiveDec,
        MetricOp::CountError(ProxyError::BadUri),
    );
}

/// A request that is sent to a backend and comes back, however it ends, leaves no connection open
/// and nothing in flight, and is counted as served exactly once; as an error too exactly if the
/// backend failed. This is for a request on its own: `traffic_laws` has those side by side.
pub proof fn law_served_request_balances(
    before: PoolView,
    pick: Option<usize>,
    path: Option<Seq<char>>,
    peer_ip: Seq<char>,
    begin: Begin,
    mid: PoolView,
    upstream: Upstream,
    finish: Finish,
    after: PoolView,
)
    requires
        begin.is_begin(before, pick, path, peer_ip, mid),
        begin is Forward,
        begin->Forward_0.guard.slot() < before.slots.len(),
        after == mid.with_slot(
            begin->Forward_0.guard.slot(),
            mid.slots[begin->Forward_0.guard.slot() as int].idler(),
        ),
        finish.is_finish(upstream),
    ensures
        after == before.after_pick(),
        active_delta(begin->Forward_0.ops@) + active_delta(finish.ops@) == 0,
        counted(begin->Forward_0.ops@) == (0nat, 0nat),
        counted(finish.ops@) == (
            1nat,
            if upstream is Failed {
                1nat
            } else {
                0nat
            },
        ),
{
    law_guard_balances(before.after_pick(), begin->Forward_0.guard.slot());
    lemma_one_op(MetricOp::ActiveInc);
    lemma_one_op(MetricOp::ActiveDec);
    lemma_one_op(MetricOp::ObserveLatency);
    match upstream {
        Upstream::Responded(status) => {
            lemma_one_op(MetricOp::CountRequest(status));
            lemma_three_ops(
                MetricOp::ActiveDec,
                MetricOp::ObserveLatency,
                MetricOp::CountRequest(status),
            );
        },
        Upstream::Failed => {
            let count = MetricOp::CountRequest(502);
            lemma_one_op(count);
            lemma_three_ops(MetricOp::ActiveDec, MetricOp::ObserveLatency, count);
            let three = seq![MetricOp::ActiveDec, MetricOp::ObserveLatency, count];
            let error = MetricOp::CountError(ProxyError::Upstream);
            assert(finish.ops@ == three.push(error));
            lemma_active_delta_push(three, error);
            lemma_counted_push(three, error);
        },
    }
}

/// A request that is sent to a backend and given up before it comes back leaves no connection open
/// and nothing in flight, and is counted neither as served nor as an error. This is for a request
/// on its own: `traffic_laws` has those side by side.
pub proof fn law_abandoned_request_balances(
    before: PoolView,
    pick: Option<usize>,
    path: Option<Seq<char>>,
    peer_ip: Seq<char>,
    begin: Begin,
    mid: PoolView,
    ops: Seq<MetricOp>,
    after: PoolView,
)
    requires
        begin.is_begin(before, pick, path, peer_ip, mid),
        begin is Forward,
        begin->Forward_0.guard.slot() < before.slots.len(),
        after == mid.with_slot(
            begin->Forward_0.guard.slot(),
            mid.slots[begin->Forward_0.guard.slot() as int].idler(),
        ),
        ops == seq![MetricOp::ActiveDec],
    ensures
        after == before.after_pick(),
        active_delta(begin->Forward_0.ops@) + active_delta(ops) == 0,
        counted(begin->Forward_0.ops@) == (0nat, 0nat),
        counted(ops) == (0nat, 0nat),
{
    law_guard_balances(before.after_pick(), begin->Forward_0.guard.slot());
    lemma_one_op(MetricOp::ActiveInc);
    lemma_one_op(MetricOp::ActiveDec);
}

/// A forwarded request goes to the backend that was picked: its guard holds that backend's slot,
/// its target is that backend's address followed by exactly the path and query that the client
/// asked for, or by `/`, and it says for whom it is sent. That backend has one connection more, and
/// one request more is in flight to it. Nobody else is touched.
pub proof fn law_forward_goes_to_the_pick(
    before: PoolView,
    pick: Option<usize>,
    path: Option<Seq<char>>,
    peer_ip: Seq<char>,
    begin: Begin,
    after: PoolView,
)
    requires
        before.wf(),
        before.is_pick(pick),
        begin.is_begin(before, pick, path, peer_ip, after),
        begin is Forward,
    ensures
        ({
            let forward = begin->Forward_0;
            let slot = forward.guard.slot();
            let text = forward.forwarded_for;
            &&& pick == Some(slot)
            &&& slot < before.slots.len()
            &&& forward.addr@ == before.slots[slot as int].addr
            &&& path is Some ==> forward.target@ == before.slots[slot as int].addr + path->0
            &&& path is None ==> forward.target@ == before.slots[slot as int].addr + seq!['/']
            &&& uri_accepts(forward.target@)
            &&& text is Some ==> text->0@ == peer_ip
            &&& text is Some <==> forall|i: int|
                0 <= i < peer_ip.len() ==> {
                    let c = #[trigger] peer_ip[i];
                    c == '\t' || (c >= ' ' && c != '\u{7f}')
                }
            &&& forward.ops@ == seq![MetricOp::ActiveInc]
            &&& after.slots.len() == before.slots.len()
            &&& after.slots[slot as int].active_conns == (before.slots[slot as int].active_conns
                + 1) % (usize::MAX + 1)
            &&& after.slots[slot as int].addr == before.slots[slot as int].addr
            &&& after.slots[slot as int].weight == before.slots[slot as int].weight
            &&& after.slots[slot as int].healthy == before.slots[slot as int].healthy
            &&& forall|other: int|
                0 <= other < before.slots.len() && other != slot ==> #[trigger] after.slots[other]
                    == before.slots[other]
            &&& after.members == before.members
            &&& after.schedule == before.schedule
            &&& after.strategy == before.strategy
            &&& after.cursor == if before.strategy == Strategy::RoundRobin {
                (before.cursor + 1) % (usize::MAX + 1)
            } else {
                before.cursor as int
            }
        }),
{
    reveal_strlit("/");
    assert("/"@ == seq!['/']);
    law_pick_moves_the_cursor_on(before);
    law_pick_is_up_and_in_line(before, pick->0);
    law_connections_and_weight_change_alone(before.slots[pick->0 as int], 0);
}

/// A request is refused if and only if nobody was picked, which is answered 503, or the address of
/// the backend that was picked and the path make no URI, which is answered 502. Both are counted as
/// errors of their kind, and no backend changes.
pub proof fn law_refused_only_without_backend_or_uri(
    before: PoolView,
    pick: Option<usize>,
    path: Option<Seq<char>>,
    peer_ip: Seq<char>,
    begin: Begin,
    after: PoolView,
)
    requires
        begin.is_begin(before, pick, path, peer_ip, after),
    ensures
        ({
            let tail = if path is Some {
                path->0
            } else {
                seq!['/']
            };
            let addr = before.slots[pick->0 as int].addr;
            &&& pick is None ==> {
                &&& begin is Refuse
                &&& begin->Refuse_0.error == ProxyError::NoBackend
                &&& begin->Refuse_0.ops@ == seq![MetricOp::CountError(ProxyError::NoBackend)]
                &&& begin->Refuse_0.error.spec_status() == 503
            }
            &&& pick is Some && !uri_accepts(addr + tail) ==> {
                &&& begin is Refuse
                &&& begin->Refuse_0.error == ProxyError::BadUri
                &&& begin->Refuse_0.addr@ == addr
                &&& begin->Refuse_0.target@ == addr + tail
                &&& begin->Refuse_0.ops@ == seq![
                    MetricOp::ActiveInc,
                    MetricOp::ActiveDec,
                    MetricOp::CountError(ProxyError::BadUri),
                ]
                &&& begin->Refuse_0.error.spec_status() == 502
            }
            &&& pick is Some && uri_accepts(addr + tail) ==> begin is Forward
            &&& begin is Refuse ==> after.slots == before.slots && after.members == before.members
                && after.schedule == before.schedule && after.strategy == before.strategy
                && after.cursor == if before.strategy == Strategy::RoundRobin
                && before.members.len() > 0 {
                (before.cursor + 1) % (usize::MAX + 1)
            } else {
                before.cursor as int
            }
        }),
{
    law_pick_moves_the_cursor_on(before);
    reveal_strlit("/");
    assert("/"@ == seq!['/']);
}

/// Where the target was judged elsewhere, that judgement alone decides: a request with a good
/// target goes to the backend in `slot` under just that target, one with a bad target is refused
/// and changes nothing.
pub proof fn law_dispatch_goes_by_the_judgement(
    before: PoolView,
    slot: usize,
    target: Seq<char>,
    target_ok: bool,
    peer_ip: Seq<char>,
    begin: Begin,
    after: PoolView,
)
    requires
        slot < before.slots.len(),
        begin.is_dispatch(before, slot, target, target_ok, peer_ip, after),
    ensures
        begin is Forward <==> target_ok,
        begin matches Begin::Forward(forward) ==> {
            let text = forward.forwarded_for;
            &&& forward.guard.slot() == slot
            &&& forward.addr@ == before.slots[slot as int].addr
            &&& forward.target@ == target
            &&& forward.ops@ == seq![MetricOp::ActiveInc]
            &&& text is Some ==> text->0@ == peer_ip
            &&& text is Some <==> forall|i: int|
                0 <= i < peer_ip.len() ==> {
                    let c = #[trigger] peer_ip[i];
                    c == '\t' || (c >= ' ' && c != '\u{7f}')
                }
            &&& after.slots.len() == before.slots.len()
            &&& after.slots[slot as int].active_conns == (before.slots[slot as int].active_conns
                + 1) % (usize::MAX + 1)
            &&& forall|other: int|
                0 <= other < before.slots.len() && other != slot ==> #[trigger] after.slots[other]
                    == before.slots[other]
            &&& after.members == before.members
            &&& after.cursor == before.cursor
        },
        begin matches Begin::Refuse(refusal) ==> {
            &&& refusal.error == ProxyError::BadUri
            &&& refusal.addr@ == before.slots[slot as int].addr
            &&& refusal.target@ == target
            &&& refusal.ops@ == seq![
                MetricOp::ActiveInc,
                MetricOp::ActiveDec,
                MetricOp::CountError(ProxyError::BadUri),
            ]
            &&& after == before
        },
{
    law_connections_and_weight_change_alone(before.slots[slot as int], 0);
}

/// The proxy answers a request that it forwarded by itself if and only if the backend failed. A
/// response of the backend, of whatever status, is handed through, and is counted under just that
/// status and as no error. A failure is counted under 502 and as an upstream error.
pub proof fn law_only_failures_are_answered(upstream: Upstream, finish: Finish)
    requires
        finish.is_finish(upstream),
    ensures
        finish.error is Some <==> upstream == Upstream::Failed,
        finish.error is Some ==> finish.error == Some(ProxyError::Upstream)
            && finish.error->0.spec_status() == 502,
        forall|status: u16|
            #[trigger] finish.ops@.contains(MetricOp::CountRequest(status)) <==> status
                == match upstream {
                Upstream::Responded(answered) => answered,
                Upstream::Failed => 502,
            },
        forall|error: ProxyError|
            #[trigger] finish.ops@.contains(MetricOp::CountError(error)) <==> error
                == ProxyError::Upstream && upstream == Upstream::Failed,
        finish.ops@.contains(MetricOp::ObserveLatency),
        finish.ops@.contains(MetricOp::ActiveDec),
        !finish.ops@.contains(MetricOp::ActiveInc),
        finish.ops@.len() == if upstream == Upstream::Failed {
            4nat
        } else {
            3nat
        },
{
    let ops = finish.ops@;
    assert(ops[0] == MetricOp::ActiveDec);
    assert(ops[1] == MetricOp::ObserveLatency);
    let counted_status: u16 = match upstream {
        Upstream::Responded(answered) => answered,
        Upstream::Failed => 502,
    };
    assert(ops[2] == MetricOp::CountRequest(counted_status));
    if upstream == Upstream::Failed {
        assert(ops[3] == MetricOp::CountError(ProxyError::Upstream));
    }
}

/// The path of a request is what the client asked for, character by character.
pub proof fn law_path_is_what_was_asked_for(path: Option<String>)
    ensures
        path matches Some(asked) ==> path_view(path) == Some(asked@),
        path is None ==> path_view(path) is None,
{
}

} // verus!
