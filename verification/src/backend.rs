//! One backend: its weight, its health as probes see it, and the connections that it serves.

use vstd::arithmetic::div_mod::{
    lemma_mod_add_multiples_vanish, lemma_mod_self_0, lemma_small_mod,
};
use vstd::prelude::*;

verus! {

/// What a backend is known by and what is known of it.
pub struct BackendView {
    pub addr: Seq<char>,
    pub weight: u32,
    pub healthy: bool,
    pub active_conns: usize,
    pub consecutive_fails: u32,
    pub consecutive_oks: u32,
}

impl BackendView {
    /// A backend that was just added. It counts as healthy, so that it takes traffic before the
    /// first probe has come back.
    pub open spec fn fresh(addr: Seq<char>, weight: u32) -> BackendView {
        BackendView {
            addr,
            weight,
            healthy: true,
            active_conns: 0,
            consecutive_fails: 0,
            consecutive_oks: 0,
        }
    }

    /// The backend after one probe. A probe breaks off the run of the opposite result. A run of
    /// `rise` good probes makes the backend healthy, a run of `fall` bad ones unhealthy.
    pub open spec fn probed(self, ok: bool, fall: u32, rise: u32) -> BackendView {
        if ok {
            let oks = self.consecutive_oks.wrapping_add(1);
            BackendView {
                consecutive_fails: 0,
                consecutive_oks: oks,
                healthy: self.healthy || oks >= rise,
                ..self
            }
        } else {
            let fails = self.consecutive_fails.wrapping_add(1);
            BackendView {
                consecutive_oks: 0,
                consecutive_fails: fails,
                healthy: self.healthy && fails < fall,
                ..self
            }
        }
    }

    /// What a probe changed about the backend's health: the new state, if it is new.
    pub open spec fn verdict(self, ok: bool, fall: u32, rise: u32) -> Option<bool> {
        let after = self.probed(ok, fall, rise);
        if after.healthy == self.healthy {
            None
        } else {
            Some(after.healthy)
        }
    }

    /// With one connection more.
    pub open spec fn busier(self) -> BackendView {
        BackendView { active_conns: self.active_conns.wrapping_add(1), ..self }
    }

    /// With one connection less.
    pub open spec fn idler(self) -> BackendView {
        BackendView { active_conns: self.active_conns.wrapping_sub(1), ..self }
    }

    pub open spec fn with_weight(self, weight: u32) -> BackendView {
        BackendView { weight, ..self }
    }

    /// The backend after a series of probes, the first of `results` first.
    pub open spec fn after_probes(self, results: Seq<bool>, fall: u32, rise: u32) -> BackendView
        decreases results.len(),
    {
        if results.len() == 0 {
            self
        } else {
            self.after_probes(results.drop_last(), fall, rise).probed(results.last(), fall, rise)
        }
    }
}

#[derive(Debug)]
pub struct Backend {
    pub addr: String,
    weight: u32,
    healthy: bool,
    active_conns: usize,
    consecutive_fails: u32,
    consecutive_oks: u32,
}

impl View for Backend {
    type V = BackendView;

    closed spec fn view(&self) -> BackendView {
        BackendView {
            addr: self.addr@,
            weight: self.weight,
            healthy: self.healthy,
            active_conns: self.active_conns,
            consecutive_fails: self.consecutive_fails,
            consecutive_oks: self.consecutive_oks,
        }
    }
}

impl Backend {
    pub fn new(addr: String, weight: u32) -> (b: Backend)
        ensures
            b@ == BackendView::fresh(addr@, weight),
    {
        Backend {
            addr,
            weight,
            healthy: true,
            active_conns: 0,
            consecutive_fails: 0,
            consecutive_oks: 0,
        }
    }

    pub fn addr(&self) -> (addr: &String)
        ensures
            addr@ == self@.addr,
    {
        &self.addr
    }

    pub fn is_healthy(&self) -> (healthy: bool)
        ensures
            healthy == self@.healthy,
    {
        self.healthy
    }

    pub fn active_conns(&self) -> (conns: usize)
        ensures
            conns == self@.active_conns,
    {
        self.active_conns
    }

    pub fn weight(&self) -> (weight: u32)
        ensures
            weight == self@.weight,
    {
        self.weight
    }

    pub(crate) fn set_weight(&mut self, weight: u32)
        ensures
            final(self)@ == old(self)@.with_weight(weight),
    {
        self.weight = weight;
    }

    pub fn inc_conns(&mut self)
        ensures
            final(self)@ == old(self)@.busier(),
    {
        self.active_conns = self.active_conns.wrapping_add(1);
    }

    pub fn dec_conns(&mut self)
        ensures
            final(self)@ == old(self)@.idler(),
    {
        self.active_conns = self.active_conns.wrapping_sub(1);
    }

    /// Records a probe result and returns the backend's new health if that changed it. The
    /// thresholds `fall` and `rise` keep a single flaky probe from taking the backend in and out
    /// of rotation. The runs are counted modulo `2^32`.
    pub fn record_probe(&mut self, ok: bool, fall: u32, rise: u32) -> (change: Option<bool>)
        ensures
            final(self)@ == old(self)@.probed(ok, fall, rise),
            change == old(self)@.verdict(ok, fall, rise),
    {
        if ok {
            self.consecutive_fails = 0;
            self.consecutive_oks = self.consecutive_oks.wrapping_add(1);
            if !self.healthy && self.consecutive_oks >= rise {
                self.healthy = true;
                return Some(true);
            }
        } else {
            self.consecutive_oks = 0;
            self.consecutive_fails = self.consecutive_fails.wrapping_add(1);
            if self.healthy && self.consecutive_fails >= fall {
                self.healthy = false;
                return Some(false);
            }
        }
        None
    }
}

/// The views of a sequence of backends.
pub open spec fn views(backends: Seq<Backend>) -> Seq<BackendView> {
    Seq::new(backends.len(), |i: int| backends[i]@)
}

/// How many of the last of `results` equal `value`.
pub open spec fn trailing(results: Seq<bool>, value: bool) -> nat
    decreases results.len(),
{
    if results.len() == 0 || results.last() != value {
        0
    } else {
        trailing(results.drop_last(), value) + 1
    }
}

proof fn lemma_counts_failures(b: BackendView, results: Seq<bool>, fall: u32, rise: u32)
    requires
        b.healthy,
        b.consecutive_fails == 0,
        forall|k: int|
            0 <= k <= results.len() ==> trailing(#[trigger] results.take(k), false) < fall,
    ensures
        b.after_probes(results, fall, rise).healthy,
        b.after_probes(results, fall, rise).consecutive_fails == trailing(results, false),
    decreases results.len(),
{
    assert(results.take(results.len() as int) == results);
    if results.len() > 0 {
        let before = results.drop_last();
        assert forall|k: int| 0 <= k <= before.len() implies trailing(
            #[trigger] before.take(k),
            false,
        ) < fall by {
            assert(before.take(k) == results.take(k));
        }
        lemma_counts_failures(b, before, fall, rise);
    }
}

/// Flap protection, on the way down: whatever mix of probe results comes in, a healthy backend
/// without failures behind it stays healthy as long as fewer than `fall` probes fail in a row.
pub proof fn law_short_outage_is_tolerated(
    b: BackendView,
    results: Seq<bool>,
    fall: u32,
    rise: u32,
)
    requires
        b.healthy,
        b.consecutive_fails == 0,
        forall|k: int|
            0 <= k <= results.len() ==> trailing(#[trigger] results.take(k), false) < fall,
    ensures
        b.after_probes(results, fall, rise).healthy,
{
    lemma_counts_failures(b, results, fall, rise);
}

proof fn lemma_counts_successes(b: BackendView, results: Seq<bool>, fall: u32, rise: u32)
    requires
        !b.healthy,
        b.consecutive_oks == 0,
        forall|k: int|
            0 <= k <= results.len() ==> trailing(#[trigger] results.take(k), true) < rise,
    ensures
        !b.after_probes(results, fall, rise).healthy,
        b.after_probes(results, fall, rise).consecutive_oks == trailing(results, true),
    decreases results.len(),
{
    assert(results.take(results.len() as int) == results);
    if results.len() > 0 {
        let before = results.drop_last();
        assert forall|k: int| 0 <= k <= before.len() implies trailing(
            #[trigger] before.take(k),
            true,
        ) < rise by {
            assert(before.take(k) == results.take(k));
        }
        lemma_counts_successes(b, before, fall, rise);
    }
}

/// Flap protection, on the way up: a backend that is down, without successes behind it, stays
/// down as long as fewer than `rise` probes succeed in a row.
pub proof fn law_short_recovery_is_ignored(
    b: BackendView,
    results: Seq<bool>,
    fall: u32,
    rise: u32,
)
    requires
        !b.healthy,
        b.consecutive_oks == 0,
        forall|k: int|
            0 <= k <= results.len() ==> trailing(#[trigger] results.take(k), true) < rise,
    ensures
        !b.after_probes(results, fall, rise).healthy,
{
    lemma_counts_successes(b, results, fall, rise);
}

/// A healthy backend without failures behind it goes down with exactly the `fall`-th failure in a
/// row, and that probe, and none before it, reports the change.
pub proof fn law_goes_down_at_fall(b: BackendView, results: Seq<bool>, fall: u32, rise: u32)
    requires
        b.healthy,
        b.consecutive_fails == 0,
        fall > 0,
        results.len() <= fall,
        forall|k: int| 0 <= k < results.len() ==> !#[trigger] results[k],
    ensures
        b.after_probes(results, fall, rise).healthy <==> results.len() < fall,
        b.after_probes(results, fall, rise).consecutive_fails == results.len(),
        results.len() > 0 ==> b.after_probes(results.drop_last(), fall, rise).verdict(
            false,
            fall,
            rise,
        ) == if results.len() == fall {
            Some(false)
        } else {
            None
        },
    decreases results.len(),
{
    if results.len() > 0 {
        let before = results.drop_last();
        assert forall|k: int| 0 <= k < before.len() implies !#[trigger] before[k] by {
            assert(before[k] == results[k]);
        }
        law_goes_down_at_fall(b, before, fall, rise);
        assert(!results[results.len() - 1]);
    }
}

/// A backend that is down, without successes behind it, comes back with exactly the `rise`-th
/// success in a row, and that probe, and none before it, reports the change.
pub proof fn law_comes_up_at_rise(b: BackendView, results: Seq<bool>, fall: u32, rise: u32)
    requires
        !b.healthy,
        b.consecutive_oks == 0,
        rise > 0,
        results.len() <= rise,
        forall|k: int| 0 <= k < results.len() ==> #[trigger] results[k],
    ensures
        b.after_probes(results, fall, rise).healthy <==> results.len() == rise,
        b.after_probes(results, fall, rise).consecutive_oks == results.len(),
        results.len() > 0 ==> b.after_probes(results.drop_last(), fall, rise).verdict(
            true,
            fall,
            rise,
        ) == if results.len() == rise {
            Some(true)
        } else {
            None
        },
    decreases results.len(),
{
    if results.len() > 0 {
        let before = results.drop_last();
        assert forall|k: int| 0 <= k < before.len() implies #[trigger] before[k] by {
            assert(before[k] == results[k]);
        }
        law_comes_up_at_rise(b, before, fall, rise);
        assert(results[results.len() - 1]);
    }
}

/// A connection that is opened and closed again leaves the backend as it was.
pub proof fn law_connections_balance(b: BackendView)
    ensures
        b.busier().idler() == b,
        b.idler().busier() == b,
{
}

/// A new backend has its address and weight, counts as healthy, and has neither connections nor
/// probes behind it.
pub proof fn law_new_backend_is_healthy_and_idle(addr: Seq<char>, weight: u32)
    ensures
        BackendView::fresh(addr, weight).addr == addr,
        BackendView::fresh(addr, weight).weight == weight,
        BackendView::fresh(addr, weight).healthy,
        BackendView::fresh(addr, weight).active_conns == 0,
        BackendView::fresh(addr, weight).consecutive_fails == 0,
        BackendView::fresh(addr, weight).consecutive_oks == 0,
{
}

/// Opening or closing a connection counts one connection up or down, modulo the range of the
/// counter, and changes nothing else. Only the weight changes with a new weight.
pub proof fn law_connections_and_weight_change_alone(b: BackendView, weight: u32)
    ensures
        b.busier().active_conns == (b.active_conns + 1) % (usize::MAX + 1),
        b.idler().active_conns == (b.active_conns - 1) % (usize::MAX + 1),
        b.busier() == (BackendView { active_conns: b.busier().active_conns, ..b }),
        b.idler() == (BackendView { active_conns: b.idler().active_conns, ..b }),
        b.with_weight(weight) == (BackendView { weight, ..b }),
{
    let range = usize::MAX + 1;
    if b.active_conns < usize::MAX {
        lemma_small_mod((b.active_conns + 1) as nat, range as nat);
    } else {
        lemma_mod_self_0(range);
    }
    if b.active_conns > 0 {
        lemma_small_mod((b.active_conns - 1) as nat, range as nat);
    } else {
        lemma_mod_add_multiples_vanish(-1, range);
        lemma_small_mod((range - 1) as nat, range as nat);
    }
}

/// A probe leaves the address, the weight and the connections alone, can change the health only
/// towards its own result, and reports the new health if and only if it did.
pub proof fn law_probe_reports_what_it_changes(b: BackendView, ok: bool, fall: u32, rise: u32)
    ensures
        b.probed(ok, fall, rise).addr == b.addr,
        b.probed(ok, fall, rise).weight == b.weight,
        b.probed(ok, fall, rise).active_conns == b.active_conns,
        b.probed(ok, fall, rise).healthy != b.healthy ==> b.probed(ok, fall, rise).healthy == ok,
        b.verdict(ok, fall, rise) is Some <==> b.probed(ok, fall, rise).healthy != b.healthy,
        b.verdict(ok, fall, rise) is Some ==> b.verdict(ok, fall, rise) == Some(ok),
{
}

/// The runs are counted right through any number of outages and recoveries. Let a backend start
/// without probes behind it, and go through `states` by the probes of `results`, each under
/// thresholds of its own. Then at any time `consecutive_fails` is the number of failed probes since
/// the last passed one, and `consecutive_oks` the number of passed ones since the last failed one.
pub proof fn law_runs_are_counted(
    states: Seq<BackendView>,
    results: Seq<bool>,
    falls: Seq<u32>,
    rises: Seq<u32>,
    n: int,
)
    requires
        states.len() == results.len() + 1,
        falls.len() == results.len(),
        rises.len() == results.len(),
        forall|i: int|
            0 <= i < results.len() ==> states[i + 1] == states[i].probed(
                #[trigger] results[i],
                falls[i],
                rises[i],
            ),
        states[0].consecutive_fails == 0,
        states[0].consecutive_oks == 0,
        results.len() <= u32::MAX,
        0 <= n <= results.len(),
    ensures
        ({
            let fails = states[n].consecutive_fails as int;
            &&& 0 <= fails <= n
            &&& forall|k: int| n - fails <= k < n ==> !#[trigger] results[k]
            &&& fails < n ==> results[n - fails - 1]
        }),
        ({
            let oks = states[n].consecutive_oks as int;
            &&& 0 <= oks <= n
            &&& forall|k: int| n - oks <= k < n ==> #[trigger] results[k]
            &&& oks < n ==> !results[n - oks - 1]
        }),
    decreases n,
{
    if n > 0 {
        law_runs_are_counted(states, results, falls, rises, n - 1);
        let before = states[n - 1];
        assert(states[n - 1 + 1] == before.probed(results[n - 1], falls[n - 1], rises[n - 1]));
    }
}

/// Flap protection through any history: a healthy backend goes down with a probe if and only if
/// that probe failed and ends a run of at least `fall` failures, and one that is down comes up if
/// and only if it passed and ends a run of at least `rise` passed probes. What was before the run
/// counts for nothing.
pub proof fn law_health_changes_only_after_a_run(
    states: Seq<BackendView>,
    results: Seq<bool>,
    falls: Seq<u32>,
    rises: Seq<u32>,
    n: int,
)
    requires
        states.len() == results.len() + 1,
        falls.len() == results.len(),
        rises.len() == results.len(),
        forall|i: int|
            0 <= i < results.len() ==> states[i + 1] == states[i].probed(
                #[trigger] results[i],
                falls[i],
                rises[i],
            ),
        states[0].consecutive_fails == 0,
        states[0].consecutive_oks == 0,
        results.len() <= u32::MAX,
        0 <= n < results.len(),
    ensures
        states[n].healthy ==> (!states[n + 1].healthy <==> !results[n] && falls[n] <= n + 1 && forall|
            k: int,
        |
            n + 1 - falls[n] <= k <= n ==> !#[trigger] results[k]),
        !states[n].healthy ==> (states[n + 1].healthy <==> results[n] && rises[n] <= n + 1
            && forall|k: int| n + 1 - rises[n] <= k <= n ==> #[trigger] results[k]),
{
    law_runs_are_counted(states, results, falls, rises, n + 1);
    let before = states[n];
    let after = states[n + 1];
    assert(after == before.probed(results[n], falls[n], rises[n]));
    let fails = after.consecutive_fails as int;
    let oks = after.consecutive_oks as int;
    if before.healthy && !results[n] && falls[n] <= n + 1 && fails < falls[n] {
        assert(results[n + 1 - fails - 1]);
    }
    if !before.healthy && results[n] && rises[n] <= n + 1 && oks < rises[n] {
        assert(!results[n + 1 - oks - 1]);
    }
}

} // verus!
