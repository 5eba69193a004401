//! What the proxy counts: the metric families that it exposes, and the updates that requests
//! cause.

use crate::proxy::ProxyError;
use crate::text::{decimal, decimal_text, law_decimal_reads_back, same_text};
use vstd::prelude::*;

verus! {

/// A metric family of the proxy.
#[derive(Debug, Clone, Copy, PartialEq, Eq, Structural)]
pub enum Family {
    RequestsTotal,
    RequestDuration,
    ActiveConnections,
    HealthyBackends,
    ErrorsTotal,
}

/// How the values of a metric family behave.
#[derive(Debug, Clone, Copy, PartialEq, Eq, Structural)]
pub enum Kind {
    /// Only ever goes up.
    Counter,
    /// Goes up and down.
    Gauge,
    /// Counts observations by their size.
    Histogram,
}

impl Family {
    pub open spec fn spec_name(self) -> Seq<char> {
        match self {
            Family::RequestsTotal => "rustproxy_requests_total"@,
            Family::RequestDuration => "rustproxy_request_duration_seconds"@,
            Family::ActiveConnections => "rustproxy_active_connections"@,
            Family::HealthyBackends => "rustproxy_healthy_backends"@,
            Family::ErrorsTotal => "rustproxy_errors_total"@,
        }
    }

    pub open spec fn spec_help(self) -> Seq<char> {
        match self {
            Family::RequestsTotal => "Total proxied requests"@,
            Family::RequestDuration => "End-to-end proxy latency"@,
            Family::ActiveConnections => "In-flight requests per backend"@,
            Family::HealthyBackends => "Number of backends currently passing health checks"@,
            Family::ErrorsTotal => "Proxy-side errors"@,
        }
    }

    pub open spec fn spec_kind(self) -> Kind {
        match self {
            Family::RequestsTotal => Kind::Counter,
            Family::RequestDuration => Kind::Histogram,
            Family::ActiveConnections => Kind::Gauge,
            Family::HealthyBackends => Kind::Gauge,
            Family::ErrorsTotal => Kind::Counter,
        }
    }

    pub open spec fn spec_labels(self) -> Seq<Seq<char>> {
        match self {
            Family::RequestsTotal => seq!["backend"@, "status"@],
            Family::RequestDuration => seq!["backend"@],
            Family::ActiveConnections => seq!["backend"@],
            Family::HealthyBackends => seq![],
            Family::ErrorsTotal => seq!["kind"@],
        }
    }

    pub fn name(&self) -> (name: &'static str)
        ensures
            name@ == self.spec_name(),
    {
        match self {
            Family::RequestsTotal => "rustproxy_requests_total",
            Family::RequestDuration => "rustproxy_request_duration_seconds",
            Family::ActiveConnections => "rustproxy_active_connections",
            Family::HealthyBackends => "rustproxy_healthy_backends",
            Family::ErrorsTotal => "rustproxy_errors_total",
        }
    }

    pub fn help(&self) -> (help: &'static str)
        ensures
            help@ == self.spec_help(),
    {
        match self {
            Family::RequestsTotal => "Total proxied requests",
            Family::RequestDuration => "End-to-end proxy latency",
            Family::ActiveConnections => "In-flight requests per backend",
            Family::HealthyBackends => "Number of backends currently passing health checks",
            Family::ErrorsTotal => "Proxy-side errors",
        }
    }

    pub fn kind(&self) -> (kind: Kind)
        ensures
            kind == self.spec_kind(),
    {
        match self {
            Family::RequestsTotal => Kind::Counter,
            Family::RequestDuration => Kind::Histogram,
            Family::ActiveConnections => Kind::Gauge,
            Family::HealthyBackends => Kind::Gauge,
            Family::ErrorsTotal => Kind::Counter,
        }
    }

    /// The names of the family's labels, in order.
    pub fn labels(&self) -> (labels: Vec<&'static str>)
        ensures
            labels@.len() == self.spec_labels().len(),
            forall|i: int| 0 <= i < labels@.len() ==> #[trigger] labels@[i]@ == self.spec_labels()[i],
    {
        match self {
            Family::RequestsTotal => vec!["backend", "status"],
            Family::RequestDuration => vec!["backend"],
            Family::ActiveConnections => vec!["backend"],
            Family::HealthyBackends => Vec::new(),
            Family::ErrorsTotal => vec!["kind"],
        }
    }
}

/// An update that a request causes.
#[derive(Debug, Clone, Copy, PartialEq, Eq, Structural)]
pub enum MetricOp {
    /// One more request in flight to the backend.
    ActiveInc,
    /// One less.
    ActiveDec,
    /// The time that the request took is observed for the backend.
    ObserveLatency,
    /// A request was served by the backend with this status.
    CountRequest(u16),
    /// An error of the proxy's own.
    CountError(ProxyError),
}

impl MetricOp {
    pub open spec fn spec_family(self) -> Family {
        match self {
            MetricOp::ActiveInc => Family::ActiveConnections,
            MetricOp::ActiveDec => Family::ActiveConnections,
            MetricOp::ObserveLatency => Family::RequestDuration,
            MetricOp::CountRequest(_) => Family::RequestsTotal,
            MetricOp::CountError(_) => Family::ErrorsTotal,
        }
    }

    pub open spec fn spec_label_values(self, addr: Seq<char>) -> Seq<Seq<char>> {
        match self {
            MetricOp::CountRequest(status) => seq![addr, decimal(status as nat)],
            MetricOp::CountError(error) => seq![error.spec_label()],
            _ => seq![addr],
        }
    }

    pub fn family(&self) -> (family: Family)
        ensures
            family == self.spec_family(),
    {
        match self {
            MetricOp::ActiveInc => Family::ActiveConnections,
            MetricOp::ActiveDec => Family::ActiveConnections,
            MetricOp::ObserveLatency => Family::RequestDuration,
            MetricOp::CountRequest(_) => Family::RequestsTotal,
            MetricOp::CountError(_) => Family::ErrorsTotal,
        }
    }

    /// The values of the family's labels for this update, in a request to the backend at `addr`.
    pub fn label_values(&self, addr: &str) -> (values: Vec<String>)
        ensures
            values@.len() == self.spec_label_values(addr@).len(),
            forall|i: int|
                0 <= i < values@.len() ==> #[trigger] values@[i]@ == self.spec_label_values(
                    addr@,
                )[i],
    {
        let mut values: Vec<String> = Vec::new();
        match self {
            MetricOp::CountRequest(status) => {
                values.push(addr.to_owned());
                values.push(decimal_text(*status));
            },
            MetricOp::CountError(error) => {
                values.push(error.label().to_owned());
            },
            _ => {
                values.push(addr.to_owned());
            },
        }
        values
    }
}

/// An update has a value for each label of its family.
pub proof fn law_label_values_match_labels(op: MetricOp, addr: Seq<char>)
    ensures
        op.spec_label_values(addr).len() == op.spec_family().spec_labels().len(),
{
}

/// An update suits the kind of its family: only a gauge goes down, and observations go to a
/// histogram.
pub proof fn law_updates_suit_kinds(op: MetricOp)
    ensures
        op == MetricOp::ActiveInc || op == MetricOp::ActiveDec ==> op.spec_family().spec_kind()
            == Kind::Gauge,
        op == MetricOp::ObserveLatency <==> op.spec_family().spec_kind() == Kind::Histogram,
        op is CountRequest || op is CountError <==> op.spec_family().spec_kind() == Kind::Counter,
{
}

/// What a series of updates comes to for the number of requests in flight.
pub open spec fn active_delta(ops: Seq<MetricOp>) -> int
    decreases ops.len(),
{
    if ops.len() == 0 {
        0
    } else {
        active_delta(ops.drop_last()) + match ops.last() {
            MetricOp::ActiveInc => 1int,
            MetricOp::ActiveDec => -1int,
            _ => 0int,
        }
    }
}

/// What the metrics listener answers.
#[derive(Debug, Clone, Copy, PartialEq, Eq, Structural)]
pub enum MetricsPage {
    /// The current metrics.
    Exposition,
    /// There is no such page.
    NotFound,
}

impl MetricsPage {
    /// The page at a path.
    pub fn at(path: &str) -> (page: MetricsPage)
        ensures
            page == if path@ == "/metrics"@ {
                MetricsPage::Exposition
            } else {
                MetricsPage::NotFound
            },
    {
        if same_text(path, "/metrics") {
            MetricsPage::Exposition
        } else {
            MetricsPage::NotFound
        }
    }

    pub fn status(&self) -> (status: u16)
        ensures
            status == if *self == MetricsPage::Exposition {
                200u16
            } else {
                404u16
            },
    {
        match self {
            MetricsPage::Exposition => 200,
            MetricsPage::NotFound => 404,
        }
    }

    /// The content type that the answer declares, if any.
    pub fn content_type(&self) -> (content_type: Option<&'static str>)
        ensures
            *self == MetricsPage::Exposition ==> content_type is Some && content_type->0@
                == "text/plain; version=0.0.4"@,
            *self == MetricsPage::NotFound ==> content_type is None,
    {
        match self {
            MetricsPage::Exposition => Some("text/plain; version=0.0.4"),
            MetricsPage::NotFound => None,
        }
    }

    /// The body that stands fixed, if the page has one.
    pub fn fixed_body(&self) -> (body: Option<&'static str>)
        ensures
            *self == MetricsPage::Exposition ==> body is None,
            *self == MetricsPage::NotFound ==> body is Some && body->0@ == "not found"@,
    {
        match self {
            MetricsPage::Exposition => None,
            MetricsPage::NotFound => Some("not found"),
        }
    }
}

/// An update is counted for the backend that the request goes to, an error for its kind. A request
/// that was served is counted under a status that reads back, digit by digit, as the one that the
/// client got.
pub proof fn law_updates_are_counted_where_they_belong(op: MetricOp, addr: Seq<char>)
    ensures
        ({
            let values = op.spec_label_values(addr);
            match op {
                MetricOp::CountRequest(status) => {
                    &&& values.len() == 2
                    &&& values[0] == addr
                    &&& values[1].fold_left(
                        0int,
                        |value: int, c: char| value * 10 + (c as int - '0' as int),
                    ) == status
                    &&& forall|i: int|
                        0 <= i < values[1].len() ==> '0' <= #[trigger] values[1][i] <= '9'
                    &&& values[1].len() > 1 ==> values[1][0] != '0'
                    &&& values[1].len() > 0
                    &&& op.spec_family() == Family::RequestsTotal
                },
                MetricOp::CountError(error) => {
                    &&& values == seq![error.spec_label()]
                    &&& op.spec_family() == Family::ErrorsTotal
                },
                MetricOp::ObserveLatency => {
                    &&& values == seq![addr]
                    &&& op.spec_family() == Family::RequestDuration
                },
                _ => {
                    &&& values == seq![addr]
                    &&& op.spec_family() == Family::ActiveConnections
                },
            }
        }),
{
    match op {
        MetricOp::CountRequest(status) => {
            law_decimal_reads_back(status as nat);
        },
        _ => {},
    }
}

/// Whatever is counted for a backend is labelled with the backend first, served requests with their
/// status next, and errors with their kind. The number of healthy backends has no label.
pub proof fn law_families_are_labelled(family: Family)
    ensures
        family == Family::RequestsTotal ==> family.spec_labels() == seq!["backend"@, "status"@],
        family == Family::RequestDuration || family == Family::ActiveConnections
            ==> family.spec_labels() == seq!["backend"@],
        family == Family::ErrorsTotal ==> family.spec_labels() == seq!["kind"@],
        family == Family::HealthyBackends ==> family.spec_labels().len() == 0,
{
}

} // verus!
