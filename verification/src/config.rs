//! The proxy's configuration: its shape, its defaults, and what makes it acceptable.

use vstd::prelude::*;

verus! {

/// How a pool chooses among its healthy backends.
#[derive(Debug, Clone, Copy, PartialEq, Eq, Structural)]
pub enum Strategy {
    RoundRobin,
    LeastConnections,
}

impl Default for Strategy {
    fn default() -> (strategy: Self)
        ensures
            strategy == Strategy::RoundRobin,
    {
        Strategy::RoundRobin
    }
}

#[derive(Debug, Clone)]
pub struct BackendConfig {
    pub addr: String,
}

#[derive(Debug, Clone)]
pub struct HealthCheckConfig {
    pub interval_secs: u64,
    pub timeout_secs: u64,
    pub path: String,
    /// Consecutive failures before a backend is marked down.
    pub fall: u32,
    /// Consecutive successes before a backend is marked up again.
    pub rise: u32,
}

impl Default for HealthCheckConfig {
    fn default() -> (config: Self)
        ensures
            config.interval_secs == 5,
            config.timeout_secs == 2,
            config.path@ == "/health"@,
            config.fall == 3,
            config.rise == 2,
    {
        HealthCheckConfig {
            interval_secs: default_interval_secs(),
            timeout_secs: default_timeout_secs(),
            path: default_health_path(),
            fall: default_fall(),
            rise: default_rise(),
        }
    }
}

#[derive(Debug, Clone)]
pub struct Config {
    pub listen: String,
    pub metrics_listen: String,
    pub admin_listen: String,
    pub strategy: Strategy,
    pub backends: Vec<BackendConfig>,
    pub health_check: HealthCheckConfig,
}

/// Why a configuration is refused.
#[derive(Debug, Clone, Copy, PartialEq, Eq, Structural)]
pub enum ConfigError {
    NoBackends,
}

impl ConfigError {
    pub fn message(&self) -> (text: &'static str)
        ensures
            text@ == "config needs at least one backend"@,
    {
        match self {
            ConfigError::NoBackends => "config needs at least one backend",
        }
    }
}

/// The addresses of the backends that a configuration lists, in its order.
pub open spec fn addresses(backends: Seq<BackendConfig>) -> Seq<Seq<char>> {
    Seq::new(backends.len(), |i: int| backends[i].addr@)
}

impl Config {
    /// Accepts a configuration as it was read, unless it lists no backend.
    pub fn validate(self) -> (result: Result<Config, ConfigError>)
        ensures
            result == if self.backends@.len() == 0 {
                Err::<Config, ConfigError>(ConfigError::NoBackends)
            } else {
                Ok(self)
            },
    {
        if self.backends.is_empty() {
            return Err(ConfigError::NoBackends);
        }
        Ok(self)
    }

    /// The addresses that the proxy's pool starts with.
    pub fn backend_addrs(&self) -> (addrs: Vec<String>)
        ensures
            addrs@.len() == self.backends@.len(),
            forall|i: int|
                0 <= i < addrs@.len() ==> #[trigger] addrs@[i]@ == addresses(self.backends@)[i],
    {
        let mut addrs: Vec<String> = Vec::new();
        let mut i: usize = 0;
        while i < self.backends.len()
            invariant
                i <= self.backends@.len(),
                addrs@.len() == i,
                forall|j: int|
                    0 <= j < i ==> #[trigger] addrs@[j]@ == addresses(self.backends@)[j],
            decreases self.backends@.len() - i,
        {
            addrs.push(self.backends[i].addr.clone());
            i = i + 1;
        }
        addrs
    }
}

pub fn default_metrics_listen() -> (listen: String)
    ensures
        listen@ == "0.0.0.0:9090"@,
{
    "0.0.0.0:9090".to_owned()
}

pub fn default_admin_listen() -> (listen: String)
    ensures
        listen@ == "0.0.0.0:50051"@,
{
    "0.0.0.0:50051".to_owned()
}

pub fn default_interval_secs() -> (secs: u64)
    ensures
        secs == 5,
{
    5
}

pub fn default_timeout_secs() -> (secs: u64)
    ensures
        secs == 2,
{
    2
}

pub fn default_health_path() -> (path: String)
    ensures
        path@ == "/health"@,
{
    "/health".to_owned()
}

pub fn default_fall() -> (fall: u32)
    ensures
        fall == 3,
{
    3
}

pub fn default_rise() -> (rise: u32)
    ensures
        rise == 2,
{
    2
}

/// The addresses are those of the backends, one for each, in their order.
pub proof fn law_addresses_are_those_listed(backends: Seq<BackendConfig>, i: int)
    requires
        0 <= i < backends.len(),
    ensures
        addresses(backends).len() == backends.len(),
        addresses(backends)[i] == backends[i].addr@,
{
}

} // verus!
