//! The decision making of a reverse proxy: weighted load balancing over a pool of backends,
//! health tracking, request routing, and the rules of its control plane.

pub mod admin;
pub mod backend;
pub mod change_laws;
pub mod config;
pub mod demo;
pub mod gcd;
pub mod health;
pub mod http;
pub mod loadgen;
pub mod metrics;
pub mod pick_laws;
pub mod pool;
pub mod pool_laws;
pub mod proxy;
pub mod ring;
pub mod schedule;
pub mod schedule_laws;
pub mod text;
pub mod traffic_laws;
