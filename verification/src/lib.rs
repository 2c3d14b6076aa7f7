use vstd::prelude::*;

pub mod text;
pub mod assoc;
pub mod net;
pub mod rank;
pub mod lb;
pub mod conntrack;
pub mod clock;
pub mod latency;
pub mod fastpath;
pub mod flows;
pub mod session;
pub mod dataplane;
pub mod common;
pub mod auth;
pub mod records;
pub mod rules;
pub mod control;
pub mod node;
pub mod api;
pub mod calendar;
pub mod model;
pub mod upgrade;
pub mod metrics;
pub mod cli;
pub mod frame;
pub mod neighbor;
