//! A policy engine for privilege escalation: it reads a rule language of aliases and
//! permission rules, and decides whether a user may run a command as another user.
//!
//! `loader` reads a configuration text into a `policy::PolicyModel`, through `token` and
//! `parser`. `alias` holds the alias table and flattens lists; `matching` scans a flattened
//! list for the last entry that matches; `rule` and `policy` decide a request. `syslog`
//! breaks log messages into records for the system log.

pub mod alias;
pub mod cycle_laws;
pub mod flatten_laws;
pub mod ident;
pub mod loader;
pub mod matching;
pub mod model;
pub mod parser;
pub mod policy;
pub mod rule;
pub mod syslog;
pub mod text;
pub mod token;
