//! A hierarchical group-management core, verified with Verus.
//!
//! The library manages named groups and stems (hierarchical containers)
//! held in a directory server: the dotted naming scheme and its
//! validation, the filters sent to the directory, the authorization
//! engine deciding what a caller may read or change, the write interface
//! over a model of the directory state, and the flattening engine that
//! keeps each entry's transitive member closure consistent with the
//! direct state. Around it, an unverified shell performs the directory,
//! file and network I/O and hands the library plain values.

pub mod api_read;
pub mod api_write;
pub mod audit;
pub mod authz;
pub mod cache;
pub mod calendar;
pub mod cas_auth;
pub mod config;
pub mod directory;
pub mod flatten;
pub mod helpers;
pub mod ldap_filter;
pub mod mods;
pub mod naming;
pub mod remote_query;
pub mod types;
pub mod urls;
