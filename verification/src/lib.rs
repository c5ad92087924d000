//! A refreshable, in-memory cache of device specifications.
//!
//! Device names of the form `vendor.com/class=instance` are resolved against
//! a registry built from configured specification sources, and the fragments
//! of the resolved devices are merged into a container runtime specification.
pub mod naming;
pub mod fragment;
pub mod ledger;
pub mod registry;
pub mod cache;
pub mod facade;

pub use cache::{Cache, CacheOption, ConfigError, ConflictPolicy, InjectionError, RefreshError};
pub use facade::{
    configure, get_default_cache, get_errors, inject_devices, list_devices, refresh, reload_source,
    DefaultCache,
};
