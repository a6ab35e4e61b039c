//! An engine-agnostic adapter layer for scripting an embedded JavaScript
//! engine from host code.
//!
//! Engine-confined values are described by the adapter traits in
//! [`adapters`]; values that may leave the engine thread are plain data in
//! [`facades`]. Every contract is stated over the mathematical model in
//! [`model`].
//!
//! The host realm of [`host_realm`], with its values, promises and runtime,
//! is an engine that lives in host memory and runs no scripts. It meets
//! every contract of the traits, and serves where host code is to be run
//! without a script engine.

pub mod value_type;
pub mod big;
pub mod numbers;
pub mod errors;
pub mod facades;
pub mod proxies;
pub mod model;
pub mod script;
pub mod adapters;
pub mod host_value;
mod host_function;
pub mod host_promise;
pub mod host_realm;
pub mod host_runtime;
