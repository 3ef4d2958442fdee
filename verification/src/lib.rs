//! Splits a kubeconfig-shaped configuration document into one minimal,
//! self-contained document per context.
//!
//! The document tree is modelled by [`yaml::Yaml`] together with typed
//! read accessors; [`kubeconfig`] recognizes configurations,
//! cross-references each context against the cluster and user lists, and
//! builds the output batch; [`pattern`] derives each output's identifier
//! from the naming pattern.  Reading, parsing, serializing and writing
//! files are left to the caller.

pub mod error;
pub mod kubeconfig;
pub mod pattern;
pub mod yaml;
