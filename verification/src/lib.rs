//! Portable, relocatable tool environments: the rules behind them.

pub mod activate;
pub mod activation_vars;
pub mod bytes;
pub mod commands;
pub mod dockercfg;
pub mod env;
pub mod installed;
pub mod manifest;
pub mod oci;
pub mod paths;
pub mod registry;
pub mod relocate;
pub mod report;
pub mod run;
pub mod scan;
pub mod service;
pub mod strmap;
pub mod text;
pub mod tomlp;
