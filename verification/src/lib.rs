//! Conversion between nested YAML configuration files and flat
//! `KEY=VALUE` environment files, in both directions.
pub mod text;
pub mod yaml_to_env;
pub mod env_to_yaml;
pub mod roundtrip;
