//! Resolves an effective configuration for a target location inside a
//! directory tree: every YAML configuration file lying between a base
//! directory and the target is collected, grouped by path depth, and
//! deep-merged in ascending depth order, shallow values acting as defaults
//! and deeper values overriding them.

pub mod value;
pub mod merge;
pub mod paths;
pub mod load;
pub mod pipeline;

pub use load::{ConfigFile, LoadError, SourceFile, parse_yaml_configs};
pub use merge::deep_merge;
pub use paths::{PathError, find_yaml_files_in_hierarchy, path_depth, resolve_target_components};
pub use pipeline::{merge_configs_by_depth, merge_hierarchical_configs};
pub use value::{ConfigValue, NumberValue};
