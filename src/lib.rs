//! Housekeeping for a package manager's download cache: reads the package
//! manager's configuration, picks the package archives out of a cache
//! listing, works out which of them no configured repository provides any
//! more, and drives their removal.

pub mod text;
pub mod order;
pub mod package;
pub mod pacman_conf;
pub mod cli;
pub mod scan;
pub mod reconcile;
pub mod byte_format;
pub mod purge;
pub mod prompt;
