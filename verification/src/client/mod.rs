//! The command line: which process is meant, what is shown of it, and how programs are started.
pub mod command;
pub mod labels;
pub mod limits;
pub mod moves;
pub mod target;
pub mod usage;
