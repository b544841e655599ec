//! The subcommands' logic: the upgrade report and managing the binary
//! itself. The interactive browser lives in [`crate::tui`].

pub mod pending;
pub mod selfcmd;
pub mod browse;
