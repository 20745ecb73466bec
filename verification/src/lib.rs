//! GPU telemetry of a fleet of hosts: the text that each host reports is
//! cleaned, parsed into exact decimal readings and laid out as a table.

pub mod metric;
pub mod record;
pub mod host;
pub mod text;
pub mod round;
pub mod cli_table;
