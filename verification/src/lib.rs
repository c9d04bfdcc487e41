//! Verified core of the `giteki` command-line tool: the rules that turn
//! command-line options into API queries, read what the certification API
//! returns, name downloaded attachments, and lay out certification records
//! as text tables.

pub mod api;
pub mod attachment;
pub mod cli;
pub mod display;
pub mod elec_wave;
pub mod external;
pub mod text;
pub mod wrap;
