//! Core logic of an online judge: the request and response model, the
//! comparison of program output with the expected answer, the verdict of a
//! submission, the rank list of a contest and the rules by which the server
//! accepts users, contests and jobs.

pub mod api_analysis;
pub mod time_format;
pub mod config_analysis;
pub mod ranking;
pub mod trail_terminal;
pub mod records;
pub mod server;
pub mod client;
pub mod laws;
pub mod service_laws;
