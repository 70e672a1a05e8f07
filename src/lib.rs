//! Dispatch of the cells of an N-dimensional index space to remote workers.
//!
//! - `job`: dimensions, jobs, the row-major job stack and the job manager
//!   that hands jobs out, takes them back and records completions.
//! - `space`: the index space in mathematical form (row-major rank and its inverse).
//! - `http`: the line-oriented HTTP/1.1 subset spoken on the wire.
//! - `server`: what the dispatcher answers to a request, and its life cycle.
//! - `client`: what a worker asks for and makes of the answers.
//! - `text`: decimal numbers, splitting and searching over characters.
pub mod client;
pub mod http;
pub mod job;
pub mod server;
pub mod space;
pub mod text;
