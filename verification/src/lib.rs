//! Breakpoint placement for source-line coverage of native binaries.
//!
//! An agent, preloaded into the traced program, reports the objects that the
//! program has loaded and patches breakpoints into their code; a controller
//! finds the addresses of the statements of the sources that take part, and
//! talks the agent through setting a breakpoint at each.
//!
//! Shared by both: [`types`] and [`wire`]. The agent's side: [`span`] and
//! [`agent`]. The controller's side: [`filter`], [`controller`], [`process`]
//! and [`supervise`]; for debug information [`debuglink`], [`sections`],
//! [`mapped_slice`], [`lines`], [`symtab`], [`functions`], [`frames`] and
//! [`context`].

pub mod agent;
pub mod context;
pub mod controller;
pub mod debuglink;
pub mod error;
pub mod filter;
pub mod frames;
pub mod functions;
pub mod lines;
pub mod mapped_slice;
pub mod paths;
pub mod process;
pub mod ptrace;
pub mod sections;
pub mod span;
pub mod srcloc;
pub mod supervise;
pub mod symtab;
pub mod text;
pub mod types;
pub mod wire;
