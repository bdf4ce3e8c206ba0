//! The tunnel: its configuration, the trust in the server's key, when it is
//! built and rebuilt, and how connections are opened through it.

use vstd::prelude::*;

pub mod config;
pub mod direct;
pub mod handler;
pub mod manager;
pub mod shell;
