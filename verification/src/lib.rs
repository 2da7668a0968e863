//! A simple key/value store whose log-structured engine keeps an in-memory
//! index of where each live command sits in its generation log files.

pub mod client;
pub mod common;
pub mod decimal;
pub mod engines;
pub mod error;
pub mod memory;
pub mod server;

pub use client::KvsClient;
pub use common::{GetResponse, RemoveResponse, Request, Response, SetResponse};
pub use engines::kvs::KvStore;
pub use engines::KvsEngine;
pub use error::{KvsError, Result};
pub use server::KvsServer;
