//! Transaction identifiers of a Matrix homeserver: which client requests and which federation
//! transactions have already been answered, and with what.

pub mod cache;
pub mod database;
pub mod entries;
pub mod history;
pub mod ids;
pub mod keys;
pub mod laws;
pub mod locks;
pub mod response;
pub mod service;
pub mod state;
pub mod text;

pub use database::{Insert, Query};
pub use ids::{DeviceId, InvalidServerName, ServerName, TransactionId, UserId};
pub use response::{PduOutcome, Response};
pub use service::Service;
