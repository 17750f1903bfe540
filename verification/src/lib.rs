//! Protocol core of a client for a typed publish/subscribe protocol: the
//! closed set of value types, the error taxonomy, the topic and subscription
//! registry, the value codec and the connection state machine.

pub mod error;
pub mod text;
pub mod seqs;
pub mod message_type;
pub mod topic;
pub mod registry;
pub mod subscription;
pub mod value;
pub mod messages;
pub mod client_config;
pub mod client;

pub use client::Client;
pub use client_config::Config;
pub use error::Error;
pub use message_type::Type;
