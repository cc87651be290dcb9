//! The conversation logic of Ataulfo, a chat bot that answers through a language model: what it
//! remembers, when it answers, what it asks the model and what it sends.

pub mod ai;
pub mod chunks;
pub mod handler;
pub mod memory;
pub mod message;
pub mod outbox;
pub mod prompt;
pub mod reasoning;
pub mod search;
pub mod settings;
pub mod text;
pub mod utf8;
