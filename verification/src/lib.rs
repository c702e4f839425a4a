//! Token accounting for simulated LLM conversations: parsing free-form turn
//! descriptions, billing turns into a conversation, markers, tabs, and the
//! plain-text format that saved conversations are stored in.

pub mod app;
pub mod format;
pub mod keys;
pub mod layout;
pub mod lines;
pub mod model;
pub mod number;
pub mod parser;
pub mod replay;
pub mod storage;
pub mod text;
