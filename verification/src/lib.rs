//! A disposable-mail service's core: address rules, message parsing, the
//! bounded in-memory store, the SMTP dialogue and the HTTP read API, each
//! stated over mathematical models and proved against them.

pub mod address;
pub mod config;
pub mod http_api;
pub mod mail_parser;
pub mod message;
pub mod smtp_server;
pub mod store;
pub mod store_laws;
pub mod text;
pub mod time;
