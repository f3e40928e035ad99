//! Decision core of a Telegram role-playing agent: what enters, what is shown to the model, what
//! the model's answers make happen, and what is remembered.

pub mod agent;
pub mod channels;
pub mod chats;
pub mod config;
pub mod html;
pub mod json;
pub mod llm;
pub mod markdown;
pub mod naming;
pub mod number;
pub mod order;
pub mod output;
pub mod paths;
pub mod poller;
pub mod search;
pub mod session;
pub mod text;
pub mod tg;
pub mod tools;
pub mod turn;
pub mod unicode;
pub mod web;
