//! The rules of a small text desk: finding repeated phrases, mixed-alphabet words and similarity
//! between texts, and searching Telegram for passages of a text under a saved, sealed session.

pub mod access;
pub mod analysis;
pub mod base64;
pub mod boot;
pub mod compare;
pub mod html;
pub mod login;
pub mod numbers;
pub mod repeats;
pub mod search;
pub mod session;
pub mod settings;
pub mod symbols;
pub mod text;
