//! Policy core of a self-service community bot: who may act on which channel,
//! how ownership is recorded inside a channel's topic, how sibling channels are
//! ordered, and which roles a selection grants and revokes.

pub mod config;
pub mod error;
pub mod mention;
pub mod moderation;
pub mod ophase;
pub mod self_management;
pub mod team;
pub mod text;
pub mod toc;
