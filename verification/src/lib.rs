//! A ledger of shared expenses for chat rooms, and the commands of the bot
//! that keeps it.
//!
//! Each room has a tab: the running balance of each of its users, a signed
//! count of minor currency units. Users record what they paid in short
//! messages; the bot reads the command in a message, carries it out on the
//! ledger and says what to reply.
//!
//! - [`utils`]: amounts as text, `["-"]<units>.<cents>`.
//! - [`tabs`]: the tab of a room, and the store of all tabs.
//! - [`handlers`]: the commands, the reaction to each, and the waits between
//!   attempts to join a room.
//! - [`config`]: the settings that the bot is started with.
//! - [`text`], [`assoc`]: words and substrings of a text; lists of pairs that
//!   are read as maps.
//!
//! Contracts speak of texts as sequences of characters, of a tab as the
//! sequence of its users with their balances ([`tabs::Tab`]), and of the
//! ledger as a map from rooms to tabs ([`tabs::Ledger`]). What a function
//! returns or changes is a function of these, written beside it.

pub mod assoc;
pub mod config;
pub mod handlers;
pub mod tabs;
pub mod text;
pub mod utils;
