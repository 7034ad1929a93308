//! A declarative command-grammar engine.
//!
//! A grammar set is a list of levels; each level is a list of commands, each
//! with aliases and typed arguments (`grammar`). A level's aliases go into a
//! prefix trie (`trie`) that resolves abbreviated identifiers; tokens are then
//! bound to the command's arguments, recursing into subcommand levels
//! (`parse`). `usage` reads the usage-line notation for argument names, and
//! `laws` states properties that follow from the contracts; `snowflake` reads
//! user and channel ids. `commands` (the bot's grammar, stated exactly),
//! `bot` (typed readers of its parsed commands), `admin` and `config` hold the
//! command set and data of a chat bot built on the engine.

pub mod admin;
pub mod bot;
pub mod commands;
pub mod config;
pub mod grammar;
pub mod laws;
pub mod parse;
pub mod text;
pub mod trie;
pub mod usage;
pub mod snowflake;
