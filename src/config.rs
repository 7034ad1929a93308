use vstd::prelude::*;

verus! {

/// The bot's configuration.
#[derive(Clone, Debug, PartialEq, Eq)]
pub struct Config {
    pub general: GeneralConfig,
    pub auth: AuthConfig,
}

/// General behaviour.
#[derive(Clone, Debug, PartialEq, Eq)]
pub struct GeneralConfig {
    /// What a message starts with to address the bot.
    pub command_prefix: String,
}

/// Credentials and ownership.
#[derive(Clone, Debug, PartialEq, Eq)]
pub struct AuthConfig {
    pub token: String,
    /// The snowflake id of the bot's owner.
    pub superuser: u64,
}

} // verus!
