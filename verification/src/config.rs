//! What the bot is started with.

use vstd::prelude::*;

verus! {

/// The settings of the bot.
#[derive(Debug)]
pub struct Config {
    /// URL of the homeserver to connect to.
    pub server: String,
    /// Username of the bot.
    pub username: String,
    /// Namespace used by the bot to store its state.
    pub namespace: String,
}

impl Config {
    /// The settings that the three arguments of the bot give. The namespace
    /// cannot be the empty string: with an empty namespace there are none.
    pub fn from_args(server: String, username: String, namespace: String) -> (r: Result<Config, ()>)
        ensures
            match r {
                Ok(config) => namespace@.len() > 0 && config.server == server && config.username
                    == username && config.namespace == namespace,
                Err(_) => namespace@.len() == 0,
            },
    {
        if namespace.as_str().is_empty() {
            return Err(());
        }
        Ok(Config { server, username, namespace })
    }
}

} // verus!
