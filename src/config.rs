//! Which interfaces are on, and the secrets the gateway uses.

use vstd::prelude::*;
use crate::text::{str_eq, string_from_utf8};
use vstd::utf8::{decode_utf8, valid_utf8};

verus! {

pub struct Config {
    pub sse_enabled: bool,
    pub http_publish_enabled: bool,
    pub mqtt_enabled: bool,
    pub admin_enabled: bool,
    pub publish_token: String,
    pub internal_key: Vec<u8>,
    /// Whether a message published over MQTT is echoed back to its sender
    /// when no publish token is set and the message is not retained.
    pub local_echo: bool,
}

impl Config {
    /// Every interface on, no publish token, no internal key.
    pub open spec fn is_default(&self) -> bool {
        self.sse_enabled && self.http_publish_enabled && self.mqtt_enabled && self.admin_enabled
            && self.publish_token@.len() == 0 && self.internal_key@.len() == 0 && self.local_echo
    }
}

impl Default for Config {
    fn default() -> (r: Self)
        ensures
            r.is_default(),
    {
        Config {
            sse_enabled: true,
            http_publish_enabled: true,
            mqtt_enabled: true,
            admin_enabled: true,
            publish_token: String::new(),
            internal_key: Vec::new(),
            local_echo: true,
        }
    }
}

#[derive(Debug, Clone, Copy, PartialEq, Eq, Structural)]
pub enum ConfigError {
    StoreError,
    InvalidValue,
}

/// A boolean setting: exactly `true` or `false`.
pub open spec fn spec_str_to_bool(s: Seq<char>) -> Option<bool> {
    if s == seq!['t', 'r', 'u', 'e'] {
        Some(true)
    } else if s == seq!['f', 'a', 'l', 's', 'e'] {
        Some(false)
    } else {
        None
    }
}

pub fn str_to_bool(s: &str) -> (r: Result<bool, ConfigError>)
    ensures
        match spec_str_to_bool(s@) {
            Some(b) => r == Ok::<bool, ConfigError>(b),
            None => r == Err::<bool, ConfigError>(ConfigError::InvalidValue),
        },
{
    proof {
        reveal_strlit("true");
        reveal_strlit("false");
    }
    if str_eq(s, "true") {
        assert("true"@ =~= seq!['t', 'r', 'u', 'e']);
        Ok(true)
    } else if str_eq(s, "false") {
        assert("false"@ =~= seq!['f', 'a', 'l', 's', 'e']);
        Ok(false)
    } else {
        assert("true"@ =~= seq!['t', 'r', 'u', 'e']);
        assert("false"@ =~= seq!['f', 'a', 'l', 's', 'e']);
        Err(ConfigError::InvalidValue)
    }
}

/// Where the configuration comes from.
pub trait Source {
    fn config(&self) -> Result<Config, ConfigError>;
}

/// Settings as read from a config store and a secret store: each `None` when
/// the store or the entry is missing.
pub struct StoreValues {
    pub sse: Option<String>,
    pub http_publish: Option<String>,
    pub admin: Option<String>,
    pub local_echo: Option<String>,
    pub publish_token: Option<Vec<u8>>,
    pub internal_key: Option<Vec<u8>>,
}

/// A boolean setting over its default.
pub open spec fn setting(v: Option<String>, default: bool) -> Option<bool> {
    match v {
        None => Some(default),
        Some(s) => spec_str_to_bool(s@),
    }
}

fn read_setting(v: &Option<String>) -> (r: Result<bool, ConfigError>)
    ensures
        match setting(*v, true) {
            Some(b) => r == Ok::<bool, ConfigError>(b),
            None => r == Err::<bool, ConfigError>(ConfigError::InvalidValue),
        },
{
    match v {
        None => Ok(true),
        Some(s) => str_to_bool(s.as_str()),
    }
}

/// Configuration from a config store and a secret store, by their names.
pub struct ConfigAndSecretStoreSource {
    pub config_store_name: String,
    pub secret_store_name: String,
}

impl ConfigAndSecretStoreSource {
    pub fn new(config_store_name: &str, secret_store_name: &str) -> (r: Self)
        ensures
            r.config_store_name@ == config_store_name@,
            r.secret_store_name@ == secret_store_name@,
    {
        ConfigAndSecretStoreSource {
            config_store_name: config_store_name.to_owned(),
            secret_store_name: secret_store_name.to_owned(),
        }
    }

    /// The configuration the stores' values give: the defaults, with each
    /// boolean present read as `true` or `false` and the secrets present taken
    /// (the publish token as UTF-8). MQTT stays on.
    pub fn build_config(values: StoreValues) -> (r: Result<Config, ConfigError>)
        ensures
            match (
                setting(values.sse, true),
                setting(values.http_publish, true),
                setting(values.admin, true),
                setting(values.local_echo, true),
            ) {
                (Some(sse), Some(http), Some(admin), Some(echo)) => match values.publish_token {
                    Some(t) if !valid_utf8(t@) => r == Err::<Config, ConfigError>(
                        ConfigError::InvalidValue,
                    ),
                    _ => r matches Ok(c) && c.sse_enabled == sse && c.http_publish_enabled == http
                        && c.admin_enabled == admin && c.local_echo == echo && c.mqtt_enabled && c.publish_token@ == (
                    match values.publish_token {
                        Some(t) => decode_utf8(t@),
                        None => Seq::empty(),
                    }) && c.internal_key@ == (match values.internal_key {
                        Some(k) => k@,
                        None => Seq::empty(),
                    }),
                },
                _ => r == Err::<Config, ConfigError>(ConfigError::InvalidValue),
            },
    {
        let sse = read_setting(&values.sse)?;
        let http_publish = read_setting(&values.http_publish)?;
        let admin = read_setting(&values.admin)?;
        let local_echo = read_setting(&values.local_echo)?;
        let publish_token = match values.publish_token {
            Some(t) => match string_from_utf8(t) {
                Some(s) => s,
                None => return Err(ConfigError::InvalidValue),
            },
            None => String::new(),
        };
        let internal_key = match values.internal_key {
            Some(k) => k,
            None => Vec::new(),
        };
        Ok(
            Config {
                sse_enabled: sse,
                http_publish_enabled: http_publish,
                mqtt_enabled: true,
                admin_enabled: admin,
                publish_token,
                internal_key,
                local_echo,
            },
        )
    }
}

/// The default configuration, for running without stores.
pub struct TestSource;

impl Source for TestSource {
    fn config(&self) -> (r: Result<Config, ConfigError>) {
        Ok(Config::default())
    }
}

} // verus!
