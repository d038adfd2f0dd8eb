//! Deployment configuration.

use vstd::prelude::*;

use crate::text;
use crate::text::{chars_of, copy_opt, read_signed_number};

verus! {

/// How a resolver is deployed.
#[derive(Debug)]
pub struct Config {
    /// The address to listen at.
    pub bind: String,
    /// The token that guards the administrative surface; without one it is
    /// open.
    pub admin_token: Option<String>,
    /// The base URL of the upstream resolver in national-intermediary mode.
    pub upstream: Option<String>,
    /// How long a cached answer of the upstream is fresh.
    pub cache_ttl_secs: i64,
    /// The journal of the history, replayed on start.
    pub state_file: Option<String>,
}

/// What a [`Config`] stands for.
#[verifier::ext_equal]
pub struct ConfigView {
    pub bind: Seq<char>,
    pub admin_token: Option<Seq<char>>,
    pub upstream: Option<Seq<char>>,
    pub cache_ttl_secs: int,
    pub state_file: Option<Seq<char>>,
}

impl View for Config {
    type V = ConfigView;

    open spec fn view(&self) -> ConfigView {
        ConfigView {
            bind: self.bind@,
            admin_token: text::opt_text(self.admin_token),
            upstream: text::opt_text(self.upstream),
            cache_ttl_secs: self.cache_ttl_secs as int,
            state_file: text::opt_text(self.state_file),
        }
    }
}

/// The configuration of a resolver that nothing is said of.
pub open spec fn default_config() -> ConfigView {
    ConfigView {
        bind: "127.0.0.1:8080"@,
        admin_token: None,
        upstream: None,
        cache_ttl_secs: 300,
        state_file: None,
    }
}

/// A setting that is not empty.
pub open spec fn setting(o: Option<Seq<char>>) -> Option<Seq<char>> {
    match o {
        Some(s) if s.len() > 0 => Some(s),
        _ => None,
    }
}

/// The configuration that settings lead to: an empty one is none, and a time to
/// live that is no number leaves the default.
pub open spec fn configured(
    bind: Option<Seq<char>>,
    admin_token: Option<Seq<char>>,
    upstream: Option<Seq<char>>,
    ttl: Option<Seq<char>>,
    state_file: Option<Seq<char>>,
) -> ConfigView {
    ConfigView {
        bind: text::text_or(bind, default_config().bind),
        admin_token: setting(admin_token),
        upstream: setting(upstream),
        cache_ttl_secs: match ttl {
            Some(s) => match text::signed_number(s) {
                Some(n) => n,
                None => default_config().cache_ttl_secs,
            },
            None => default_config().cache_ttl_secs,
        },
        state_file: setting(state_file),
    }
}

impl Default for Config {
    fn default() -> (r: Config)
        ensures
            r@ == default_config(),
    {
        Config {
            bind: "127.0.0.1:8080".to_string(),
            admin_token: None,
            upstream: None,
            cache_ttl_secs: 300,
            state_file: None,
        }
    }
}

impl Clone for Config {
    fn clone(&self) -> (r: Config)
        ensures
            r@ == self@,
    {
        Config {
            bind: self.bind.clone(),
            admin_token: copy_opt(&self.admin_token),
            upstream: copy_opt(&self.upstream),
            cache_ttl_secs: self.cache_ttl_secs,
            state_file: copy_opt(&self.state_file),
        }
    }
}

fn non_empty(o: Option<String>) -> (r: Option<String>)
    ensures
        text::opt_text(r) == setting(text::opt_text(o)),
{
    match o {
        Some(s) => {
            let cs = chars_of(s.as_str());
            if cs.len() > 0 {
                Some(s)
            } else {
                None
            }
        },
        None => None,
    }
}

impl Config {
    /// The configuration that settings lead to. `bind` is an address that has
    /// been found good.
    pub fn from_settings(
        bind: Option<String>,
        admin_token: Option<String>,
        upstream: Option<String>,
        cache_ttl_secs: Option<String>,
        state_file: Option<String>,
    ) -> (r: Config)
        ensures
            r@ == configured(
                text::opt_text(bind),
                text::opt_text(admin_token),
                text::opt_text(upstream),
                text::opt_text(cache_ttl_secs),
                text::opt_text(state_file),
            ),
    {
        let plain = Config::default();
        let ttl: i64 = match cache_ttl_secs {
            Some(s) => match read_signed_number(s.as_str()) {
                Some(n) => n,
                None => plain.cache_ttl_secs,
            },
            None => plain.cache_ttl_secs,
        };
        Config {
            bind: match bind {
                Some(s) => s,
                None => plain.bind,
            },
            admin_token: non_empty(admin_token),
            upstream: non_empty(upstream),
            cache_ttl_secs: ttl,
            state_file: non_empty(state_file),
        }
    }
}

} // verus!
