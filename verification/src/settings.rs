//! The run's configuration as plain values, with its defaults and the
//! collective check for required entries.
//!
//! Loading the configuration file and overlaying environment variables is
//! the host's business; what arrives here is the finished set of values.

use vstd::prelude::*;

verus! {

/// Everything one reconciliation run is configured with.
pub struct Settings {
    /// Ordered address-echo sources; the well-known pair by default.
    pub ip_src: Option<Vec<String>>,
    pub auth_key: String,
    pub auth_email: String,
    pub zone_id: String,
    /// Glob patterns over record names; absent means every record.
    pub patterns: Option<Vec<String>>,
    /// Whether the patterns exclude (the default) or include.
    pub invert_patterns: Option<bool>,
    /// Global timeout for each request, in seconds.
    pub http_timeout_s: Option<u64>,
}

impl Default for Settings {
    /// The configuration written into a fresh config file: the two
    /// well-known address sources, a ten-second timeout, empty credentials
    /// that the required-entry check will flag, and no filter.
    fn default() -> (r: Settings)
        ensures
            r.ip_src matches Some(v) && v@.len() == 2 && v@[0]@ == "https://ipv4.icanhazip.com"@
                && v@[1]@ == "https://api.ipify.org"@,
            r.auth_key@.len() == 0,
            r.auth_email@.len() == 0,
            r.zone_id@.len() == 0,
            r.patterns is None,
            r.invert_patterns is None,
            r.http_timeout_s == Some(10u64),
    {
        let mut sources: Vec<String> = Vec::new();
        sources.push("https://ipv4.icanhazip.com".to_owned());
        sources.push("https://api.ipify.org".to_owned());
        Settings {
            ip_src: Some(sources),
            auth_key: String::new(),
            auth_email: String::new(),
            zone_id: String::new(),
            patterns: None,
            invert_patterns: None,
            http_timeout_s: Some(10),
        }
    }
}

/// The names of the required entries the settings leave empty, in their
/// reporting order.
pub open spec fn missing_of(s: Settings) -> Seq<Seq<char>> {
    (if s.auth_key@.len() == 0 {
        seq!["auth_key"@]
    } else {
        Seq::<Seq<char>>::empty()
    }) + (if s.auth_email@.len() == 0 {
        seq!["auth_email"@]
    } else {
        Seq::<Seq<char>>::empty()
    }) + (if s.zone_id@.len() == 0 {
        seq!["zone_id"@]
    } else {
        Seq::<Seq<char>>::empty()
    })
}

/// Detect the missing required entries, all at once, so they can be
/// reported collectively before the run starts. An empty result means the
/// settings may be used.
pub fn missing_required(s: &Settings) -> (r: Vec<&'static str>)
    ensures
        r@.map_values(|t: &str| t@) == missing_of(*s),
{
    let mut r: Vec<&'static str> = Vec::new();
    if s.auth_key.as_str().is_empty() {
        r.push("auth_key");
    }
    if s.auth_email.as_str().is_empty() {
        r.push("auth_email");
    }
    if s.zone_id.as_str().is_empty() {
        r.push("zone_id");
    }
    proof {
        assert(r@.map_values(|t: &str| t@) =~= missing_of(*s));
    }
    r
}

/// The request timeout to use: the configured value, or ten seconds.
pub fn effective_timeout(s: &Settings) -> (r: u64)
    ensures
        r == match s.http_timeout_s {
            Some(t) => t,
            None => 10u64,
        },
{
    match s.http_timeout_s {
        Some(t) => t,
        None => 10,
    }
}

/// The invert flag to use: the configured value, or true — patterns
/// exclude by default.
pub fn effective_invert(s: &Settings) -> (r: bool)
    ensures
        r == match s.invert_patterns {
            Some(b) => b,
            None => true,
        },
{
    match s.invert_patterns {
        Some(b) => b,
        None => true,
    }
}

} // verus!
