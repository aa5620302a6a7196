//! Live-driver configuration and its validation: the three feed endpoints
//! must be well-formed URLs, and the channel capacity and fetch interval
//! must be positive.

use vstd::prelude::*;

verus! {

/// Whether a string is a well-formed absolute URL, as `url::Url::parse`
/// decides it. The outcome depends on the characters alone.
pub uninterp spec fn url_ok(s: Seq<char>) -> bool;

/// Relies on `url::Url::parse(&str) -> Result<Url, ParseError>`: the
/// result depends only on the input string, so `Ok`-ness names a fixed
/// predicate of the characters.
#[verifier::external_body]
fn parse_url_ok(s: &str) -> (r: bool)
    ensures
        r == url_ok(s@),
{
    url::Url::parse(s).is_ok()
}

/// The live driver's settings, as read from its configuration file.
pub struct SaifutakuConfig {
    pub depth_url: String,
    pub trade_url: String,
    pub snapshot_url: String,
    pub channel_size: usize,
    pub fetch_interval: u64,
}

/// A fatal startup error: the configuration failed validation.
pub struct ConfigValidationError {
    message: String,
}

impl ConfigValidationError {
    pub fn new(message: &str) -> (r: Self)
        ensures
            r.spec_message() == message@,
    {
        ConfigValidationError { message: message.to_owned() }
    }

    pub closed spec fn spec_message(&self) -> Seq<char> {
        self.message@
    }

    pub fn message(&self) -> (r: &String)
        ensures
            r@ == self.spec_message(),
    {
        &self.message
    }
}

/// The conditions under which a configuration is accepted.
pub open spec fn config_valid(c: &SaifutakuConfig) -> bool {
    &&& url_ok(c.snapshot_url@)
    &&& url_ok(c.depth_url@)
    &&& url_ok(c.trade_url@)
    &&& c.channel_size > 0
    &&& c.fetch_interval > 0
}

impl SaifutakuConfig {
    /// Accepts the configuration exactly when all three URLs parse and
    /// both numeric settings are positive; the error names the first
    /// check that failed.
    pub fn validate(&self) -> (r: Result<(), ConfigValidationError>)
        ensures
            r is Ok <==> config_valid(self),
            (match r {
                Ok(()) => true,
                Err(e) => e.spec_message() == (if !url_ok(self.snapshot_url@) {
                    "Invalid HTTP URL"@
                } else if !url_ok(self.depth_url@) {
                    "Invalid WebSocket URL"@
                } else if !url_ok(self.trade_url@) {
                    "Invalid WebSocket URL"@
                } else if self.channel_size == 0 {
                    "Channel size must be greater than 0"@
                } else {
                    "Fetch interval must be greater than 0"@
                }),
            }),
    {
        if !parse_url_ok(self.snapshot_url.as_str()) {
            return Err(ConfigValidationError::new("Invalid HTTP URL"));
        }
        if !parse_url_ok(self.depth_url.as_str()) {
            return Err(ConfigValidationError::new("Invalid WebSocket URL"));
        }
        if !parse_url_ok(self.trade_url.as_str()) {
            return Err(ConfigValidationError::new("Invalid WebSocket URL"));
        }
        if self.channel_size == 0 {
            return Err(ConfigValidationError::new("Channel size must be greater than 0"));
        }
        if self.fetch_interval == 0 {
            return Err(ConfigValidationError::new("Fetch interval must be greater than 0"));
        }
        Ok(())
    }
}

} // verus!
