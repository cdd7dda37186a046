//! Server configuration from the values of its settings.

use vstd::prelude::*;
use crate::text::chars_of;
use vstd::string::StringExecFns;

verus! {

/// The port served on when none, or no valid one, is set.
pub const DEFAULT_PORT: u16 = 8000;

/// The server's configuration.
#[derive(Clone, Debug)]
pub struct Config {
    pub gemini_api_key: String,
    pub server_port: u16,
}

/// Why no configuration could be made.
#[derive(Clone, Copy, PartialEq, Eq, Debug)]
pub enum ConfigError {
    /// The API key setting is not there.
    MissingApiKey,
}

/// What is reported for a configuration error.
pub open spec fn config_error_text(e: ConfigError) -> Seq<char> {
    match e {
        ConfigError::MissingApiKey => "GEMINI_API_KEY no encontrada"@,
    }
}

/// The missing-key error is reported as the documentation names it, and
/// the default port is 8000.
pub proof fn law_config_texts()
    ensures
        config_error_text(ConfigError::MissingApiKey) == "GEMINI_API_KEY no encontrada"@,
        DEFAULT_PORT == 8000,
{
}

impl ConfigError {
    /// The message reported for this error.
    pub fn message(&self) -> (r: String)
        ensures
            r@ == config_error_text(*self),
    {
        match self {
            ConfigError::MissingApiKey => String::from_str("GEMINI_API_KEY no encontrada"),
        }
    }
}

pub open spec fn is_ascii_digit(c: char) -> bool {
    '0' <= c && c <= '9'
}

pub open spec fn digit_value(c: char) -> nat {
    ((c as u32) - ('0' as u32)) as nat
}

/// The number that the decimal digits `ds` write.
pub open spec fn decimal_value(ds: Seq<char>) -> nat
    decreases ds.len(),
{
    if ds.len() == 0 {
        0
    } else {
        decimal_value(ds.drop_last()) * 10 + digit_value(ds.last())
    }
}

pub open spec fn all_digits(ds: Seq<char>) -> bool {
    forall|i: int| 0 <= i < ds.len() ==> is_ascii_digit(#[trigger] ds[i])
}

/// What `str::parse::<u16>` gives for `s`: an optional `+`, then one or
/// more ASCII digits whose value fits in 16 bits; anything else fails.
pub open spec fn parse_u16(s: Seq<char>) -> Option<u16> {
    let ds = if s.len() > 0 && s[0] == '+' {
        s.drop_first()
    } else {
        s
    };
    if ds.len() > 0 && all_digits(ds) && decimal_value(ds) <= u16::MAX {
        Some(decimal_value(ds) as u16)
    } else {
        None
    }
}

/// The port for the port setting `setting`: its value if it parses, else
/// the default.
pub open spec fn port_for(setting: Option<Seq<char>>) -> u16 {
    match setting {
        Some(s) => match parse_u16(s) {
            Some(p) => p,
            None => DEFAULT_PORT,
        },
        None => DEFAULT_PORT,
    }
}

/// Decimal digits are read most significant first: one more digit at the
/// end multiplies the value so far by ten and adds the digit.
pub proof fn law_decimal_value_push(ds: Seq<char>, d: char)
    ensures
        decimal_value(Seq::<char>::empty()) == 0,
        decimal_value(ds.push(d)) == decimal_value(ds) * 10 + digit_value(d),
{
    assert(ds.push(d).drop_last() =~= ds);
}

/// A port setting of plain decimal digits, with or without a leading `+`,
/// is its value when that fits in 16 bits and refused otherwise; a setting
/// that is not there gives the default port.
pub proof fn law_port_digits(ds: Seq<char>)
    requires
        ds.len() > 0,
        all_digits(ds),
    ensures
        decimal_value(ds) <= u16::MAX ==> parse_u16(ds) == Some(decimal_value(ds) as u16),
        decimal_value(ds) <= u16::MAX ==> parse_u16(seq!['+'] + ds) == Some(decimal_value(ds) as u16),
        decimal_value(ds) > u16::MAX ==> parse_u16(ds) is None && parse_u16(seq!['+'] + ds) is None,
        port_for(None) == 8000,
{
    assert((seq!['+'] + ds).drop_first() =~= ds);
    assert(ds[0] != '+');
}

proof fn lemma_decimal_value_prefix(ds: Seq<char>, k: int)
    requires
        all_digits(ds),
        0 <= k <= ds.len(),
    ensures
        decimal_value(ds.take(k)) <= decimal_value(ds),
    decreases ds.len(),
{
    if k < ds.len() {
        assert(all_digits(ds.drop_last()));
        assert(ds.drop_last().take(k) =~= ds.take(k));
        lemma_decimal_value_prefix(ds.drop_last(), k);
    } else {
        assert(ds.take(k) =~= ds);
    }
}

/// `s` read as a port number, as `str::parse::<u16>` reads it.
pub fn parse_port(s: &str) -> (r: Option<u16>)
    ensures
        r == parse_u16(s@),
{
    let cs = chars_of(s);
    let n = cs.len();
    let start: usize = if n > 0 && cs[0] == '+' {
        1
    } else {
        0
    };
    let ghost ds = if s@.len() > 0 && s@[0] == '+' {
        s@.drop_first()
    } else {
        s@
    };
    assert(ds =~= cs@.skip(start as int));
    if start == n {
        return None;
    }
    let mut v: u32 = 0;
    let mut i: usize = start;
    assert(ds.take(0) =~= Seq::<char>::empty());
    while i < n
        invariant
            start <= i <= n == cs.len(),
            ds == cs@.skip(start as int),
            ds == (if s@.len() > 0 && s@[0] == '+' {
                s@.drop_first()
            } else {
                s@
            }),
            v == decimal_value(ds.take(i - start)),
            v <= u16::MAX,
            all_digits(ds.take(i - start)),
        decreases n - i,
    {
        let c = cs[i];
        assert(ds[i - start] == c);
        if !('0' <= c && c <= '9') {
            assert(!all_digits(ds));
            return None;
        }
        let d: u32 = (c as u32) - ('0' as u32);
        let nv: u32 = v * 10 + d;
        assert(ds.take(i - start + 1).drop_last() =~= ds.take(i - start));
        assert(all_digits(ds.take(i - start + 1)));
        assert(ds.take(i - start + 1).last() == c);
        assert(nv == decimal_value(ds.take(i - start + 1)));
        if nv > 65535 {
            proof {
                if all_digits(ds) {
                    lemma_decimal_value_prefix(ds, i - start + 1);
                }
            }
            return None;
        }
        v = nv;
        i = i + 1;
    }
    assert(ds.take(n - start) =~= ds);
    Some(v as u16)
}

impl Config {
    /// The configuration for the values of the API key and port settings,
    /// `None` where a setting is not there. The key is required; the port
    /// falls back to the default when it is not there or does not parse.
    pub fn from_settings(gemini_api_key: Option<String>, port: Option<String>) -> (r: Result<
        Config,
        ConfigError,
    >)
        ensures
            gemini_api_key is None ==> r == Err::<Config, ConfigError>(ConfigError::MissingApiKey),
            gemini_api_key matches Some(k) ==> (r matches Ok(c) && c.gemini_api_key@ == k@
                && c.server_port == port_for(
                match port {
                    Some(p) => Some(p@),
                    None => None,
                },
            )),
    {
        let key = match gemini_api_key {
            Some(k) => k,
            None => {
                return Err(ConfigError::MissingApiKey);
            },
        };
        let server_port = match &port {
            Some(p) => match parse_port(p.as_str()) {
                Some(v) => v,
                None => DEFAULT_PORT,
            },
            None => DEFAULT_PORT,
        };
        Ok(Config { gemini_api_key: key, server_port })
    }
}

} // verus!
