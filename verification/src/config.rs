//! Server configuration: raw environment values parsed with explicit
//! defaults.
//!
//! Reading the process environment is the caller's business; this module
//! turns whatever was read — present or absent, well-formed or not — into a
//! configuration, exactly as documented: a missing value falls back to its
//! default, and a present but unparsable number falls back to its own
//! default.

use vstd::prelude::*;

verus! {

/// What the HTTP server needs to start.
#[derive(Debug, Clone)]
pub struct ServerConfig {
    /// The host address the server will bind to.
    pub host: String,
    /// The port number the server will listen on.
    pub port: u16,
    /// The number of requests allowed per second.
    pub rate_limit_requests_per_second: u64,
    /// Origin of the Wizard web application.
    pub wizard_origin: String,
}

/// The numeric value of a decimal digit string, most significant first.
pub open spec fn dec_value(s: Seq<char>) -> int
    decreases s.len(),
{
    if s.len() == 0 {
        0
    } else {
        dec_value(s.drop_last()) * 10 + (s.last() as int - '0' as int)
    }
}

/// A nonempty string of decimal digits.
pub open spec fn is_dec_digits(s: Seq<char>) -> bool {
    s.len() > 0 && forall|i: int| 0 <= i < s.len() ==> '0' <= #[trigger] s[i] <= '9'
}

/// What parsing an unsigned 64-bit decimal accepts: an optional leading
/// `+`, then digits only, with a value that fits.
pub open spec fn parse_u64_spec(s: Seq<char>) -> Option<u64> {
    let t = if s.len() > 0 && s[0] == '+' {
        s.skip(1)
    } else {
        s
    };
    if is_dec_digits(t) && dec_value(t) <= u64::MAX {
        Some(dec_value(t) as u64)
    } else {
        None
    }
}

/// What parsing an unsigned 16-bit decimal accepts.
pub open spec fn parse_u16_spec(s: Seq<char>) -> Option<u16> {
    match parse_u64_spec(s) {
        Some(v) => if v <= u16::MAX {
            Some(v as u16)
        } else {
            None
        },
        None => None,
    }
}

/// The value of a digit string never shrinks as digits are appended.
proof fn lemma_dec_value_monotone(s: Seq<char>, i: int, j: int)
    requires
        0 <= i <= j <= s.len(),
        forall|k: int| 0 <= k < s.len() ==> '0' <= #[trigger] s[k] <= '9',
    ensures
        dec_value(s.take(i)) <= dec_value(s.take(j)),
        dec_value(s.take(i)) >= 0,
    decreases j - i,
{
    if i == j {
        lemma_dec_value_nonneg(s, i);
    } else {
        lemma_dec_value_nonneg(s, i);
        lemma_dec_value_monotone(s, i + 1, j);
        assert(s.take(i + 1).drop_last() =~= s.take(i));
        assert(s.take(i + 1).last() == s[i]);
    }
}

/// The value of a digit string is never negative.
proof fn lemma_dec_value_nonneg(s: Seq<char>, i: int)
    requires
        0 <= i <= s.len(),
        forall|k: int| 0 <= k < s.len() ==> '0' <= #[trigger] s[k] <= '9',
    ensures
        dec_value(s.take(i)) >= 0,
    decreases i,
{
    if i > 0 {
        lemma_dec_value_nonneg(s, i - 1);
        assert(s.take(i).drop_last() =~= s.take(i - 1));
        assert(s.take(i).last() == s[i - 1]);
    }
}

/// Parses an unsigned 64-bit decimal exactly as std does: an optional
/// leading `+`, then at least one digit, rejecting anything else and any
/// value that does not fit.
pub fn parse_u64(s: &str) -> (r: Option<u64>)
    ensures
        r == parse_u64_spec(s@),
{
    let chars = crate::paths::str_chars(s);
    let start: usize = if chars.len() > 0 && chars[0] == '+' {
        1
    } else {
        0
    };
    let ghost t = if s@.len() > 0 && s@[0] == '+' {
        s@.skip(1)
    } else {
        s@
    };
    proof {
        assert(t =~= s@.subrange(start as int, s@.len() as int));
    }
    let n = chars.len();
    if start == n {
        return None;
    }
    let mut acc: u64 = 0;
    let mut i: usize = start;
    while i < n
        invariant
            chars@ == s@,
            n == s@.len(),
            start <= i <= n,
            t == s@.subrange(start as int, s@.len() as int),
            t == (if s@.len() > 0 && s@[0] == '+' {
                s@.skip(1)
            } else {
                s@
            }),
            forall|k: int| 0 <= k < i - start ==> '0' <= #[trigger] t[k] <= '9',
            acc == dec_value(t.take(i - start)),
        decreases n - i,
    {
        let c = chars[i];
        if !(c >= '0' && c <= '9') {
            proof {
                assert(t[i - start] == c);
                assert(!is_dec_digits(t));
            }
            return None;
        }
        let d: u64 = (c as u32 as u64) - 48;
        proof {
            assert(t.take(i - start + 1).drop_last() =~= t.take(i - start));
            assert(t.take(i - start + 1).last() == t[i - start]);
            assert(t[i - start] == c);
        }
        let acc10 = match acc.checked_mul(10) {
            Some(v) => v,
            None => {
                proof {
                    lemma_overflow_stays(t, i - start + 1, c, acc);
                }
                return None;
            },
        };
        acc = match acc10.checked_add(d) {
            Some(v) => v,
            None => {
                proof {
                    lemma_overflow_stays(t, i - start + 1, c, acc);
                }
                return None;
            },
        };
        i = i + 1;
    }
    proof {
        assert(t.take(n - start) =~= t);
        assert(is_dec_digits(t));
    }
    Some(acc)
}

/// Once the running value has outgrown the 64-bit range at some prefix, the
/// whole string parses to nothing: either a later character is no digit, or
/// the full value is larger still.
proof fn lemma_overflow_stays(t: Seq<char>, j: int, c: char, acc: u64)
    requires
        0 < j <= t.len(),
        forall|k: int| 0 <= k < j ==> '0' <= #[trigger] t[k] <= '9',
        t[j - 1] == c,
        '0' <= c <= '9',
        acc == dec_value(t.take(j - 1)),
        acc * 10 + (c as int - '0' as int) > u64::MAX,
    ensures
        is_dec_digits(t) ==> dec_value(t) > u64::MAX,
{
    if is_dec_digits(t) {
        assert(t.take(j).drop_last() =~= t.take(j - 1));
        assert(t.take(j).last() == t[j - 1]);
        assert(dec_value(t.take(j)) == acc * 10 + (c as int - '0' as int));
        lemma_dec_value_monotone(t, j, t.len() as int);
        assert(t.take(t.len() as int) =~= t);
        assert(dec_value(t) > u64::MAX);
    }
}

/// Parses an unsigned 16-bit decimal exactly as std does.
pub fn parse_u16(s: &str) -> (r: Option<u16>)
    ensures
        r == parse_u16_spec(s@),
{
    match parse_u64(s) {
        Some(v) => if v <= 65535 {
            Some(v as u16)
        } else {
            None
        },
        None => None,
    }
}

impl ServerConfig {
    /// Builds the configuration from raw environment values, with the
    /// documented defaults: host `0.0.0.0`; port from `APP_PORT`, `8888`
    /// when unset, `8080` when unparsable; rate limit `100` when unset or
    /// unparsable; wizard origin `http://localhost:8080` when unset.
    pub fn from_raw_environment(
        host: Option<String>,
        port: Option<String>,
        rate_limit: Option<String>,
        wizard_origin: Option<String>,
    ) -> (r: ServerConfig)
        ensures
            r.host@ == (match host {
                Some(h) => h@,
                None => "0.0.0.0"@,
            }),
            r.port == (match port {
                Some(p) => (match parse_u16_spec(p@) {
                    Some(v) => v,
                    None => 8080u16,
                }),
                None => 8888u16,
            }),
            r.rate_limit_requests_per_second == (match rate_limit {
                Some(q) => (match parse_u64_spec(q@) {
                    Some(v) => v,
                    None => 100u64,
                }),
                None => 100u64,
            }),
            r.wizard_origin@ == (match wizard_origin {
                Some(w) => w@,
                None => "http://localhost:8080"@,
            }),
    {
        let host_value = match host {
            Some(h) => h,
            None => "0.0.0.0".to_owned(),
        };
        let port_value: u16 = match port {
            Some(p) => match parse_u16(p.as_str()) {
                Some(v) => v,
                None => 8080,
            },
            None => 8888,
        };
        let rate_value: u64 = match rate_limit {
            Some(q) => match parse_u64(q.as_str()) {
                Some(v) => v,
                None => 100,
            },
            None => 100,
        };
        let origin_value = match wizard_origin {
            Some(w) => w,
            None => "http://localhost:8080".to_owned(),
        };
        ServerConfig {
            host: host_value,
            port: port_value,
            rate_limit_requests_per_second: rate_value,
            wizard_origin: origin_value,
        }
    }
}

} // verus!
