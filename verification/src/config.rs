//! Proxy configuration: defaults, and precedence over supplied overrides.
//!
//! The configuration file and environment are read at the boundary; the
//! values they supply are applied here. The listen address is carried as a
//! plain string and parsed by the listener's side of the boundary.

use vstd::prelude::*;
use vstd::string::StringExecFns;
use crate::json::{is_digit, digits_val, dec_digits};

verus! {

/// TLS section: where certificate material lives.
pub struct TlsConfig {
    pub cert_dir: String,
    pub generate_ca: bool,
}

/// Recording section: where and how bodies are captured.
pub struct RecordingConfig {
    pub output_dir: String,
    pub pretty_print: bool,
    pub include_bodies: bool,
    pub max_body_size: u64,
}

/// Filtering section: which hosts are intercepted.
pub struct FilteringConfig {
    pub target_hosts: Vec<String>,
    pub capture_patterns: Vec<String>,
}

/// The whole proxy configuration.
pub struct ProxyConfig {
    pub listen_addr: String,
    pub listen_port: u16,
    pub tls: TlsConfig,
    pub recording: RecordingConfig,
    pub filtering: FilteringConfig,
}

/// Default listen address.
pub fn default_listen_addr() -> (r: String)
    ensures
        r@ == "127.0.0.1"@,
{
    String::from_str("127.0.0.1")
}

/// Default listen port.
pub fn default_listen_port() -> (r: u16)
    ensures
        r == 6969,
{
    6969
}

/// Default body-capture limit: ten binary megabytes.
pub fn default_max_body_size() -> (r: u64)
    ensures
        r == 10485760,
{
    10 * 1024 * 1024
}

/// Default interception list: the assistant's API host alone.
pub fn default_target_hosts() -> (r: Vec<String>)
    ensures
        r@.len() == 1,
        r@[0]@ == "api.anthropic.com"@,
{
    let mut v: Vec<String> = Vec::new();
    v.push(String::from_str("api.anthropic.com"));
    v
}

/// Default for the boolean sections that start enabled.
pub fn default_true() -> (r: bool)
    ensures
        r == true,
{
    true
}

/// Certificate directory under a home directory.
pub fn default_cert_dir(home: &str) -> (r: String)
    ensures
        r@ == home@ + "/.local-logger/certs"@,
{
    let mut s = String::new();
    s.append(home);
    s.append("/.local-logger/certs");
    s
}

/// Logs directory under a home directory.
pub fn default_output_dir(home: &str) -> (r: String)
    ensures
        r@ == home@ + "/.local-logger"@,
{
    let mut s = String::new();
    s.append(home);
    s.append("/.local-logger");
    s
}

impl ProxyConfig {
    /// The defaults, under a home directory.
    pub fn default_under(home: &str) -> (r: ProxyConfig)
        ensures
            r.listen_addr@ == "127.0.0.1"@,
            r.listen_port == 6969,
            r.tls.cert_dir@ == home@ + "/.local-logger/certs"@,
            r.tls.generate_ca == true,
            r.recording.output_dir@ == home@ + "/.local-logger"@,
            r.recording.pretty_print == true,
            r.recording.include_bodies == true,
            r.recording.max_body_size == 10485760,
            r.filtering.target_hosts@.len() == 1,
            r.filtering.target_hosts@[0]@ == "api.anthropic.com"@,
            r.filtering.capture_patterns@.len() == 0,
    {
        ProxyConfig {
            listen_addr: default_listen_addr(),
            listen_port: default_listen_port(),
            tls: TlsConfig { cert_dir: default_cert_dir(home), generate_ca: default_true() },
            recording: RecordingConfig {
                output_dir: default_output_dir(home),
                pretty_print: default_true(),
                include_bodies: default_true(),
                max_body_size: default_max_body_size(),
            },
            filtering: FilteringConfig {
                target_hosts: default_target_hosts(),
                capture_patterns: Vec::new(),
            },
        }
    }

    /// Apply the overrides that the environment supplies, by precedence:
    /// a supplied address, port, certificate directory or output directory
    /// replaces the default; an unparseable port is ignored.
    pub fn apply_env(
        self,
        addr: Option<String>,
        port: Option<String>,
        cert_dir: Option<String>,
        output_dir: Option<String>,
    ) -> (r: ProxyConfig)
        ensures
            r.listen_addr@ == (match addr {
                Some(a) => a@,
                None => self.listen_addr@,
            }),
            r.listen_port as int == (match port {
                Some(p) => match parse_port(p@) {
                    Some(n) => n as int,
                    None => self.listen_port as int,
                },
                None => self.listen_port as int,
            }),
            r.tls.cert_dir@ == (match cert_dir {
                Some(d) => d@,
                None => self.tls.cert_dir@,
            }),
            r.recording.output_dir@ == (match output_dir {
                Some(d) => d@,
                None => self.recording.output_dir@,
            }),
            r.tls.generate_ca == self.tls.generate_ca,
            r.recording.pretty_print == self.recording.pretty_print,
            r.recording.include_bodies == self.recording.include_bodies,
            r.recording.max_body_size == self.recording.max_body_size,
            r.filtering == self.filtering,
    {
        let mut c = self;
        match addr {
            Some(a) => {
                c.listen_addr = a;
            },
            None => {},
        }
        match port {
            Some(p) => {
                match parse_port_exec(p.as_str()) {
                    Some(n) => {
                        c.listen_port = n;
                    },
                    None => {},
                }
            },
            None => {},
        }
        match cert_dir {
            Some(d) => {
                c.tls.cert_dir = d;
            },
            None => {},
        }
        match output_dir {
            Some(d) => {
                c.recording.output_dir = d;
            },
            None => {},
        }
        c
    }
}

/// The port number a string names: all decimal digits, value within the
/// unsigned 16-bit range.
pub open spec fn parse_port(s: Seq<char>) -> Option<u16> {
    let b = vstd::utf8::encode_utf8(s);
    if b.len() > 0 && (forall|q: int| 0 <= q < b.len() ==> is_digit(#[trigger] b[q])) && b.len()
        <= 5 && digits_val(b, 0, b.len() as int) <= 65535 {
        Some(digits_val(b, 0, b.len() as int) as u16)
    } else {
        None
    }
}

/// Ten to a small power.
pub open spec fn pow10(k: int) -> nat
    decreases k,
{
    if k <= 0 {
        1
    } else {
        10 * pow10(k - 1)
    }
}

/// The value of `k` digits stays below ten to the `k`.
proof fn lemma_digits_val_bound(b: Seq<u8>, i: int, j: int)
    requires
        0 <= i <= j <= b.len(),
        forall|q: int| i <= q < j ==> is_digit(#[trigger] b[q]),
    ensures
        digits_val(b, i, j) < pow10(j - i),
    decreases j - i,
{
    if i < j {
        lemma_digits_val_bound(b, i, j - 1);
    }
}

/// Parse a port override.
#[verifier::loop_isolation(false)]
pub fn parse_port_exec(s: &str) -> (r: Option<u16>)
    ensures
        r == parse_port(s@),
{
    let b = s.as_bytes();
    if b.len() == 0 || b.len() > 5 {
        return None;
    }
    let mut k: usize = 0;
    let mut acc: u32 = 0;
    while k < b.len()
        invariant
            k <= b@.len(),
            b@.len() <= 5,
            forall|q: int| 0 <= q < k ==> is_digit(#[trigger] b@[q]),
            acc as nat == digits_val(b@, 0, k as int),
            acc <= 99999,
        decreases b@.len() - k,
    {
        if b[k] < 48 || b[k] > 57 {
            return None;
        }
        proof {
            crate::json::lemma_digits_val_step(b@, 0, k as int);
            lemma_digits_val_bound(b@, 0, k as int);
            assert(pow10(0) == 1);
            assert(pow10(1) == 10);
            assert(pow10(2) == 100);
            assert(pow10(3) == 1000);
            assert(pow10(4) == 10000);
            assert(digits_val(b@, 0, k as int) < 10000);
        }
        acc = acc * 10 + (b[k] - 48) as u32;
        k = k + 1;
    }
    if acc <= 65535 {
        Some(acc as u16)
    } else {
        None
    }
}

} // verus!
