//! The versioned event schema: every durable record is one `LogEntry`.
//!
//! The entry carries an envelope (schema version, timestamp, date, session
//! and correlation identifiers) and a tagged event. Identifiers are carried
//! as strings; a request identifier is a canonically serialized 128-bit
//! universally-unique identifier.

use vstd::prelude::*;
use crate::json::{Json, JsonV, pair_models_of, wf_json};

verus! {

/// The version stamped into every durable record.
pub const SCHEMA_VERSION: u32 = 1;

/// Server log event: a leveled message.
pub struct McpLogEvent {
    pub level: String,
    pub message: String,
}

/// Diagnostic event from the proxy's own tracing.
pub struct ProxyDebugEvent {
    pub level: String,
    pub message: String,
    pub module: Option<String>,
    pub target: Option<String>,
    pub file: Option<String>,
    pub line: Option<u32>,
}

/// Hook event: a tool-lifecycle notification with free-form extras.
pub struct HookLogEvent {
    pub event_type: String,
    pub tool_name: Option<String>,
    pub tool_input: Option<Json>,
    pub transcript_path: Option<String>,
    pub cwd: Option<String>,
    /// Extra payload fields; serialized as siblings of `event_type`.
    pub extra: Vec<(String, Json)>,
}

/// Parsed URL components kept for replay.
pub struct UrlComponents {
    pub scheme: String,
    pub host: String,
    pub port: Option<u16>,
    pub path: String,
    pub query_params: Vec<(String, String)>,
}

/// Captured body with its capture metadata.
pub struct BodyData {
    pub original_encoding: Option<String>,
    pub content_type: Option<String>,
    pub size_bytes: u64,
    pub stored_size_bytes: u64,
    pub truncated: bool,
    pub content: BodyContent,
}

/// The captured body content itself.
pub enum BodyContent {
    Text { data: String },
    Binary { data: String },
    Truncated { preview: String, reason: String },
    DecompressionFailed { error: String },
    Empty,
}

/// Intercepted request event.
pub struct ProxyRequestEvent {
    pub id: String,
    pub method: String,
    pub uri: String,
    pub headers: Vec<(String, String)>,
    pub body: BodyData,
    pub tls_handshake_ms: Option<u64>,
    pub url_components: Option<UrlComponents>,
    pub curl_command: Option<String>,
    pub endpoint_pattern: Option<String>,
    pub api_version: Option<String>,
}

/// Intercepted response event, correlated to its request by `request_id`.
pub struct ProxyResponseEvent {
    pub request_id: String,
    pub status: u16,
    pub headers: Vec<(String, String)>,
    pub body: BodyData,
    pub duration_ms: u64,
}

/// The closed sum of event kinds.
pub enum LogEvent {
    Mcp(McpLogEvent),
    Hook(HookLogEvent),
    ProxyRequest(ProxyRequestEvent),
    ProxyResponse(ProxyResponseEvent),
    ProxyDebug(ProxyDebugEvent),
}

/// One durable record.
pub struct LogEntry {
    pub schema_version: u32,
    pub timestamp: String,
    pub date: String,
    pub session_id: String,
    pub correlation_id: String,
    pub event: LogEvent,
}

// ---------------------------------------------------------------------------
// Mathematical models
// ---------------------------------------------------------------------------

/// Model of an optional string.
pub open spec fn opt_str_model(v: Option<String>) -> Option<Seq<char>> {
    match v {
        Some(s) => Some(s@),
        None => None,
    }
}

/// Model of a string-to-string association list.
pub open spec fn str_pairs_model(v: Seq<(String, String)>) -> Seq<(Seq<char>, Seq<char>)> {
    Seq::new(v.len(), |k: int| (v[k].0@, v[k].1@))
}

/// Model of [`UrlComponents`].
pub struct UrlV {
    pub scheme: Seq<char>,
    pub host: Seq<char>,
    pub port: Option<u16>,
    pub path: Seq<char>,
    pub query_params: Seq<(Seq<char>, Seq<char>)>,
}

/// Model of [`BodyContent`].
pub enum BodyContentV {
    Text { data: Seq<char> },
    Binary { data: Seq<char> },
    Truncated { preview: Seq<char>, reason: Seq<char> },
    DecompressionFailed { error: Seq<char> },
    Empty,
}

/// Model of [`BodyData`].
pub struct BodyV {
    pub original_encoding: Option<Seq<char>>,
    pub content_type: Option<Seq<char>>,
    pub size_bytes: u64,
    pub stored_size_bytes: u64,
    pub truncated: bool,
    pub content: BodyContentV,
}

/// Model of [`LogEvent`].
pub enum EventV {
    Mcp { level: Seq<char>, message: Seq<char> },
    Hook {
        event_type: Seq<char>,
        tool_name: Option<Seq<char>>,
        tool_input: Option<JsonV>,
        transcript_path: Option<Seq<char>>,
        cwd: Option<Seq<char>>,
        extra: Seq<(Seq<char>, JsonV)>,
    },
    ProxyRequest {
        id: Seq<char>,
        method: Seq<char>,
        uri: Seq<char>,
        headers: Seq<(Seq<char>, Seq<char>)>,
        body: BodyV,
        tls_handshake_ms: Option<u64>,
        url_components: Option<UrlV>,
        curl_command: Option<Seq<char>>,
        endpoint_pattern: Option<Seq<char>>,
        api_version: Option<Seq<char>>,
    },
    ProxyResponse {
        request_id: Seq<char>,
        status: u16,
        headers: Seq<(Seq<char>, Seq<char>)>,
        body: BodyV,
        duration_ms: u64,
    },
    ProxyDebug {
        level: Seq<char>,
        message: Seq<char>,
        module: Option<Seq<char>>,
        target: Option<Seq<char>>,
        file: Option<Seq<char>>,
        line: Option<u32>,
    },
}

/// Model of [`LogEntry`].
pub struct EntryV {
    pub schema_version: u32,
    pub timestamp: Seq<char>,
    pub date: Seq<char>,
    pub session_id: Seq<char>,
    pub correlation_id: Seq<char>,
    pub event: EventV,
}

impl UrlComponents {
    pub open spec fn model(&self) -> UrlV {
        UrlV {
            scheme: self.scheme@,
            host: self.host@,
            port: self.port,
            path: self.path@,
            query_params: str_pairs_model(self.query_params@),
        }
    }
}

impl BodyContent {
    pub open spec fn model(&self) -> BodyContentV {
        match self {
            BodyContent::Text { data } => BodyContentV::Text { data: data@ },
            BodyContent::Binary { data } => BodyContentV::Binary { data: data@ },
            BodyContent::Truncated { preview, reason } => BodyContentV::Truncated {
                preview: preview@,
                reason: reason@,
            },
            BodyContent::DecompressionFailed { error } => BodyContentV::DecompressionFailed {
                error: error@,
            },
            BodyContent::Empty => BodyContentV::Empty,
        }
    }
}

impl BodyData {
    pub open spec fn model(&self) -> BodyV {
        BodyV {
            original_encoding: opt_str_model(self.original_encoding),
            content_type: opt_str_model(self.content_type),
            size_bytes: self.size_bytes,
            stored_size_bytes: self.stored_size_bytes,
            truncated: self.truncated,
            content: self.content.model(),
        }
    }
}

impl LogEvent {
    pub open spec fn model(&self) -> EventV {
        match self {
            LogEvent::Mcp(m) => EventV::Mcp { level: m.level@, message: m.message@ },
            LogEvent::Hook(h) => EventV::Hook {
                event_type: h.event_type@,
                tool_name: opt_str_model(h.tool_name),
                tool_input: match &h.tool_input {
                    Some(j) => Some(j.model()),
                    None => None,
                },
                transcript_path: opt_str_model(h.transcript_path),
                cwd: opt_str_model(h.cwd),
                extra: pair_models_of(h.extra@),
            },
            LogEvent::ProxyRequest(r) => EventV::ProxyRequest {
                id: r.id@,
                method: r.method@,
                uri: r.uri@,
                headers: str_pairs_model(r.headers@),
                body: r.body.model(),
                tls_handshake_ms: r.tls_handshake_ms,
                url_components: match &r.url_components {
                    Some(u) => Some(u.model()),
                    None => None,
                },
                curl_command: opt_str_model(r.curl_command),
                endpoint_pattern: opt_str_model(r.endpoint_pattern),
                api_version: opt_str_model(r.api_version),
            },
            LogEvent::ProxyResponse(r) => EventV::ProxyResponse {
                request_id: r.request_id@,
                status: r.status,
                headers: str_pairs_model(r.headers@),
                body: r.body.model(),
                duration_ms: r.duration_ms,
            },
            LogEvent::ProxyDebug(d) => EventV::ProxyDebug {
                level: d.level@,
                message: d.message@,
                module: opt_str_model(d.module),
                target: opt_str_model(d.target),
                file: opt_str_model(d.file),
                line: d.line,
            },
        }
    }
}

impl LogEntry {
    pub open spec fn model(&self) -> EntryV {
        EntryV {
            schema_version: self.schema_version,
            timestamp: self.timestamp@,
            date: self.date@,
            session_id: self.session_id@,
            correlation_id: self.correlation_id@,
            event: self.event.model(),
        }
    }
}

// ---------------------------------------------------------------------------
// Well-formedness
// ---------------------------------------------------------------------------

/// Field names that the hook serialization reserves for itself: an extra
/// field under one of these names could not be told apart when read back.
pub open spec fn hook_reserved_name(name: Seq<char>) -> bool {
    ||| name == "type"@
    ||| name == "event_type"@
    ||| name == "tool_name"@
    ||| name == "tool_input"@
    ||| name == "transcript_path"@
    ||| name == "cwd"@
}

/// Well-formed event: every count fits the signed 64-bit JSON integer
/// carrier, and hook extras stay clear of the reserved field names.
pub open spec fn wf_event(ev: EventV) -> bool {
    match ev {
        EventV::Mcp { .. } => true,
        EventV::Hook { tool_input, extra, .. } => {
            &&& match tool_input {
                Some(j) => wf_json(j) && !(j is Null),
                None => true,
            }
            &&& forall|k: int|
                0 <= k < extra.len() ==> wf_json(#[trigger] extra[k].1) && !hook_reserved_name(
                    extra[k].0,
                )
        },
        EventV::ProxyRequest { body, tls_handshake_ms, .. } => {
            &&& body.size_bytes <= i64::MAX
            &&& body.stored_size_bytes <= i64::MAX
            &&& match tls_handshake_ms {
                Some(t) => t <= i64::MAX,
                None => true,
            }
        },
        EventV::ProxyResponse { body, duration_ms, .. } => {
            &&& body.size_bytes <= i64::MAX
            &&& body.stored_size_bytes <= i64::MAX
            &&& duration_ms <= i64::MAX
        },
        EventV::ProxyDebug { .. } => true,
    }
}

/// Well-formed entry.
pub open spec fn wf_entry(ev: EntryV) -> bool {
    wf_event(ev.event)
}

// ---------------------------------------------------------------------------
// Construction
// ---------------------------------------------------------------------------

/// Relies on uuid's `Uuid::new_v4` and its canonical `Display` form: a fresh
/// random identifier, 36 characters in hyphenated form. The value depends on
/// fresh randomness, so nothing more is promised of it.
#[verifier::external_body]
pub fn fresh_uuid_string() -> (r: String)
    ensures
        r@.len() == 36,
{
    uuid::Uuid::new_v4().to_string()
}

/// Whether a date string is exactly `YYYY-MM-DD`: ten characters, dashes
/// at the fifth and eighth place, decimal digits everywhere else.
pub open spec fn valid_date_shape(d: Seq<char>) -> bool {
    &&& d.len() == 10
    &&& d[4] == '-'
    &&& d[7] == '-'
    &&& forall|q: int|
        0 <= q < 10 && q != 4 && q != 7 ==> '0' <= #[trigger] d[q] <= '9'
}

/// Relies on chrono's `Utc::now` and `format`: the wall-clock instant as an
/// ISO-8601 UTC timestamp with microsecond precision, and the calendar date
/// it falls on. Both render the same instant, so the date is a prefix of
/// the timestamp and carries the `YYYY-MM-DD` shape. Nothing more is
/// promised of a clock reading.
#[verifier::external_body]
pub fn now_timestamp_and_date() -> (r: (String, String))
    ensures
        r.1@.len() <= r.0@.len(),
        r.1@ == r.0@.subrange(0, r.1@.len() as int),
        valid_date_shape(r.1@),
{
    let now = chrono::Utc::now();
    let ts = now.format("%Y-%m-%dT%H:%M:%S%.6fZ").to_string();
    let date = now.format("%Y-%m-%d").to_string();
    (ts, date)
}

impl LogEntry {
    /// A fresh server log entry, stamped with the current instant and a
    /// fresh correlation identifier.
    pub fn new_mcp(session_id: String, level: String, message: String) -> (r: LogEntry)
        ensures
            r.schema_version == SCHEMA_VERSION,
            r.session_id@ == session_id@,
            r.event.model() == (EventV::Mcp { level: level@, message: message@ }),
            wf_entry(r.model()),
            r.date@.len() <= r.timestamp@.len(),
            r.date@ == r.timestamp@.subrange(0, r.date@.len() as int),
            valid_date_shape(r.date@),
    {
        let (timestamp, date) = now_timestamp_and_date();
        LogEntry {
            schema_version: SCHEMA_VERSION,
            timestamp,
            date,
            session_id,
            correlation_id: fresh_uuid_string(),
            event: LogEvent::Mcp(McpLogEvent { level, message }),
        }
    }

    /// A fresh hook entry from the fields of a hook payload.
    pub fn new_hook(
        session_id: String,
        event_type: String,
        tool_name: Option<String>,
        tool_input: Option<Json>,
        transcript_path: Option<String>,
        cwd: Option<String>,
        extra: Vec<(String, Json)>,
    ) -> (r: LogEntry)
        ensures
            r.schema_version == SCHEMA_VERSION,
            r.session_id@ == session_id@,
            r.event.model() == (EventV::Hook {
                event_type: event_type@,
                tool_name: opt_str_model(tool_name),
                tool_input: match tool_input {
                    Some(j) => Some(j.model()),
                    None => None,
                },
                transcript_path: opt_str_model(transcript_path),
                cwd: opt_str_model(cwd),
                extra: pair_models_of(extra@),
            }),
            r.date@.len() <= r.timestamp@.len(),
            r.date@ == r.timestamp@.subrange(0, r.date@.len() as int),
            valid_date_shape(r.date@),
    {
        let (timestamp, date) = now_timestamp_and_date();
        LogEntry {
            schema_version: SCHEMA_VERSION,
            timestamp,
            date,
            session_id,
            correlation_id: fresh_uuid_string(),
            event: LogEvent::Hook(
                HookLogEvent {
                    event_type,
                    tool_name,
                    tool_input,
                    transcript_path,
                    cwd,
                    extra,
                },
            ),
        }
    }

    /// A fresh intercepted-request entry.
    pub fn new_proxy_request(
        session_id: String,
        correlation_id: String,
        request_id: String,
        method: String,
        uri: String,
        headers: Vec<(String, String)>,
        body: BodyData,
        tls_handshake_ms: Option<u64>,
        url_components: Option<UrlComponents>,
        curl_command: Option<String>,
        endpoint_pattern: Option<String>,
        api_version: Option<String>,
    ) -> (r: LogEntry)
        requires
            body.size_bytes <= i64::MAX,
            body.stored_size_bytes <= i64::MAX,
            tls_handshake_ms matches Some(t) ==> t <= i64::MAX,
        ensures
            r.schema_version == SCHEMA_VERSION,
            r.session_id@ == session_id@,
            r.correlation_id@ == correlation_id@,
            r.event.model() == (EventV::ProxyRequest {
                id: request_id@,
                method: method@,
                uri: uri@,
                headers: str_pairs_model(headers@),
                body: body.model(),
                tls_handshake_ms: tls_handshake_ms,
                url_components: match url_components {
                    Some(u) => Some(u.model()),
                    None => None,
                },
                curl_command: opt_str_model(curl_command),
                endpoint_pattern: opt_str_model(endpoint_pattern),
                api_version: opt_str_model(api_version),
            }),
            wf_entry(r.model()),
            r.date@.len() <= r.timestamp@.len(),
            r.date@ == r.timestamp@.subrange(0, r.date@.len() as int),
            valid_date_shape(r.date@),
    {
        let (timestamp, date) = now_timestamp_and_date();
        LogEntry {
            schema_version: SCHEMA_VERSION,
            timestamp,
            date,
            session_id,
            correlation_id,
            event: LogEvent::ProxyRequest(
                ProxyRequestEvent {
                    id: request_id,
                    method,
                    uri,
                    headers,
                    body,
                    tls_handshake_ms,
                    url_components,
                    curl_command,
                    endpoint_pattern,
                    api_version,
                },
            ),
        }
    }

    /// A fresh intercepted-response entry, correlated to its request.
    pub fn new_proxy_response(
        session_id: String,
        correlation_id: String,
        request_id: String,
        status: u16,
        headers: Vec<(String, String)>,
        body: BodyData,
        duration_ms: u64,
    ) -> (r: LogEntry)
        requires
            body.size_bytes <= i64::MAX,
            body.stored_size_bytes <= i64::MAX,
            duration_ms <= i64::MAX,
        ensures
            r.schema_version == SCHEMA_VERSION,
            r.session_id@ == session_id@,
            r.correlation_id@ == correlation_id@,
            r.event.model() == (EventV::ProxyResponse {
                request_id: request_id@,
                status: status,
                headers: str_pairs_model(headers@),
                body: body.model(),
                duration_ms: duration_ms,
            }),
            wf_entry(r.model()),
            r.date@.len() <= r.timestamp@.len(),
            r.date@ == r.timestamp@.subrange(0, r.date@.len() as int),
            valid_date_shape(r.date@),
    {
        let (timestamp, date) = now_timestamp_and_date();
        LogEntry {
            schema_version: SCHEMA_VERSION,
            timestamp,
            date,
            session_id,
            correlation_id,
            event: LogEvent::ProxyResponse(
                ProxyResponseEvent { request_id, status, headers, body, duration_ms },
            ),
        }
    }

    /// A fresh diagnostic entry from the proxy's own tracing.
    pub fn new_proxy_debug(
        session_id: String,
        level: String,
        message: String,
        module: Option<String>,
        target: Option<String>,
        file: Option<String>,
        line: Option<u32>,
    ) -> (r: LogEntry)
        ensures
            r.schema_version == SCHEMA_VERSION,
            r.session_id@ == session_id@,
            r.event.model() == (EventV::ProxyDebug {
                level: level@,
                message: message@,
                module: opt_str_model(module),
                target: opt_str_model(target),
                file: opt_str_model(file),
                line: line,
            }),
            wf_entry(r.model()),
            r.date@.len() <= r.timestamp@.len(),
            r.date@ == r.timestamp@.subrange(0, r.date@.len() as int),
            valid_date_shape(r.date@),
    {
        let (timestamp, date) = now_timestamp_and_date();
        LogEntry {
            schema_version: SCHEMA_VERSION,
            timestamp,
            date,
            session_id,
            correlation_id: fresh_uuid_string(),
            event: LogEvent::ProxyDebug(
                ProxyDebugEvent { level, message, module, target, file, line },
            ),
        }
    }
}

} // verus!
