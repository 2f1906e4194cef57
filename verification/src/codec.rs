//! Stable JSON form of a log entry.
//!
//! An entry serializes to one compact JSON object with the event tag under
//! `"type"`; optional fields are omitted when absent, and the hook extras
//! are flattened beside `event_type`. Deserialization reads the same shape
//! back, treating an explicit `null` optional like an absent one.

use vstd::prelude::*;
use vstd::string::StringExecFns;
use crate::json::{
    Json, JsonV, pair_models_of, lemma_pair_models_of, models_of, lemma_models_of, wf_json,
    ser_json, parse_doc, newline_free, lemma_ser_json_newline_free, lemma_json_round_trip,
    parse_json, json_to_bytes,
};
use crate::schema::{
    LogEntry, LogEvent, McpLogEvent, HookLogEvent, ProxyRequestEvent, ProxyResponseEvent,
    ProxyDebugEvent, UrlComponents, BodyData, BodyContent, EntryV, EventV, UrlV, BodyV,
    BodyContentV, wf_entry, wf_event, hook_reserved_name, str_pairs_model, opt_str_model,
};

verus! {

// ---------------------------------------------------------------------------
// Forward mapping: entry to JSON value
// ---------------------------------------------------------------------------

/// Zero or one members for an optional string field.
pub open spec fn opt_str_field(name: Seq<char>, v: Option<Seq<char>>) -> Seq<(Seq<char>, JsonV)> {
    match v {
        Some(s) => seq![(name, JsonV::Str(s))],
        None => seq![],
    }
}

/// Zero or one members for an optional integer field.
pub open spec fn opt_int_field(name: Seq<char>, v: Option<int>) -> Seq<(Seq<char>, JsonV)> {
    match v {
        Some(n) => seq![(name, JsonV::Int(n))],
        None => seq![],
    }
}

/// Zero or one members for an optional structured field.
pub open spec fn opt_jv_field(name: Seq<char>, v: Option<JsonV>) -> Seq<(Seq<char>, JsonV)> {
    match v {
        Some(j) => seq![(name, j)],
        None => seq![],
    }
}

/// A string-to-string map as a JSON object.
pub open spec fn str_map_jv(m: Seq<(Seq<char>, Seq<char>)>) -> JsonV {
    JsonV::Obj(Seq::new(m.len(), |k: int| (m[k].0, JsonV::Str(m[k].1))))
}

/// URL components as a JSON object.
pub open spec fn url_to_jv(u: UrlV) -> JsonV {
    JsonV::Obj(
        seq![("scheme"@, JsonV::Str(u.scheme)), ("host"@, JsonV::Str(u.host))] + opt_int_field(
            "port"@,
            match u.port {
                Some(p) => Some(p as int),
                None => None,
            },
        ) + seq![("path"@, JsonV::Str(u.path)), ("query_params"@, str_map_jv(u.query_params))],
    )
}

/// Body content as a tagged JSON object.
pub open spec fn body_content_to_jv(c: BodyContentV) -> JsonV {
    match c {
        BodyContentV::Text { data } => JsonV::Obj(
            seq![("type"@, JsonV::Str("Text"@)), ("data"@, JsonV::Str(data))],
        ),
        BodyContentV::Binary { data } => JsonV::Obj(
            seq![("type"@, JsonV::Str("Binary"@)), ("data"@, JsonV::Str(data))],
        ),
        BodyContentV::Truncated { preview, reason } => JsonV::Obj(
            seq![
                ("type"@, JsonV::Str("Truncated"@)),
                ("preview"@, JsonV::Str(preview)),
                ("reason"@, JsonV::Str(reason)),
            ],
        ),
        BodyContentV::DecompressionFailed { error } => JsonV::Obj(
            seq![("type"@, JsonV::Str("DecompressionFailed"@)), ("error"@, JsonV::Str(error))],
        ),
        BodyContentV::Empty => JsonV::Obj(seq![("type"@, JsonV::Str("Empty"@))]),
    }
}

/// A captured body as a JSON object.
pub open spec fn body_to_jv(b: BodyV) -> JsonV {
    JsonV::Obj(
        opt_str_field("original_encoding"@, b.original_encoding) + opt_str_field(
            "content_type"@,
            b.content_type,
        ) + seq![
            ("size_bytes"@, JsonV::Int(b.size_bytes as int)),
            ("stored_size_bytes"@, JsonV::Int(b.stored_size_bytes as int)),
            ("truncated"@, JsonV::Bool(b.truncated)),
            ("content"@, body_content_to_jv(b.content)),
        ],
    )
}

/// An event as a tagged JSON object, the tag first.
pub open spec fn event_to_jv(ev: EventV) -> JsonV {
    match ev {
        EventV::Mcp { level, message } => JsonV::Obj(
            seq![
                ("type"@, JsonV::Str("Mcp"@)),
                ("level"@, JsonV::Str(level)),
                ("message"@, JsonV::Str(message)),
            ],
        ),
        EventV::Hook { event_type, tool_name, tool_input, transcript_path, cwd, extra } => JsonV::Obj(
            seq![("type"@, JsonV::Str("Hook"@)), ("event_type"@, JsonV::Str(event_type))]
                + opt_str_field("tool_name"@, tool_name) + opt_jv_field("tool_input"@, tool_input)
                + opt_str_field("transcript_path"@, transcript_path) + opt_str_field("cwd"@, cwd)
                + extra,
        ),
        EventV::ProxyRequest {
            id,
            method,
            uri,
            headers,
            body,
            tls_handshake_ms,
            url_components,
            curl_command,
            endpoint_pattern,
            api_version,
        } => JsonV::Obj(
            seq![
                ("type"@, JsonV::Str("ProxyRequest"@)),
                ("id"@, JsonV::Str(id)),
                ("method"@, JsonV::Str(method)),
                ("uri"@, JsonV::Str(uri)),
                ("headers"@, str_map_jv(headers)),
                ("body"@, body_to_jv(body)),
            ] + opt_int_field(
                "tls_handshake_ms"@,
                match tls_handshake_ms {
                    Some(t) => Some(t as int),
                    None => None,
                },
            ) + opt_jv_field(
                "url_components"@,
                match url_components {
                    Some(u) => Some(url_to_jv(u)),
                    None => None,
                },
            ) + opt_str_field("curl_command"@, curl_command) + opt_str_field(
                "endpoint_pattern"@,
                endpoint_pattern,
            ) + opt_str_field("api_version"@, api_version),
        ),
        EventV::ProxyResponse { request_id, status, headers, body, duration_ms } => JsonV::Obj(
            seq![
                ("type"@, JsonV::Str("ProxyResponse"@)),
                ("request_id"@, JsonV::Str(request_id)),
                ("status"@, JsonV::Int(status as int)),
                ("headers"@, str_map_jv(headers)),
                ("body"@, body_to_jv(body)),
                ("duration_ms"@, JsonV::Int(duration_ms as int)),
            ],
        ),
        EventV::ProxyDebug { level, message, module, target, file, line } => JsonV::Obj(
            seq![
                ("type"@, JsonV::Str("ProxyDebug"@)),
                ("level"@, JsonV::Str(level)),
                ("message"@, JsonV::Str(message)),
            ] + opt_str_field("module"@, module) + opt_str_field("target"@, target)
                + opt_str_field("file"@, file) + opt_int_field(
                "line"@,
                match line {
                    Some(n) => Some(n as int),
                    None => None,
                },
            ),
        ),
    }
}

/// An entry as its stable JSON object.
pub open spec fn entry_to_jv(ev: EntryV) -> JsonV {
    JsonV::Obj(
        seq![
            ("schema_version"@, JsonV::Int(ev.schema_version as int)),
            ("timestamp"@, JsonV::Str(ev.timestamp)),
            ("date"@, JsonV::Str(ev.date)),
            ("session_id"@, JsonV::Str(ev.session_id)),
            ("correlation_id"@, JsonV::Str(ev.correlation_id)),
            ("event"@, event_to_jv(ev.event)),
        ],
    )
}

/// The canonical serialized bytes of an entry.
pub open spec fn ser_entry(ev: EntryV) -> Seq<u8> {
    ser_json(entry_to_jv(ev))
}

// ---------------------------------------------------------------------------
// Well-formedness of the produced JSON value
// ---------------------------------------------------------------------------

/// Every member value of the list is well-formed.
pub open spec fn all_values_wf(pairs: Seq<(Seq<char>, JsonV)>) -> bool {
    forall|k: int| 0 <= k < pairs.len() ==> wf_json(#[trigger] pairs[k].1)
}

/// An object all of whose member values are well-formed is well-formed.
proof fn lemma_wf_obj(pairs: Seq<(Seq<char>, JsonV)>)
    requires
        all_values_wf(pairs),
    ensures
        wf_json(JsonV::Obj(pairs)),
{
    assert forall|k: int| 0 <= k < pairs.len() implies wf_json(#[trigger] pairs[k].1) by {
    }
}

/// Concatenation preserves member well-formedness.
proof fn lemma_all_values_wf_concat(a: Seq<(Seq<char>, JsonV)>, b: Seq<(Seq<char>, JsonV)>)
    requires
        all_values_wf(a),
        all_values_wf(b),
    ensures
        all_values_wf(a + b),
{
    assert forall|k: int| 0 <= k < (a + b).len() implies wf_json(#[trigger] (a + b)[k].1) by {
        if k < a.len() {
            assert((a + b)[k] == a[k]);
        } else {
            assert((a + b)[k] == b[k - a.len()]);
        }
    }
}

/// A well-formed string map yields a well-formed object.
proof fn lemma_str_map_jv_wf(m: Seq<(Seq<char>, Seq<char>)>)
    ensures
        wf_json(str_map_jv(m)),
{
    let pairs = Seq::new(m.len(), |k: int| (m[k].0, JsonV::Str(m[k].1)));
    assert forall|k: int| 0 <= k < pairs.len() implies wf_json(#[trigger] pairs[k].1) by {
        assert(pairs[k].1 == JsonV::Str(m[k].1));
    }
    lemma_wf_obj(pairs);
}

/// Body content yields a well-formed object.
proof fn lemma_body_content_to_jv_wf(c: BodyContentV)
    ensures
        wf_json(body_content_to_jv(c)),
{
    let pairs = body_content_to_jv(c)->Obj_0;
    assert forall|k: int| 0 <= k < pairs.len() implies wf_json(#[trigger] pairs[k].1) by {
        assert(pairs[k].1 is Str);
    }
    lemma_wf_obj(pairs);
    assert(body_content_to_jv(c) == JsonV::Obj(pairs));
}

/// A well-formed body yields a well-formed object.
proof fn lemma_body_to_jv_wf(b: BodyV)
    requires
        b.size_bytes <= i64::MAX,
        b.stored_size_bytes <= i64::MAX,
    ensures
        wf_json(body_to_jv(b)),
{
    let tail = seq![
        ("size_bytes"@, JsonV::Int(b.size_bytes as int)),
        ("stored_size_bytes"@, JsonV::Int(b.stored_size_bytes as int)),
        ("truncated"@, JsonV::Bool(b.truncated)),
        ("content"@, body_content_to_jv(b.content)),
    ];
    lemma_body_content_to_jv_wf(b.content);
    assert(all_values_wf(tail));
    assert(all_values_wf(opt_str_field("original_encoding"@, b.original_encoding)));
    assert(all_values_wf(opt_str_field("content_type"@, b.content_type)));
    lemma_all_values_wf_concat(
        opt_str_field("original_encoding"@, b.original_encoding),
        opt_str_field("content_type"@, b.content_type),
    );
    lemma_all_values_wf_concat(
        opt_str_field("original_encoding"@, b.original_encoding) + opt_str_field(
            "content_type"@,
            b.content_type,
        ),
        tail,
    );
    lemma_wf_obj(
        opt_str_field("original_encoding"@, b.original_encoding) + opt_str_field(
            "content_type"@,
            b.content_type,
        ) + tail,
    );
}

/// A well-formed URL yields a well-formed object.
proof fn lemma_url_to_jv_wf(u: UrlV)
    ensures
        wf_json(url_to_jv(u)),
{
    let p = match u.port {
        Some(p) => Some(p as int),
        None => None,
    };
    lemma_str_map_jv_wf(u.query_params);
    assert(all_values_wf(seq![("scheme"@, JsonV::Str(u.scheme)), ("host"@, JsonV::Str(u.host))]));
    assert(all_values_wf(opt_int_field("port"@, p)));
    assert(all_values_wf(
        seq![("path"@, JsonV::Str(u.path)), ("query_params"@, str_map_jv(u.query_params))],
    ));
    lemma_all_values_wf_concat(
        seq![("scheme"@, JsonV::Str(u.scheme)), ("host"@, JsonV::Str(u.host))],
        opt_int_field("port"@, p),
    );
    lemma_all_values_wf_concat(
        seq![("scheme"@, JsonV::Str(u.scheme)), ("host"@, JsonV::Str(u.host))] + opt_int_field(
            "port"@,
            p,
        ),
        seq![("path"@, JsonV::Str(u.path)), ("query_params"@, str_map_jv(u.query_params))],
    );
    lemma_wf_obj(
        seq![("scheme"@, JsonV::Str(u.scheme)), ("host"@, JsonV::Str(u.host))] + opt_int_field(
            "port"@,
            p,
        ) + seq![("path"@, JsonV::Str(u.path)), ("query_params"@, str_map_jv(u.query_params))],
    );
}

/// A well-formed event yields a well-formed object.
#[verifier::rlimit(60)]
proof fn lemma_event_to_jv_wf(ev: EventV)
    requires
        wf_event(ev),
    ensures
        wf_json(event_to_jv(ev)),
{
    match ev {
        EventV::Mcp { level, message } => {
            let s0 = seq![
                ("type"@, JsonV::Str("Mcp"@)),
                ("level"@, JsonV::Str(level)),
                ("message"@, JsonV::Str(message)),
            ];
            assert(all_values_wf(s0));
            lemma_wf_obj(s0);
        },
        EventV::Hook { event_type, tool_name, tool_input, transcript_path, cwd, extra } => {
            let s0 = seq![("type"@, JsonV::Str("Hook"@)), ("event_type"@, JsonV::Str(event_type))];
            let f1 = opt_str_field("tool_name"@, tool_name);
            let f2 = opt_jv_field("tool_input"@, tool_input);
            let f3 = opt_str_field("transcript_path"@, transcript_path);
            let f4 = opt_str_field("cwd"@, cwd);
            assert(all_values_wf(s0));
            assert(all_values_wf(f1));
            assert(all_values_wf(f2));
            assert(all_values_wf(f3));
            assert(all_values_wf(f4));
            assert(all_values_wf(extra));
            lemma_all_values_wf_concat(s0, f1);
            lemma_all_values_wf_concat(s0 + f1, f2);
            lemma_all_values_wf_concat(s0 + f1 + f2, f3);
            lemma_all_values_wf_concat(s0 + f1 + f2 + f3, f4);
            lemma_all_values_wf_concat(s0 + f1 + f2 + f3 + f4, extra);
            lemma_wf_obj(s0 + f1 + f2 + f3 + f4 + extra);
        },
        EventV::ProxyRequest {
            id,
            method,
            uri,
            headers,
            body,
            tls_handshake_ms,
            url_components,
            curl_command,
            endpoint_pattern,
            api_version,
        } => {
            lemma_str_map_jv_wf(headers);
            lemma_body_to_jv_wf(body);
            let s0 = seq![
                ("type"@, JsonV::Str("ProxyRequest"@)),
                ("id"@, JsonV::Str(id)),
                ("method"@, JsonV::Str(method)),
                ("uri"@, JsonV::Str(uri)),
                ("headers"@, str_map_jv(headers)),
                ("body"@, body_to_jv(body)),
            ];
            let f1 = opt_int_field(
                "tls_handshake_ms"@,
                match tls_handshake_ms {
                    Some(t) => Some(t as int),
                    None => None,
                },
            );
            let f2 = opt_jv_field(
                "url_components"@,
                match url_components {
                    Some(u) => Some(url_to_jv(u)),
                    None => None,
                },
            );
            let f3 = opt_str_field("curl_command"@, curl_command);
            let f4 = opt_str_field("endpoint_pattern"@, endpoint_pattern);
            let f5 = opt_str_field("api_version"@, api_version);
            assert(all_values_wf(s0));
            assert(all_values_wf(f1));
            assert(all_values_wf(f2)) by {
                match url_components {
                    Some(u) => {
                        lemma_url_to_jv_wf(u);
                    },
                    None => {},
                }
            }
            assert(all_values_wf(f3));
            assert(all_values_wf(f4));
            assert(all_values_wf(f5));
            lemma_all_values_wf_concat(s0, f1);
            lemma_all_values_wf_concat(s0 + f1, f2);
            lemma_all_values_wf_concat(s0 + f1 + f2, f3);
            lemma_all_values_wf_concat(s0 + f1 + f2 + f3, f4);
            lemma_all_values_wf_concat(s0 + f1 + f2 + f3 + f4, f5);
            lemma_wf_obj(s0 + f1 + f2 + f3 + f4 + f5);
        },
        EventV::ProxyResponse { request_id, status, headers, body, duration_ms } => {
            lemma_str_map_jv_wf(headers);
            lemma_body_to_jv_wf(body);
            let s0 = seq![
                ("type"@, JsonV::Str("ProxyResponse"@)),
                ("request_id"@, JsonV::Str(request_id)),
                ("status"@, JsonV::Int(status as int)),
                ("headers"@, str_map_jv(headers)),
                ("body"@, body_to_jv(body)),
                ("duration_ms"@, JsonV::Int(duration_ms as int)),
            ];
            assert(all_values_wf(s0));
            lemma_wf_obj(s0);
        },
        EventV::ProxyDebug { level, message, module, target, file, line } => {
            let s0 = seq![
                ("type"@, JsonV::Str("ProxyDebug"@)),
                ("level"@, JsonV::Str(level)),
                ("message"@, JsonV::Str(message)),
            ];
            let f1 = opt_str_field("module"@, module);
            let f2 = opt_str_field("target"@, target);
            let f3 = opt_str_field("file"@, file);
            let f4 = opt_int_field(
                "line"@,
                match line {
                    Some(n) => Some(n as int),
                    None => None,
                },
            );
            assert(all_values_wf(s0));
            assert(all_values_wf(f1));
            assert(all_values_wf(f2));
            assert(all_values_wf(f3));
            assert(all_values_wf(f4));
            lemma_all_values_wf_concat(s0, f1);
            lemma_all_values_wf_concat(s0 + f1, f2);
            lemma_all_values_wf_concat(s0 + f1 + f2, f3);
            lemma_all_values_wf_concat(s0 + f1 + f2 + f3, f4);
            lemma_wf_obj(s0 + f1 + f2 + f3 + f4);
        },
    }
}

/// A well-formed entry yields a well-formed JSON value.
pub proof fn lemma_entry_to_jv_wf(ev: EntryV)
    requires
        wf_entry(ev),
    ensures
        wf_json(entry_to_jv(ev)),
{
    lemma_event_to_jv_wf(ev.event);
    let s0 = seq![
        ("schema_version"@, JsonV::Int(ev.schema_version as int)),
        ("timestamp"@, JsonV::Str(ev.timestamp)),
        ("date"@, JsonV::Str(ev.date)),
        ("session_id"@, JsonV::Str(ev.session_id)),
        ("correlation_id"@, JsonV::Str(ev.correlation_id)),
        ("event"@, event_to_jv(ev.event)),
    ];
    assert(all_values_wf(s0));
    lemma_wf_obj(s0);
}

/// One serialized well-formed entry is one line: its bytes hold no
/// newline.
pub proof fn lemma_ser_entry_single_line(ev: EntryV)
    requires
        wf_entry(ev),
    ensures
        newline_free(ser_entry(ev)),
{
    lemma_entry_to_jv_wf(ev);
    lemma_ser_json_newline_free(entry_to_jv(ev));
}

} // verus!

verus! {

// ---------------------------------------------------------------------------
// Backward mapping: JSON value to entry
// ---------------------------------------------------------------------------

/// Required string member at the front of the remaining list.
pub open spec fn take_req_str(p: Seq<(Seq<char>, JsonV)>, name: Seq<char>) -> Option<
    (Seq<char>, Seq<(Seq<char>, JsonV)>),
> {
    if p.len() > 0 && p[0].0 == name && p[0].1 is Str {
        Some((p[0].1->Str_0, p.drop_first()))
    } else {
        None
    }
}

/// Required integer member at the front of the remaining list.
pub open spec fn take_req_int(p: Seq<(Seq<char>, JsonV)>, name: Seq<char>) -> Option<
    (int, Seq<(Seq<char>, JsonV)>),
> {
    if p.len() > 0 && p[0].0 == name && p[0].1 is Int {
        Some((p[0].1->Int_0, p.drop_first()))
    } else {
        None
    }
}

/// Required boolean member at the front of the remaining list.
pub open spec fn take_req_bool(p: Seq<(Seq<char>, JsonV)>, name: Seq<char>) -> Option<
    (bool, Seq<(Seq<char>, JsonV)>),
> {
    if p.len() > 0 && p[0].0 == name && p[0].1 is Bool {
        Some((p[0].1->Bool_0, p.drop_first()))
    } else {
        None
    }
}

/// Required member of any shape at the front of the remaining list.
pub open spec fn take_req_jv(p: Seq<(Seq<char>, JsonV)>, name: Seq<char>) -> Option<
    (JsonV, Seq<(Seq<char>, JsonV)>),
> {
    if p.len() > 0 && p[0].0 == name {
        Some((p[0].1, p.drop_first()))
    } else {
        None
    }
}

/// Optional string member: consumed when present under its name, absent
/// otherwise; an explicit `null` counts as absent.
pub open spec fn take_opt_str(p: Seq<(Seq<char>, JsonV)>, name: Seq<char>) -> Option<
    (Option<Seq<char>>, Seq<(Seq<char>, JsonV)>),
> {
    if p.len() > 0 && p[0].0 == name {
        if p[0].1 is Str {
            Some((Some(p[0].1->Str_0), p.drop_first()))
        } else if p[0].1 is Null {
            Some((None, p.drop_first()))
        } else {
            None
        }
    } else {
        Some((None, p))
    }
}

/// Optional integer member, as [`take_opt_str`].
pub open spec fn take_opt_int(p: Seq<(Seq<char>, JsonV)>, name: Seq<char>) -> Option<
    (Option<int>, Seq<(Seq<char>, JsonV)>),
> {
    if p.len() > 0 && p[0].0 == name {
        if p[0].1 is Int {
            Some((Some(p[0].1->Int_0), p.drop_first()))
        } else if p[0].1 is Null {
            Some((None, p.drop_first()))
        } else {
            None
        }
    } else {
        Some((None, p))
    }
}

/// Optional structured member, as [`take_opt_str`].
pub open spec fn take_opt_jv(p: Seq<(Seq<char>, JsonV)>, name: Seq<char>) -> Option<
    (Option<JsonV>, Seq<(Seq<char>, JsonV)>),
> {
    if p.len() > 0 && p[0].0 == name {
        if p[0].1 is Null {
            Some((None, p.drop_first()))
        } else {
            Some((Some(p[0].1), p.drop_first()))
        }
    } else {
        Some((None, p))
    }
}

/// A JSON object all of whose member values are strings, as a map.
pub open spec fn jv_to_str_pairs(v: JsonV) -> Option<Seq<(Seq<char>, Seq<char>)>> {
    match v {
        JsonV::Obj(p) => if forall|k: int| 0 <= k < p.len() ==> (#[trigger] p[k].1) is Str {
            Some(Seq::new(p.len(), |k: int| (p[k].0, p[k].1->Str_0)))
        } else {
            None
        },
        _ => None,
    }
}

/// URL components read back from a JSON value.
pub open spec fn jv_to_url(v: JsonV) -> Option<UrlV> {
    match v {
        JsonV::Obj(p0) => match take_req_str(p0, "scheme"@) {
            Some((scheme, p1)) => match take_req_str(p1, "host"@) {
                Some((host, p2)) => match take_opt_int(p2, "port"@) {
                    Some((port, p3)) => match take_req_str(p3, "path"@) {
                        Some((path, p4)) => match take_req_jv(p4, "query_params"@) {
                            Some((qv, p5)) => match jv_to_str_pairs(qv) {
                                Some(query_params) => if p5.len() == 0 && (match port {
                                    Some(n) => 0 <= n <= u16::MAX,
                                    None => true,
                                }) {
                                    Some(
                                        UrlV {
                                            scheme,
                                            host,
                                            port: match port {
                                                Some(n) => Some(n as u16),
                                                None => None,
                                            },
                                            path,
                                            query_params,
                                        },
                                    )
                                } else {
                                    None
                                },
                                None => None,
                            },
                            None => None,
                        },
                        None => None,
                    },
                    None => None,
                },
                None => None,
            },
            None => None,
        },
        _ => None,
    }
}

/// Body content read back from a JSON value.
pub open spec fn jv_to_body_content(v: JsonV) -> Option<BodyContentV> {
    match v {
        JsonV::Obj(p0) => match take_req_str(p0, "type"@) {
            Some((tag, p1)) => if tag == "Text"@ {
                match take_req_str(p1, "data"@) {
                    Some((data, p2)) => if p2.len() == 0 {
                        Some(BodyContentV::Text { data })
                    } else {
                        None
                    },
                    None => None,
                }
            } else if tag == "Binary"@ {
                match take_req_str(p1, "data"@) {
                    Some((data, p2)) => if p2.len() == 0 {
                        Some(BodyContentV::Binary { data })
                    } else {
                        None
                    },
                    None => None,
                }
            } else if tag == "Truncated"@ {
                match take_req_str(p1, "preview"@) {
                    Some((preview, p2)) => match take_req_str(p2, "reason"@) {
                        Some((reason, p3)) => if p3.len() == 0 {
                            Some(BodyContentV::Truncated { preview, reason })
                        } else {
                            None
                        },
                        None => None,
                    },
                    None => None,
                }
            } else if tag == "DecompressionFailed"@ {
                match take_req_str(p1, "error"@) {
                    Some((error, p2)) => if p2.len() == 0 {
                        Some(BodyContentV::DecompressionFailed { error })
                    } else {
                        None
                    },
                    None => None,
                }
            } else if tag == "Empty"@ {
                if p1.len() == 0 {
                    Some(BodyContentV::Empty)
                } else {
                    None
                }
            } else {
                None
            },
            None => None,
        },
        _ => None,
    }
}

/// A captured body read back from a JSON value.
pub open spec fn jv_to_body(v: JsonV) -> Option<BodyV> {
    match v {
        JsonV::Obj(p0) => match take_opt_str(p0, "original_encoding"@) {
            Some((original_encoding, p1)) => match take_opt_str(p1, "content_type"@) {
                Some((content_type, p2)) => match take_req_int(p2, "size_bytes"@) {
                    Some((size_bytes, p3)) => match take_req_int(p3, "stored_size_bytes"@) {
                        Some((stored_size_bytes, p4)) => match take_req_bool(p4, "truncated"@) {
                            Some((truncated, p5)) => match take_req_jv(p5, "content"@) {
                                Some((cv, p6)) => match jv_to_body_content(cv) {
                                    Some(content) => if p6.len() == 0 && 0 <= size_bytes
                                        <= i64::MAX && 0 <= stored_size_bytes <= i64::MAX {
                                        Some(
                                            BodyV {
                                                original_encoding,
                                                content_type,
                                                size_bytes: size_bytes as u64,
                                                stored_size_bytes: stored_size_bytes as u64,
                                                truncated,
                                                content,
                                            },
                                        )
                                    } else {
                                        None
                                    },
                                    None => None,
                                },
                                None => None,
                            },
                            None => None,
                        },
                        None => None,
                    },
                    None => None,
                },
                None => None,
            },
            None => None,
        },
        _ => None,
    }
}

/// An event read back from the members after the `"type"` tag.
pub open spec fn jv_to_event(tag: Seq<char>, p1: Seq<(Seq<char>, JsonV)>) -> Option<EventV> {
    if tag == "Mcp"@ {
        match take_req_str(p1, "level"@) {
            Some((level, p2)) => match take_req_str(p2, "message"@) {
                Some((message, p3)) => if p3.len() == 0 {
                    Some(EventV::Mcp { level, message })
                } else {
                    None
                },
                None => None,
            },
            None => None,
        }
    } else if tag == "Hook"@ {
        match take_req_str(p1, "event_type"@) {
            Some((event_type, p2)) => match take_opt_str(p2, "tool_name"@) {
                Some((tool_name, p3)) => match take_opt_jv(p3, "tool_input"@) {
                    Some((tool_input, p4)) => match take_opt_str(p4, "transcript_path"@) {
                        Some((transcript_path, p5)) => match take_opt_str(p5, "cwd"@) {
                            Some((cwd, p6)) => Some(
                                EventV::Hook {
                                    event_type,
                                    tool_name,
                                    tool_input,
                                    transcript_path,
                                    cwd,
                                    extra: p6,
                                },
                            ),
                            None => None,
                        },
                        None => None,
                    },
                    None => None,
                },
                None => None,
            },
            None => None,
        }
    } else if tag == "ProxyRequest"@ {
        match take_req_str(p1, "id"@) {
            Some((id, p2)) => match take_req_str(p2, "method"@) {
                Some((method, p3)) => match take_req_str(p3, "uri"@) {
                    Some((uri, p4)) => match take_req_jv(p4, "headers"@) {
                        Some((hv, p5)) => match jv_to_str_pairs(hv) {
                            Some(headers) => match take_req_jv(p5, "body"@) {
                                Some((bv, p6)) => match jv_to_body(bv) {
                                    Some(body) => match take_opt_int(p6, "tls_handshake_ms"@) {
                                        Some((tls, p7)) => match take_opt_jv(
                                            p7,
                                            "url_components"@,
                                        ) {
                                            Some((uv, p8)) => match take_opt_str(
                                                p8,
                                                "curl_command"@,
                                            ) {
                                                Some((curl_command, p9)) => match take_opt_str(
                                                    p9,
                                                    "endpoint_pattern"@,
                                                ) {
                                                    Some((endpoint_pattern, p10)) => match
                                                        take_opt_str(p10, "api_version"@) {
                                                        Some((api_version, p11)) => if p11.len()
                                                            == 0 && (match tls {
                                                            Some(t) => 0 <= t <= i64::MAX,
                                                            None => true,
                                                        }) {
                                                            let url_components = match uv {
                                                                Some(u) => match jv_to_url(u) {
                                                                    Some(uu) => Some(Some(uu)),
                                                                    None => None,
                                                                },
                                                                None => Some(None),
                                                            };
                                                            match url_components {
                                                                Some(url_components) => Some(
                                                                    EventV::ProxyRequest {
                                                                        id,
                                                                        method,
                                                                        uri,
                                                                        headers,
                                                                        body,
                                                                        tls_handshake_ms: match
                                                                            tls {
                                                                            Some(t) => Some(
                                                                                t as u64,
                                                                            ),
                                                                            None => None,
                                                                        },
                                                                        url_components,
                                                                        curl_command,
                                                                        endpoint_pattern,
                                                                        api_version,
                                                                    },
                                                                ),
                                                                None => None,
                                                            }
                                                        } else {
                                                            None
                                                        },
                                                        None => None,
                                                    },
                                                    None => None,
                                                },
                                                None => None,
                                            },
                                            None => None,
                                        },
                                        None => None,
                                    },
                                    None => None,
                                },
                                None => None,
                            },
                            None => None,
                        },
                        None => None,
                    },
                    None => None,
                },
                None => None,
            },
            None => None,
        }
    } else if tag == "ProxyResponse"@ {
        match take_req_str(p1, "request_id"@) {
            Some((request_id, p2)) => match take_req_int(p2, "status"@) {
                Some((status, p3)) => match take_req_jv(p3, "headers"@) {
                    Some((hv, p4)) => match jv_to_str_pairs(hv) {
                        Some(headers) => match take_req_jv(p4, "body"@) {
                            Some((bv, p5)) => match jv_to_body(bv) {
                                Some(body) => match take_req_int(p5, "duration_ms"@) {
                                    Some((duration_ms, p6)) => if p6.len() == 0 && 0 <= status
                                        <= u16::MAX && 0 <= duration_ms <= i64::MAX {
                                        Some(
                                            EventV::ProxyResponse {
                                                request_id,
                                                status: status as u16,
                                                headers,
                                                body,
                                                duration_ms: duration_ms as u64,
                                            },
                                        )
                                    } else {
                                        None
                                    },
                                    None => None,
                                },
                                None => None,
                            },
                            None => None,
                        },
                        None => None,
                    },
                    None => None,
                },
                None => None,
            },
            None => None,
        }
    } else if tag == "ProxyDebug"@ {
        match take_req_str(p1, "level"@) {
            Some((level, p2)) => match take_req_str(p2, "message"@) {
                Some((message, p3)) => match take_opt_str(p3, "module"@) {
                    Some((module, p4)) => match take_opt_str(p4, "target"@) {
                        Some((target, p5)) => match take_opt_str(p5, "file"@) {
                            Some((file, p6)) => match take_opt_int(p6, "line"@) {
                                Some((line, p7)) => if p7.len() == 0 && (match line {
                                    Some(n) => 0 <= n <= u32::MAX,
                                    None => true,
                                }) {
                                    Some(
                                        EventV::ProxyDebug {
                                            level,
                                            message,
                                            module,
                                            target,
                                            file,
                                            line: match line {
                                                Some(n) => Some(n as u32),
                                                None => None,
                                            },
                                        },
                                    )
                                } else {
                                    None
                                },
                                None => None,
                            },
                            None => None,
                        },
                        None => None,
                    },
                    None => None,
                },
                None => None,
            },
            None => None,
        }
    } else {
        None
    }
}

/// An entry read back from a JSON value.
pub open spec fn jv_to_entry(v: JsonV) -> Option<EntryV> {
    match v {
        JsonV::Obj(p0) => match take_req_int(p0, "schema_version"@) {
            Some((sv, p1)) => match take_req_str(p1, "timestamp"@) {
                Some((timestamp, p2)) => match take_req_str(p2, "date"@) {
                    Some((date, p3)) => match take_req_str(p3, "session_id"@) {
                        Some((session_id, p4)) => match take_req_str(p4, "correlation_id"@) {
                            Some((correlation_id, p5)) => match take_req_jv(p5, "event"@) {
                                Some((evv, p6)) => match evv {
                                    JsonV::Obj(q0) => match take_req_str(q0, "type"@) {
                                        Some((tag, q1)) => match jv_to_event(tag, q1) {
                                            Some(event) => if p6.len() == 0 && 0 <= sv
                                                <= u32::MAX {
                                                Some(
                                                    EntryV {
                                                        schema_version: sv as u32,
                                                        timestamp,
                                                        date,
                                                        session_id,
                                                        correlation_id,
                                                        event,
                                                    },
                                                )
                                            } else {
                                                None
                                            },
                                            None => None,
                                        },
                                        None => None,
                                    },
                                    _ => None,
                                },
                                None => None,
                            },
                            None => None,
                        },
                        None => None,
                    },
                    None => None,
                },
                None => None,
            },
            None => None,
        },
        _ => None,
    }
}

/// An entry read back from serialized bytes: parse, then map.
pub open spec fn entry_of_bytes(bytes: Seq<u8>) -> Option<EntryV> {
    match parse_doc(bytes) {
        Some(v) => jv_to_entry(v),
        None => None,
    }
}

} // verus!

verus! {

// ---------------------------------------------------------------------------
// The backward mapping inverts the forward one
// ---------------------------------------------------------------------------

/// Names told apart inside a URL object.
proof fn lemma_neq_url_names()
    ensures
        "port"@ != "path"@,
{
    reveal_strlit("port");
    reveal_strlit("path");
    assert("port"@.len() == 4);
    assert("path"@.len() == 4);
    assert("port"@[1] == 'o');
    assert("path"@[1] == 'a');
}

/// Names told apart inside a body object.
proof fn lemma_neq_body_names()
    ensures
        "size_bytes"@ != "original_encoding"@,
        "size_bytes"@ != "content_type"@,
        "content_type"@ != "original_encoding"@,
{
    reveal_strlit("size_bytes");
    reveal_strlit("original_encoding");
    reveal_strlit("content_type");
    assert("size_bytes"@.len() == 10);
    assert("original_encoding"@.len() == 17);
    assert("content_type"@.len() == 12);
}

/// Names told apart inside a request object.
proof fn lemma_neq_request_names()
    ensures
        "url_components"@ != "tls_handshake_ms"@,
        "curl_command"@ != "tls_handshake_ms"@,
        "endpoint_pattern"@ != "tls_handshake_ms"@,
        "api_version"@ != "tls_handshake_ms"@,
        "curl_command"@ != "url_components"@,
        "endpoint_pattern"@ != "url_components"@,
        "api_version"@ != "url_components"@,
        "endpoint_pattern"@ != "curl_command"@,
        "api_version"@ != "curl_command"@,
        "api_version"@ != "endpoint_pattern"@,
{
    reveal_strlit("tls_handshake_ms");
    reveal_strlit("url_components");
    reveal_strlit("curl_command");
    reveal_strlit("endpoint_pattern");
    reveal_strlit("api_version");
    assert("tls_handshake_ms"@.len() == 16);
    assert("url_components"@.len() == 14);
    assert("curl_command"@.len() == 12);
    assert("endpoint_pattern"@.len() == 16);
    assert("api_version"@.len() == 11);
    assert("tls_handshake_ms"@[0] == 't');
    assert("endpoint_pattern"@[0] == 'e');
}

/// Names told apart inside a hook object.
proof fn lemma_neq_hook_names()
    ensures
        "tool_input"@ != "tool_name"@,
        "transcript_path"@ != "tool_name"@,
        "cwd"@ != "tool_name"@,
        "transcript_path"@ != "tool_input"@,
        "cwd"@ != "tool_input"@,
        "cwd"@ != "transcript_path"@,
{
    reveal_strlit("tool_name");
    reveal_strlit("tool_input");
    reveal_strlit("transcript_path");
    reveal_strlit("cwd");
    assert("tool_name"@.len() == 9);
    assert("tool_input"@.len() == 10);
    assert("transcript_path"@.len() == 15);
    assert("cwd"@.len() == 3);
}

/// Names told apart inside a diagnostic object.
proof fn lemma_neq_debug_names()
    ensures
        "target"@ != "module"@,
        "file"@ != "module"@,
        "line"@ != "module"@,
        "file"@ != "target"@,
        "line"@ != "target"@,
        "line"@ != "file"@,
{
    reveal_strlit("module");
    reveal_strlit("target");
    reveal_strlit("file");
    reveal_strlit("line");
    assert("module"@.len() == 6);
    assert("target"@.len() == 6);
    assert("module"@[0] == 'm');
    assert("target"@[0] == 't');
    assert("file"@.len() == 4);
    assert("line"@.len() == 4);
    assert("file"@[0] == 'f');
    assert("line"@[0] == 'l');
}

/// Taking a required string member off the front.
proof fn lemma_take_req_str_at(name: Seq<char>, sv: Seq<char>, rest: Seq<(Seq<char>, JsonV)>)
    ensures
        take_req_str(seq![(name, JsonV::Str(sv))] + rest, name) == Some((sv, rest)),
{
    assert((seq![(name, JsonV::Str(sv))] + rest).drop_first() =~= rest);
}

/// Taking a required integer member off the front.
proof fn lemma_take_req_int_at(name: Seq<char>, n: int, rest: Seq<(Seq<char>, JsonV)>)
    ensures
        take_req_int(seq![(name, JsonV::Int(n))] + rest, name) == Some((n, rest)),
{
    assert((seq![(name, JsonV::Int(n))] + rest).drop_first() =~= rest);
}

/// Taking a required boolean member off the front.
proof fn lemma_take_req_bool_at(name: Seq<char>, b: bool, rest: Seq<(Seq<char>, JsonV)>)
    ensures
        take_req_bool(seq![(name, JsonV::Bool(b))] + rest, name) == Some((b, rest)),
{
    assert((seq![(name, JsonV::Bool(b))] + rest).drop_first() =~= rest);
}

/// Taking a required member of any shape off the front.
proof fn lemma_take_req_jv_at(name: Seq<char>, v: JsonV, rest: Seq<(Seq<char>, JsonV)>)
    ensures
        take_req_jv(seq![(name, v)] + rest, name) == Some((v, rest)),
{
    assert((seq![(name, v)] + rest).drop_first() =~= rest);
}

/// Taking an optional string member: present when emitted, skipped when not.
proof fn lemma_take_opt_str_at(
    name: Seq<char>,
    v: Option<Seq<char>>,
    rest: Seq<(Seq<char>, JsonV)>,
)
    requires
        rest.len() > 0 ==> rest[0].0 != name,
    ensures
        take_opt_str(opt_str_field(name, v) + rest, name) == Some((v, rest)),
{
    match v {
        Some(s) => {
            assert((seq![(name, JsonV::Str(s))] + rest).drop_first() =~= rest);
        },
        None => {
            assert(opt_str_field(name, v) + rest =~= rest);
        },
    }
}

/// Taking an optional integer member, as above.
proof fn lemma_take_opt_int_at(name: Seq<char>, v: Option<int>, rest: Seq<(Seq<char>, JsonV)>)
    requires
        rest.len() > 0 ==> rest[0].0 != name,
    ensures
        take_opt_int(opt_int_field(name, v) + rest, name) == Some((v, rest)),
{
    match v {
        Some(n) => {
            assert((seq![(name, JsonV::Int(n))] + rest).drop_first() =~= rest);
        },
        None => {
            assert(opt_int_field(name, v) + rest =~= rest);
        },
    }
}

/// Taking an optional structured member, as above. A `null` value would read
/// back as absent, so the emitted value must not be `null`.
proof fn lemma_take_opt_jv_at(name: Seq<char>, v: Option<JsonV>, rest: Seq<(Seq<char>, JsonV)>)
    requires
        rest.len() > 0 ==> rest[0].0 != name,
        v matches Some(j) ==> !(j is Null),
    ensures
        take_opt_jv(opt_jv_field(name, v) + rest, name) == Some((v, rest)),
{
    match v {
        Some(j) => {
            assert((seq![(name, j)] + rest).drop_first() =~= rest);
        },
        None => {
            assert(opt_jv_field(name, v) + rest =~= rest);
        },
    }
}

/// Reading a string map back yields the same map.
proof fn lemma_str_pairs_inverse(m: Seq<(Seq<char>, Seq<char>)>)
    ensures
        jv_to_str_pairs(str_map_jv(m)) == Some(m),
{
    let p = Seq::new(m.len(), |k: int| (m[k].0, JsonV::Str(m[k].1)));
    assert(forall|k: int| 0 <= k < p.len() ==> (#[trigger] p[k].1) is Str);
    let r = jv_to_str_pairs(str_map_jv(m));
    assert(r is Some);
    assert(r->Some_0 =~~= m);
    assert(r =~~= Some(m));
}

/// The content tags told apart from one another.
proof fn lemma_neq_content_tags()
    ensures
        "Binary"@ != "Text"@,
        "Truncated"@ != "Text"@,
        "Truncated"@ != "Binary"@,
        "DecompressionFailed"@ != "Text"@,
        "DecompressionFailed"@ != "Binary"@,
        "DecompressionFailed"@ != "Truncated"@,
        "Empty"@ != "Text"@,
        "Empty"@ != "Binary"@,
        "Empty"@ != "Truncated"@,
        "Empty"@ != "DecompressionFailed"@,
{
    reveal_strlit("Text");
    reveal_strlit("Binary");
    reveal_strlit("Truncated");
    reveal_strlit("DecompressionFailed");
    reveal_strlit("Empty");
    assert("Text"@.len() == 4);
    assert("Binary"@.len() == 6);
    assert("Truncated"@.len() == 9);
    assert("DecompressionFailed"@.len() == 19);
    assert("Empty"@.len() == 5);
}

/// The event tags told apart from one another.
proof fn lemma_neq_event_tags()
    ensures
        "Hook"@ != "Mcp"@,
        "ProxyRequest"@ != "Mcp"@,
        "ProxyRequest"@ != "Hook"@,
        "ProxyResponse"@ != "Mcp"@,
        "ProxyResponse"@ != "Hook"@,
        "ProxyResponse"@ != "ProxyRequest"@,
        "ProxyDebug"@ != "Mcp"@,
        "ProxyDebug"@ != "Hook"@,
        "ProxyDebug"@ != "ProxyRequest"@,
        "ProxyDebug"@ != "ProxyResponse"@,
{
    reveal_strlit("Mcp");
    reveal_strlit("Hook");
    reveal_strlit("ProxyRequest");
    reveal_strlit("ProxyResponse");
    reveal_strlit("ProxyDebug");
    assert("Mcp"@.len() == 3);
    assert("Hook"@.len() == 4);
    assert("ProxyRequest"@.len() == 12);
    assert("ProxyResponse"@.len() == 13);
    assert("ProxyDebug"@.len() == 10);
}

/// Reading body content back yields the same content.
proof fn lemma_body_content_inverse(c: BodyContentV)
    ensures
        jv_to_body_content(body_content_to_jv(c)) == Some(c),
{
    lemma_neq_content_tags();
    match c {
        BodyContentV::Text { data } => {
            let tail = seq![("data"@, JsonV::Str(data))];
            assert(seq![("type"@, JsonV::Str("Text"@)), ("data"@, JsonV::Str(data))] =~= seq![
                ("type"@, JsonV::Str("Text"@)),
            ] + tail);
            lemma_take_req_str_at("type"@, "Text"@, tail);
            lemma_take_req_str_at("data"@, data, Seq::empty());
            assert(tail =~= seq![("data"@, JsonV::Str(data))] + Seq::<(Seq<char>, JsonV)>::empty());
        },
        BodyContentV::Binary { data } => {
            let tail = seq![("data"@, JsonV::Str(data))];
            assert(seq![("type"@, JsonV::Str("Binary"@)), ("data"@, JsonV::Str(data))] =~= seq![
                ("type"@, JsonV::Str("Binary"@)),
            ] + tail);
            lemma_take_req_str_at("type"@, "Binary"@, tail);
            lemma_take_req_str_at("data"@, data, Seq::empty());
            assert(tail =~= seq![("data"@, JsonV::Str(data))] + Seq::<(Seq<char>, JsonV)>::empty());
        },
        BodyContentV::Truncated { preview, reason } => {
            let t2 = seq![("reason"@, JsonV::Str(reason))];
            let t1 = seq![("preview"@, JsonV::Str(preview))] + t2;
            assert(seq![
                ("type"@, JsonV::Str("Truncated"@)),
                ("preview"@, JsonV::Str(preview)),
                ("reason"@, JsonV::Str(reason)),
            ] =~= seq![("type"@, JsonV::Str("Truncated"@))] + t1);
            lemma_take_req_str_at("type"@, "Truncated"@, t1);
            lemma_take_req_str_at("preview"@, preview, t2);
            lemma_take_req_str_at("reason"@, reason, Seq::empty());
            assert(t2 =~= seq![("reason"@, JsonV::Str(reason))] + Seq::<
                (Seq<char>, JsonV),
            >::empty());
        },
        BodyContentV::DecompressionFailed { error } => {
            let tail = seq![("error"@, JsonV::Str(error))];
            assert(seq![
                ("type"@, JsonV::Str("DecompressionFailed"@)),
                ("error"@, JsonV::Str(error)),
            ] =~= seq![("type"@, JsonV::Str("DecompressionFailed"@))] + tail);
            lemma_take_req_str_at("type"@, "DecompressionFailed"@, tail);
            lemma_take_req_str_at("error"@, error, Seq::empty());
            assert(tail =~= seq![("error"@, JsonV::Str(error))] + Seq::<
                (Seq<char>, JsonV),
            >::empty());
        },
        BodyContentV::Empty => {
            assert(seq![("type"@, JsonV::Str("Empty"@))] =~= seq![("type"@, JsonV::Str("Empty"@))]
                + Seq::<(Seq<char>, JsonV)>::empty());
            lemma_take_req_str_at("type"@, "Empty"@, Seq::empty());
        },
    }
}

/// Reading a body back yields the same body.
proof fn lemma_body_inverse(b: BodyV)
    requires
        b.size_bytes <= i64::MAX,
        b.stored_size_bytes <= i64::MAX,
    ensures
        jv_to_body(body_to_jv(b)) == Some(b),
{
    lemma_neq_body_names();
    lemma_body_content_inverse(b.content);
    let f1 = opt_str_field("original_encoding"@, b.original_encoding);
    let f2 = opt_str_field("content_type"@, b.content_type);
    let t1 = seq![("size_bytes"@, JsonV::Int(b.size_bytes as int))];
    let t2 = seq![("stored_size_bytes"@, JsonV::Int(b.stored_size_bytes as int))];
    let t3 = seq![("truncated"@, JsonV::Bool(b.truncated))];
    let t4 = seq![("content"@, body_content_to_jv(b.content))];
    let p0 = body_to_jv(b)->Obj_0;
    let r1 = f2 + (t1 + (t2 + (t3 + t4)));
    assert(p0 =~~= f1 + r1);
    assert(r1.len() > 0 ==> r1[0].0 != "original_encoding"@) by {
        match b.content_type {
            Some(_) => {
                assert(r1[0].0 == "content_type"@);
            },
            None => {
                assert(r1 =~= t1 + (t2 + (t3 + t4)));
                assert(r1[0].0 == "size_bytes"@);
            },
        }
    }
    lemma_take_opt_str_at("original_encoding"@, b.original_encoding, r1);
    let r2 = t1 + (t2 + (t3 + t4));
    assert(r2[0].0 == "size_bytes"@);
    lemma_take_opt_str_at("content_type"@, b.content_type, r2);
    lemma_take_req_int_at("size_bytes"@, b.size_bytes as int, t2 + (t3 + t4));
    lemma_take_req_int_at("stored_size_bytes"@, b.stored_size_bytes as int, t3 + t4);
    lemma_take_req_bool_at("truncated"@, b.truncated, t4);
    lemma_take_req_jv_at(
        "content"@,
        body_content_to_jv(b.content),
        Seq::<(Seq<char>, JsonV)>::empty(),
    );
    assert(t4 =~= seq![("content"@, body_content_to_jv(b.content))] + Seq::<
        (Seq<char>, JsonV),
    >::empty());
    assert(t3 + t4 =~= seq![("truncated"@, JsonV::Bool(b.truncated))] + t4);
    assert(t2 + (t3 + t4) =~= seq![("stored_size_bytes"@, JsonV::Int(b.stored_size_bytes as int))]
        + (t3 + t4));
    assert(r2 =~= seq![("size_bytes"@, JsonV::Int(b.size_bytes as int))] + (t2 + (t3 + t4)));
}

/// Reading URL components back yields the same components.
proof fn lemma_url_inverse(u: UrlV)
    ensures
        jv_to_url(url_to_jv(u)) == Some(u),
{
    lemma_neq_url_names();
    lemma_str_pairs_inverse(u.query_params);
    let pn = match u.port {
        Some(p) => Some(p as int),
        None => None,
    };
    let f = opt_int_field("port"@, pn);
    let t1 = seq![("path"@, JsonV::Str(u.path))];
    let t2 = seq![("query_params"@, str_map_jv(u.query_params))];
    let p0 = url_to_jv(u)->Obj_0;
    assert(p0 =~~= seq![("scheme"@, JsonV::Str(u.scheme))] + (seq![("host"@, JsonV::Str(u.host))]
        + (f + (t1 + t2))));
    lemma_take_req_str_at(
        "scheme"@,
        u.scheme,
        seq![("host"@, JsonV::Str(u.host))] + (f + (t1 + t2)),
    );
    lemma_take_req_str_at("host"@, u.host, f + (t1 + t2));
    assert((t1 + t2)[0].0 == "path"@);
    lemma_take_opt_int_at("port"@, pn, t1 + t2);
    lemma_take_req_str_at("path"@, u.path, t2);
    lemma_take_req_jv_at(
        "query_params"@,
        str_map_jv(u.query_params),
        Seq::<(Seq<char>, JsonV)>::empty(),
    );
    assert(t2 =~= seq![("query_params"@, str_map_jv(u.query_params))] + Seq::<
        (Seq<char>, JsonV),
    >::empty());
    assert(t1 + t2 =~= seq![("path"@, JsonV::Str(u.path))] + t2);
}

} // verus!

verus! {

/// Reading back one event kind: see [`lemma_event_inverse`].
#[verifier::rlimit(100)]
#[verifier::spinoff_prover]
proof fn lemma_event_inverse_mcp(ev: EventV)
    requires
        wf_event(ev),
        ev is Mcp,
    ensures
        event_to_jv(ev) is Obj,
        take_req_str(event_to_jv(ev)->Obj_0, "type"@) is Some,
        jv_to_event(
            take_req_str(event_to_jv(ev)->Obj_0, "type"@)->Some_0.0,
            take_req_str(event_to_jv(ev)->Obj_0, "type"@)->Some_0.1,
        ) == Some(ev),
{
    lemma_neq_event_tags();
    let q0 = event_to_jv(ev)->Obj_0;
    match ev {
        EventV::Mcp { level, message } => {
            let t1 = seq![("level"@, JsonV::Str(level)), ("message"@, JsonV::Str(message))];
            assert(q0 =~= seq![("type"@, JsonV::Str("Mcp"@))] + t1);
            lemma_take_req_str_at("type"@, "Mcp"@, t1);
            let t2 = seq![("message"@, JsonV::Str(message))];
            assert(t1 =~= seq![("level"@, JsonV::Str(level))] + t2);
            lemma_take_req_str_at("level"@, level, t2);
            lemma_take_req_str_at("message"@, message, Seq::empty());
            assert(t2 =~= seq![("message"@, JsonV::Str(message))] + Seq::<
                (Seq<char>, JsonV),
            >::empty());
        },
        _ => {},
    }
}

/// Reading back one event kind: see [`lemma_event_inverse`].
#[verifier::rlimit(100)]
#[verifier::spinoff_prover]
proof fn lemma_event_inverse_hook(ev: EventV)
    requires
        wf_event(ev),
        ev is Hook,
    ensures
        event_to_jv(ev) is Obj,
        take_req_str(event_to_jv(ev)->Obj_0, "type"@) is Some,
        jv_to_event(
            take_req_str(event_to_jv(ev)->Obj_0, "type"@)->Some_0.0,
            take_req_str(event_to_jv(ev)->Obj_0, "type"@)->Some_0.1,
        ) == Some(ev),
{
    lemma_neq_event_tags();
    let q0 = event_to_jv(ev)->Obj_0;
    match ev {
        EventV::Hook { event_type, tool_name, tool_input, transcript_path, cwd, extra } => {
            lemma_neq_hook_names();
            assert(ev == (EventV::Hook {
                event_type,
                tool_name,
                tool_input,
                transcript_path,
                cwd,
                extra,
            }));
            assert((match tool_input {
                Some(j) => wf_json(j) && !(j is Null),
                None => true,
            }) && (forall|k: int|
                0 <= k < extra.len() ==> wf_json(#[trigger] extra[k].1) && !hook_reserved_name(
                    extra[k].0,
                )));
            let f1 = opt_str_field("tool_name"@, tool_name);
            let f2 = opt_jv_field("tool_input"@, tool_input);
            let f3 = opt_str_field("transcript_path"@, transcript_path);
            let f4 = opt_str_field("cwd"@, cwd);
            let r1 = f1 + (f2 + (f3 + (f4 + extra)));
            let r0 = seq![("event_type"@, JsonV::Str(event_type))] + r1;
            assert(q0 =~~= seq![("type"@, JsonV::Str("Hook"@))] + r0);
            lemma_take_req_str_at("type"@, "Hook"@, r0);
            lemma_take_req_str_at("event_type"@, event_type, r1);
            let r2 = f2 + (f3 + (f4 + extra));
            let r3 = f3 + (f4 + extra);
            let r4 = f4 + extra;
            assert(r2.len() > 0 ==> r2[0].0 != "tool_name"@) by {
                match tool_input {
                    Some(_) => {
                        assert(r2[0].0 == "tool_input"@);
                    },
                    None => {
                        assert(r2 =~= r3);
                        match transcript_path {
                            Some(_) => {
                                assert(r2[0].0 == "transcript_path"@);
                            },
                            None => {
                                assert(r3 =~= r4);
                                match cwd {
                                    Some(_) => {
                                        assert(r2[0].0 == "cwd"@);
                                    },
                                    None => {
                                        assert(r4 =~= extra);
                                        if extra.len() > 0 {
                                            assert(wf_json(extra[0].1) && !hook_reserved_name(
                                                extra[0].0,
                                            ));
                                        }
                                    },
                                }
                            },
                        }
                    },
                }
            }
            lemma_take_opt_str_at("tool_name"@, tool_name, r2);
            assert(r3.len() > 0 ==> r3[0].0 != "tool_input"@) by {
                match transcript_path {
                    Some(_) => {
                        assert(r3[0].0 == "transcript_path"@);
                    },
                    None => {
                        assert(r3 =~= r4);
                        match cwd {
                            Some(_) => {
                                assert(r3[0].0 == "cwd"@);
                            },
                            None => {
                                assert(r4 =~= extra);
                                if extra.len() > 0 {
                                    assert(wf_json(extra[0].1) && !hook_reserved_name(
                                        extra[0].0,
                                    ));
                                }
                            },
                        }
                    },
                }
            }
            lemma_take_opt_jv_at("tool_input"@, tool_input, r3);
            assert(r4.len() > 0 ==> r4[0].0 != "transcript_path"@) by {
                match cwd {
                    Some(_) => {
                        assert(r4[0].0 == "cwd"@);
                    },
                    None => {
                        assert(r4 =~= extra);
                        if extra.len() > 0 {
                            assert(wf_json(extra[0].1) && !hook_reserved_name(extra[0].0));
                        }
                    },
                }
            }
            lemma_take_opt_str_at("transcript_path"@, transcript_path, r4);
            assert(extra.len() > 0 ==> extra[0].0 != "cwd"@) by {
                if extra.len() > 0 {
                    assert(wf_json(extra[0].1) && !hook_reserved_name(extra[0].0));
                }
            }
            lemma_take_opt_str_at("cwd"@, cwd, extra);
        },
        _ => {},
    }
}

/// Reading back one event kind: see [`lemma_event_inverse`].
#[verifier::rlimit(100)]
#[verifier::spinoff_prover]
proof fn lemma_event_inverse_request(ev: EventV)
    requires
        wf_event(ev),
        ev is ProxyRequest,
    ensures
        event_to_jv(ev) is Obj,
        take_req_str(event_to_jv(ev)->Obj_0, "type"@) is Some,
        jv_to_event(
            take_req_str(event_to_jv(ev)->Obj_0, "type"@)->Some_0.0,
            take_req_str(event_to_jv(ev)->Obj_0, "type"@)->Some_0.1,
        ) == Some(ev),
{
    lemma_neq_event_tags();
    let q0 = event_to_jv(ev)->Obj_0;
    match ev {
        EventV::ProxyRequest {
            id,
            method,
            uri,
            headers,
            body,
            tls_handshake_ms,
            url_components,
            curl_command,
            endpoint_pattern,
            api_version,
        } => {
            lemma_neq_request_names();
            lemma_str_pairs_inverse(headers);
            lemma_body_inverse(body);
            let tlsn = match tls_handshake_ms {
                Some(t) => Some(t as int),
                None => None,
            };
            let uvn = match url_components {
                Some(u) => Some(url_to_jv(u)),
                None => None,
            };
            let f1 = opt_int_field("tls_handshake_ms"@, tlsn);
            let f2 = opt_jv_field("url_components"@, uvn);
            let f3 = opt_str_field("curl_command"@, curl_command);
            let f4 = opt_str_field("endpoint_pattern"@, endpoint_pattern);
            let f5 = opt_str_field("api_version"@, api_version);
            let e5 = f5 + Seq::<(Seq<char>, JsonV)>::empty();
            assert(e5 =~= f5);
            let r6 = f1 + (f2 + (f3 + (f4 + f5)));
            let r5 = seq![("body"@, body_to_jv(body))] + r6;
            let r4 = seq![("headers"@, str_map_jv(headers))] + r5;
            let r3 = seq![("uri"@, JsonV::Str(uri))] + r4;
            let r2 = seq![("method"@, JsonV::Str(method))] + r3;
            let r1 = seq![("id"@, JsonV::Str(id))] + r2;
            assert(q0 =~~= seq![("type"@, JsonV::Str("ProxyRequest"@))] + r1);
            lemma_take_req_str_at("type"@, "ProxyRequest"@, r1);
            lemma_take_req_str_at("id"@, id, r2);
            lemma_take_req_str_at("method"@, method, r3);
            lemma_take_req_str_at("uri"@, uri, r4);
            lemma_take_req_jv_at("headers"@, str_map_jv(headers), r5);
            lemma_take_req_jv_at("body"@, body_to_jv(body), r6);
            let s2 = f2 + (f3 + (f4 + f5));
            let s3 = f3 + (f4 + f5);
            let s4 = f4 + f5;
            assert(s2.len() > 0 ==> s2[0].0 != "tls_handshake_ms"@) by {
                match url_components {
                    Some(_) => {
                        assert(s2[0].0 == "url_components"@);
                    },
                    None => {
                        assert(s2 =~= s3);
                        match curl_command {
                            Some(_) => {
                                assert(s2[0].0 == "curl_command"@);
                            },
                            None => {
                                assert(s3 =~= s4);
                                match endpoint_pattern {
                                    Some(_) => {
                                        assert(s2[0].0 == "endpoint_pattern"@);
                                    },
                                    None => {
                                        assert(s4 =~= f5);
                                        match api_version {
                                            Some(_) => {
                                                assert(s2[0].0 == "api_version"@);
                                            },
                                            None => {},
                                        }
                                    },
                                }
                            },
                        }
                    },
                }
            }
            lemma_take_opt_int_at("tls_handshake_ms"@, tlsn, s2);
            assert(s3.len() > 0 ==> s3[0].0 != "url_components"@) by {
                match curl_command {
                    Some(_) => {
                        assert(s3[0].0 == "curl_command"@);
                    },
                    None => {
                        assert(s3 =~= s4);
                        match endpoint_pattern {
                            Some(_) => {
                                assert(s3[0].0 == "endpoint_pattern"@);
                            },
                            None => {
                                assert(s4 =~= f5);
                                match api_version {
                                    Some(_) => {
                                        assert(s3[0].0 == "api_version"@);
                                    },
                                    None => {},
                                }
                            },
                        }
                    },
                }
            }
            assert(uvn matches Some(j) ==> !(j is Null)) by {
                match url_components {
                    Some(u) => {
                        assert(url_to_jv(u) is Obj);
                    },
                    None => {},
                }
            }
            lemma_take_opt_jv_at("url_components"@, uvn, s3);
            assert(s4.len() > 0 ==> s4[0].0 != "curl_command"@) by {
                match endpoint_pattern {
                    Some(_) => {
                        assert(s4[0].0 == "endpoint_pattern"@);
                    },
                    None => {
                        assert(s4 =~= f5);
                        match api_version {
                            Some(_) => {
                                assert(s4[0].0 == "api_version"@);
                            },
                            None => {},
                        }
                    },
                }
            }
            lemma_take_opt_str_at("curl_command"@, curl_command, s4);
            assert(f5.len() > 0 ==> f5[0].0 != "endpoint_pattern"@) by {
                match api_version {
                    Some(_) => {
                        assert(f5[0].0 == "api_version"@);
                    },
                    None => {},
                }
            }
            lemma_take_opt_str_at("endpoint_pattern"@, endpoint_pattern, f5);
            lemma_take_opt_str_at(
                "api_version"@,
                api_version,
                Seq::<(Seq<char>, JsonV)>::empty(),
            );
            match url_components {
                Some(u) => {
                    lemma_url_inverse(u);
                },
                None => {},
            }
        },
        _ => {},
    }
}

/// Reading back one event kind: see [`lemma_event_inverse`].
#[verifier::rlimit(100)]
#[verifier::spinoff_prover]
proof fn lemma_event_inverse_response(ev: EventV)
    requires
        wf_event(ev),
        ev is ProxyResponse,
    ensures
        event_to_jv(ev) is Obj,
        take_req_str(event_to_jv(ev)->Obj_0, "type"@) is Some,
        jv_to_event(
            take_req_str(event_to_jv(ev)->Obj_0, "type"@)->Some_0.0,
            take_req_str(event_to_jv(ev)->Obj_0, "type"@)->Some_0.1,
        ) == Some(ev),
{
    lemma_neq_event_tags();
    let q0 = event_to_jv(ev)->Obj_0;
    match ev {
        EventV::ProxyResponse { request_id, status, headers, body, duration_ms } => {
            lemma_str_pairs_inverse(headers);
            lemma_body_inverse(body);
            let t5 = seq![("duration_ms"@, JsonV::Int(duration_ms as int))];
            let t4 = seq![("body"@, body_to_jv(body))] + t5;
            let t3 = seq![("headers"@, str_map_jv(headers))] + t4;
            let t2 = seq![("status"@, JsonV::Int(status as int))] + t3;
            let t1 = seq![("request_id"@, JsonV::Str(request_id))] + t2;
            assert(q0 =~~= seq![("type"@, JsonV::Str("ProxyResponse"@))] + t1);
            lemma_take_req_str_at("type"@, "ProxyResponse"@, t1);
            lemma_take_req_str_at("request_id"@, request_id, t2);
            lemma_take_req_int_at("status"@, status as int, t3);
            lemma_take_req_jv_at("headers"@, str_map_jv(headers), t4);
            lemma_take_req_jv_at("body"@, body_to_jv(body), t5);
            lemma_take_req_int_at(
                "duration_ms"@,
                duration_ms as int,
                Seq::<(Seq<char>, JsonV)>::empty(),
            );
            assert(t5 =~= seq![("duration_ms"@, JsonV::Int(duration_ms as int))] + Seq::<
                (Seq<char>, JsonV),
            >::empty());
        },
        _ => {},
    }
}

/// Reading back one event kind: see [`lemma_event_inverse`].
#[verifier::rlimit(100)]
#[verifier::spinoff_prover]
proof fn lemma_event_inverse_debug(ev: EventV)
    requires
        wf_event(ev),
        ev is ProxyDebug,
    ensures
        event_to_jv(ev) is Obj,
        take_req_str(event_to_jv(ev)->Obj_0, "type"@) is Some,
        jv_to_event(
            take_req_str(event_to_jv(ev)->Obj_0, "type"@)->Some_0.0,
            take_req_str(event_to_jv(ev)->Obj_0, "type"@)->Some_0.1,
        ) == Some(ev),
{
    lemma_neq_event_tags();
    let q0 = event_to_jv(ev)->Obj_0;
    match ev {
        EventV::ProxyDebug { level, message, module, target, file, line } => {
            lemma_neq_debug_names();
            let linen = match line {
                Some(n) => Some(n as int),
                None => None,
            };
            let f1 = opt_str_field("module"@, module);
            let f2 = opt_str_field("target"@, target);
            let f3 = opt_str_field("file"@, file);
            let f4 = opt_int_field("line"@, linen);
            let r2 = seq![("message"@, JsonV::Str(message))] + (f1 + (f2 + (f3 + f4)));
            let r1 = seq![("level"@, JsonV::Str(level))] + r2;
            assert(q0 =~~= seq![("type"@, JsonV::Str("ProxyDebug"@))] + r1);
            lemma_take_req_str_at("type"@, "ProxyDebug"@, r1);
            lemma_take_req_str_at("level"@, level, r2);
            lemma_take_req_str_at("message"@, message, f1 + (f2 + (f3 + f4)));
            let s2 = f2 + (f3 + f4);
            let s3 = f3 + f4;
            assert(s2.len() > 0 ==> s2[0].0 != "module"@) by {
                match target {
                    Some(_) => {
                        assert(s2[0].0 == "target"@);
                    },
                    None => {
                        assert(s2 =~= s3);
                        match file {
                            Some(_) => {
                                assert(s2[0].0 == "file"@);
                            },
                            None => {
                                assert(s3 =~= f4);
                                match line {
                                    Some(_) => {
                                        assert(s2[0].0 == "line"@);
                                    },
                                    None => {},
                                }
                            },
                        }
                    },
                }
            }
            lemma_take_opt_str_at("module"@, module, s2);
            assert(s3.len() > 0 ==> s3[0].0 != "target"@) by {
                match file {
                    Some(_) => {
                        assert(s3[0].0 == "file"@);
                    },
                    None => {
                        assert(s3 =~= f4);
                        match line {
                            Some(_) => {
                                assert(s3[0].0 == "line"@);
                            },
                            None => {},
                        }
                    },
                }
            }
            lemma_take_opt_str_at("target"@, target, s3);
            assert(f4.len() > 0 ==> f4[0].0 != "file"@) by {
                match line {
                    Some(_) => {
                        assert(f4[0].0 == "line"@);
                    },
                    None => {},
                }
            }
            lemma_take_opt_str_at("file"@, file, f4);
            lemma_take_opt_int_at("line"@, linen, Seq::<(Seq<char>, JsonV)>::empty());
            assert(f4 =~= opt_int_field("line"@, linen) + Seq::<(Seq<char>, JsonV)>::empty());
        },

        _ => {},
    }
}

/// Reading an event back from its tagged object yields the same event.
proof fn lemma_event_inverse(ev: EventV)
    requires
        wf_event(ev),
    ensures
        event_to_jv(ev) is Obj,
        take_req_str(event_to_jv(ev)->Obj_0, "type"@) is Some,
        jv_to_event(
            take_req_str(event_to_jv(ev)->Obj_0, "type"@)->Some_0.0,
            take_req_str(event_to_jv(ev)->Obj_0, "type"@)->Some_0.1,
        ) == Some(ev),
{
    match ev {
        EventV::Mcp { .. } => lemma_event_inverse_mcp(ev),
        EventV::Hook { .. } => lemma_event_inverse_hook(ev),
        EventV::ProxyRequest { .. } => lemma_event_inverse_request(ev),
        EventV::ProxyResponse { .. } => lemma_event_inverse_response(ev),
        EventV::ProxyDebug { .. } => lemma_event_inverse_debug(ev),
    }
}

/// Reading a well-formed entry back from its JSON object yields it exactly.
pub proof fn lemma_entry_inverse(ev: EntryV)
    requires
        wf_entry(ev),
    ensures
        jv_to_entry(entry_to_jv(ev)) == Some(ev),
{
    lemma_event_inverse(ev.event);
    let p0 = entry_to_jv(ev)->Obj_0;
    let t5 = seq![("event"@, event_to_jv(ev.event))];
    let t4 = seq![("correlation_id"@, JsonV::Str(ev.correlation_id))] + t5;
    let t3 = seq![("session_id"@, JsonV::Str(ev.session_id))] + t4;
    let t2 = seq![("date"@, JsonV::Str(ev.date))] + t3;
    let t1 = seq![("timestamp"@, JsonV::Str(ev.timestamp))] + t2;
    assert(p0 =~~= seq![("schema_version"@, JsonV::Int(ev.schema_version as int))] + t1);
    lemma_take_req_int_at("schema_version"@, ev.schema_version as int, t1);
    lemma_take_req_str_at("timestamp"@, ev.timestamp, t2);
    lemma_take_req_str_at("date"@, ev.date, t3);
    lemma_take_req_str_at("session_id"@, ev.session_id, t4);
    lemma_take_req_str_at("correlation_id"@, ev.correlation_id, t5);
    lemma_take_req_jv_at("event"@, event_to_jv(ev.event), Seq::<(Seq<char>, JsonV)>::empty());
    assert(t5 =~= seq![("event"@, event_to_jv(ev.event))] + Seq::<(Seq<char>, JsonV)>::empty());
}

/// Round trip: deserializing a serialized well-formed entry yields it back.
pub proof fn lemma_entry_round_trip(ev: EntryV)
    requires
        wf_entry(ev),
    ensures
        entry_of_bytes(ser_entry(ev)) == Some(ev),
{
    lemma_entry_to_jv_wf(ev);
    lemma_json_round_trip(entry_to_jv(ev));
    lemma_entry_inverse(ev);
}

} // verus!

verus! {

// ---------------------------------------------------------------------------
// Executable serialization
// ---------------------------------------------------------------------------

/// String equality by UTF-8 bytes.
#[verifier::loop_isolation(false)]
pub fn str_eq(a: &str, b: &str) -> (r: bool)
    ensures
        r == (a@ == b@),
{
    let ab = a.as_bytes();
    let bb = b.as_bytes();
    proof {
        if a@ == b@ {
            assert(ab@ == bb@);
        }
    }
    if ab.len() != bb.len() {
        return false;
    }
    let mut k: usize = 0;
    while k < ab.len()
        invariant
            k <= ab@.len(),
            ab@.len() == bb@.len(),
            forall|q: int| 0 <= q < k ==> ab@[q] == bb@[q],
        decreases ab@.len() - k,
    {
        if ab[k] != bb[k] {
            return false;
        }
        k = k + 1;
    }
    proof {
        assert(ab@ =~= bb@);
        vstd::utf8::encode_utf8_decode_utf8(a@);
        vstd::utf8::encode_utf8_decode_utf8(b@);
        assert(a@ == vstd::utf8::decode_utf8(ab@));
        assert(b@ == vstd::utf8::decode_utf8(bb@));
    }
    true
}

/// A deep copy of a JSON value, preserving its model.
#[verifier::loop_isolation(false)]
pub fn json_clone(j: &Json) -> (r: Json)
    ensures
        r.model() == j.model(),
    decreases j,
{
    match j {
        Json::Null => Json::Null,
        Json::Bool(b) => Json::Bool(*b),
        Json::Int(i) => Json::Int(*i),
        Json::Num(n) => Json::Num(n.clone_lexeme()),
        Json::Str(s) => Json::Str(s.clone()),
        Json::Arr(items) => {
            let mut out: Vec<Json> = Vec::new();
            let mut k: usize = 0;
            while k < items.len()
                invariant
                    k <= items@.len(),
                    out@.len() == k,
                    models_of(out@) =~= models_of(items@).take(k as int),
                decreases items@.len() - k,
            {
                proof {
                    let jv = *j;
                    assert(decreases_to!(jv => jv->Arr_0[k as int]));
                    assert(jv->Arr_0[k as int] == items@[k as int]);
                }
                let c = json_clone(&items[k]);
                let ghost out0 = out@;
                out.push(c);
                proof {
                    lemma_models_of(out@);
                    lemma_models_of(out0);
                    lemma_models_of(items@);
                    assert(models_of(out@) =~= models_of(items@).take(k + 1));
                }
                k = k + 1;
            }
            proof {
                lemma_models_of(items@);
                assert(models_of(items@).take(items@.len() as int) =~= models_of(items@));
            }
            Json::Arr(out)
        },
        Json::Obj(pairs) => {
            let mut out: Vec<(String, Json)> = Vec::new();
            let mut k: usize = 0;
            while k < pairs.len()
                invariant
                    k <= pairs@.len(),
                    out@.len() == k,
                    pair_models_of(out@) =~= pair_models_of(pairs@).take(k as int),
                decreases pairs@.len() - k,
            {
                proof {
                    let jv = *j;
                    assert(decreases_to!(jv => jv->Obj_0[k as int].1));
                    assert(jv->Obj_0[k as int] == pairs@[k as int]);
                }
                let c = json_clone(&pairs[k].1);
                let name = pairs[k].0.clone();
                let ghost out0 = out@;
                out.push((name, c));
                proof {
                    lemma_pair_models_of(out@);
                    lemma_pair_models_of(out0);
                    lemma_pair_models_of(pairs@);
                    assert(pair_models_of(out@) =~= pair_models_of(pairs@).take(k + 1));
                }
                k = k + 1;
            }
            proof {
                lemma_pair_models_of(pairs@);
                assert(pair_models_of(pairs@).take(pairs@.len() as int) =~= pair_models_of(
                    pairs@,
                ));
            }
            Json::Obj(out)
        },
    }
}

/// Appending one member extends the model list by its model.
proof fn lemma_pair_models_snoc(v: Seq<(String, Json)>, x: (String, Json))
    ensures
        pair_models_of(v.push(x)) == pair_models_of(v) + seq![(x.0@, x.1.model())],
{
    lemma_pair_models_of(v.push(x));
    lemma_pair_models_of(v);
    assert(pair_models_of(v.push(x)) =~= pair_models_of(v) + seq![(x.0@, x.1.model())]);
}

/// A cloned string-pair list, as a JSON object of string members.
#[verifier::loop_isolation(false)]
fn headers_to_json(h: &Vec<(String, String)>) -> (r: Json)
    ensures
        r.model() == str_map_jv(str_pairs_model(h@)),
{
    let mut p: Vec<(String, Json)> = Vec::new();
    let mut k: usize = 0;
    while k < h.len()
        invariant
            k <= h@.len(),
            p@.len() == k,
            pair_models_of(p@) =~= Seq::new(
                k as nat,
                |q: int| (h@[q].0@, JsonV::Str(h@[q].1@)),
            ),
        decreases h@.len() - k,
    {
        let ghost p0 = p@;
        p.push((h[k].0.clone(), Json::Str(h[k].1.clone())));
        proof {
            lemma_pair_models_snoc(p0, (h@[k as int].0, Json::Str(h@[k as int].1)));
            assert(pair_models_of(p@) =~= Seq::new(
                (k + 1) as nat,
                |q: int| (h@[q].0@, JsonV::Str(h@[q].1@)),
            ));
        }
        k = k + 1;
    }
    proof {
        lemma_pair_models_of(p@);
        assert(pair_models_of(p@) =~= str_map_jv(str_pairs_model(h@))->Obj_0);
    }
    Json::Obj(p)
}

} // verus!

verus! {

/// URL components as an executable JSON object.
fn url_to_json(u: &UrlComponents) -> (r: Json)
    ensures
        r.model() == url_to_jv(u.model()),
{
    let mut p: Vec<(String, Json)> = Vec::new();
    let ghost um = u.model();
    p.push((String::from_str("scheme"), Json::Str(u.scheme.clone())));
    p.push((String::from_str("host"), Json::Str(u.host.clone())));
    let ghost base = seq![("scheme"@, JsonV::Str(um.scheme)), ("host"@, JsonV::Str(um.host))];
    proof {
        lemma_pair_models_of(p@);
        assert(pair_models_of(p@) =~= base);
    }
    let ghost pn = match um.port {
        Some(q) => Some(q as int),
        None => None,
    };
    match u.port {
        Some(q) => {
            let ghost p0 = p@;
            p.push((String::from_str("port"), Json::Int(q as i64)));
            proof {
                lemma_pair_models_snoc(p0, p@[p0.len() as int]);
                assert(pair_models_of(p@) =~= base + opt_int_field("port"@, pn));
            }
        },
        None => {
            proof {
                assert(pair_models_of(p@) =~= base + opt_int_field("port"@, pn));
            }
        },
    }
    let ghost mid = pair_models_of(p@);
    let ghost p1 = p@;
    p.push((String::from_str("path"), Json::Str(u.path.clone())));
    let ghost p2 = p@;
    p.push((String::from_str("query_params"), headers_to_json(&u.query_params)));
    proof {
        lemma_pair_models_snoc(p1, p2[p1.len() as int]);
        lemma_pair_models_snoc(p2, p@[p2.len() as int]);
        assert(pair_models_of(p@) =~= base + opt_int_field("port"@, pn) + seq![
            ("path"@, JsonV::Str(um.path)),
            ("query_params"@, str_map_jv(um.query_params)),
        ]);
    }
    Json::Obj(p)
}

/// Body content as an executable JSON object.
fn body_content_to_json(c: &BodyContent) -> (r: Json)
    ensures
        r.model() == body_content_to_jv(c.model()),
{
    let mut p: Vec<(String, Json)> = Vec::new();
    match c {
        BodyContent::Text { data } => {
            p.push((String::from_str("type"), Json::Str(String::from_str("Text"))));
            p.push((String::from_str("data"), Json::Str(data.clone())));
        },
        BodyContent::Binary { data } => {
            p.push((String::from_str("type"), Json::Str(String::from_str("Binary"))));
            p.push((String::from_str("data"), Json::Str(data.clone())));
        },
        BodyContent::Truncated { preview, reason } => {
            p.push((String::from_str("type"), Json::Str(String::from_str("Truncated"))));
            p.push((String::from_str("preview"), Json::Str(preview.clone())));
            p.push((String::from_str("reason"), Json::Str(reason.clone())));
        },
        BodyContent::DecompressionFailed { error } => {
            p.push((String::from_str("type"), Json::Str(String::from_str("DecompressionFailed"))));
            p.push((String::from_str("error"), Json::Str(error.clone())));
        },
        BodyContent::Empty => {
            p.push((String::from_str("type"), Json::Str(String::from_str("Empty"))));
        },
    }
    proof {
        lemma_pair_models_of(p@);
        assert(pair_models_of(p@) =~= body_content_to_jv(c.model())->Obj_0);
    }
    Json::Obj(p)
}

/// A captured body as an executable JSON object.
fn body_to_json(b: &BodyData) -> (r: Json)
    requires
        b.size_bytes <= i64::MAX,
        b.stored_size_bytes <= i64::MAX,
    ensures
        r.model() == body_to_jv(b.model()),
{
    let mut p: Vec<(String, Json)> = Vec::new();
    let ghost bm = b.model();
    match &b.original_encoding {
        Some(s) => {
            p.push((String::from_str("original_encoding"), Json::Str(s.clone())));
        },
        None => {},
    }
    let ghost f1 = opt_str_field("original_encoding"@, bm.original_encoding);
    proof {
        lemma_pair_models_of(p@);
        assert(pair_models_of(p@) =~= f1);
    }
    match &b.content_type {
        Some(s) => {
            let ghost p0 = p@;
            p.push((String::from_str("content_type"), Json::Str(s.clone())));
            proof {
                lemma_pair_models_snoc(p0, p@[p0.len() as int]);
            }
        },
        None => {},
    }
    let ghost f2 = opt_str_field("content_type"@, bm.content_type);
    proof {
        assert(pair_models_of(p@) =~= f1 + f2);
    }
    let ghost p1 = p@;
    p.push((String::from_str("size_bytes"), Json::Int(b.size_bytes as i64)));
    let ghost p2 = p@;
    p.push((String::from_str("stored_size_bytes"), Json::Int(b.stored_size_bytes as i64)));
    let ghost p3 = p@;
    p.push((String::from_str("truncated"), Json::Bool(b.truncated)));
    let ghost p4 = p@;
    p.push((String::from_str("content"), body_content_to_json(&b.content)));
    proof {
        lemma_pair_models_snoc(p1, p2[p1.len() as int]);
        lemma_pair_models_snoc(p2, p3[p2.len() as int]);
        lemma_pair_models_snoc(p3, p4[p3.len() as int]);
        lemma_pair_models_snoc(p4, p@[p4.len() as int]);
        assert(pair_models_of(p@) =~= f1 + f2 + seq![
            ("size_bytes"@, JsonV::Int(bm.size_bytes as int)),
            ("stored_size_bytes"@, JsonV::Int(bm.stored_size_bytes as int)),
            ("truncated"@, JsonV::Bool(bm.truncated)),
            ("content"@, body_content_to_jv(bm.content)),
        ]);
    }
    Json::Obj(p)
}

} // verus!

verus! {

/// An event as an executable tagged JSON object.
#[verifier::rlimit(100)]
#[verifier::spinoff_prover]
fn event_to_json(e: &LogEvent) -> (r: Json)
    requires
        wf_event(e.model()),
    ensures
        r.model() == event_to_jv(e.model()),
{
    let ghost em = e.model();
    let mut p: Vec<(String, Json)> = Vec::new();
    match e {
        LogEvent::Mcp(m) => {
            p.push((String::from_str("type"), Json::Str(String::from_str("Mcp"))));
            p.push((String::from_str("level"), Json::Str(m.level.clone())));
            p.push((String::from_str("message"), Json::Str(m.message.clone())));
            proof {
                lemma_pair_models_of(p@);
                assert(pair_models_of(p@) =~= event_to_jv(em)->Obj_0);
            }
        },
        LogEvent::Hook(h) => {
            p.push((String::from_str("type"), Json::Str(String::from_str("Hook"))));
            p.push((String::from_str("event_type"), Json::Str(h.event_type.clone())));
            let ghost s0 = seq![
                ("type"@, JsonV::Str("Hook"@)),
                ("event_type"@, JsonV::Str(em->Hook_event_type)),
            ];
            proof {
                lemma_pair_models_of(p@);
                assert(pair_models_of(p@) =~= s0);
            }
            match &h.tool_name {
                Some(s) => {
                    let ghost p0 = p@;
                    p.push((String::from_str("tool_name"), Json::Str(s.clone())));
                    proof {
                        lemma_pair_models_snoc(p0, p@[p0.len() as int]);
                    }
                },
                None => {},
            }
            let ghost f1 = opt_str_field("tool_name"@, em->Hook_tool_name);
            proof {
                assert(pair_models_of(p@) =~= s0 + f1);
            }
            match &h.tool_input {
                Some(j) => {
                    let ghost p0 = p@;
                    let c = json_clone(j);
                    p.push((String::from_str("tool_input"), c));
                    proof {
                        lemma_pair_models_snoc(p0, p@[p0.len() as int]);
                    }
                },
                None => {},
            }
            let ghost f2 = opt_jv_field("tool_input"@, em->Hook_tool_input);
            proof {
                assert(pair_models_of(p@) =~= s0 + f1 + f2);
            }
            match &h.transcript_path {
                Some(s) => {
                    let ghost p0 = p@;
                    p.push((String::from_str("transcript_path"), Json::Str(s.clone())));
                    proof {
                        lemma_pair_models_snoc(p0, p@[p0.len() as int]);
                    }
                },
                None => {},
            }
            let ghost f3 = opt_str_field("transcript_path"@, em->Hook_transcript_path);
            proof {
                assert(pair_models_of(p@) =~= s0 + f1 + f2 + f3);
            }
            match &h.cwd {
                Some(s) => {
                    let ghost p0 = p@;
                    p.push((String::from_str("cwd"), Json::Str(s.clone())));
                    proof {
                        lemma_pair_models_snoc(p0, p@[p0.len() as int]);
                    }
                },
                None => {},
            }
            let ghost f4 = opt_str_field("cwd"@, em->Hook_cwd);
            proof {
                assert(pair_models_of(p@) =~= s0 + f1 + f2 + f3 + f4);
            }
            let ghost pe = p@;
            let mut k: usize = 0;
            while k < h.extra.len()
                invariant
                    k <= h.extra@.len(),
                    pair_models_of(p@) =~= pair_models_of(pe) + pair_models_of(
                        h.extra@.take(k as int),
                    ),
                decreases h.extra@.len() - k,
            {
                let ghost p0 = p@;
                let c = json_clone(&h.extra[k].1);
                let name = h.extra[k].0.clone();
                p.push((name, c));
                proof {
                    lemma_pair_models_snoc(p0, p@[p0.len() as int]);
                    lemma_pair_models_of(h.extra@.take(k as int));
                    lemma_pair_models_of(h.extra@.take(k + 1));
                    lemma_pair_models_of(h.extra@);
                    assert(pair_models_of(p@) =~= pair_models_of(pe) + pair_models_of(
                        h.extra@.take(k + 1),
                    ));
                }
                k = k + 1;
            }
            proof {
                assert(h.extra@.take(h.extra@.len() as int) =~= h.extra@);
                assert(pair_models_of(p@) =~= s0 + f1 + f2 + f3 + f4 + pair_models_of(h.extra@));
                assert(pair_models_of(p@) =~= event_to_jv(em)->Obj_0);
            }
        },
        LogEvent::ProxyRequest(rq) => {
            p.push((String::from_str("type"), Json::Str(String::from_str("ProxyRequest"))));
            p.push((String::from_str("id"), Json::Str(rq.id.clone())));
            p.push((String::from_str("method"), Json::Str(rq.method.clone())));
            p.push((String::from_str("uri"), Json::Str(rq.uri.clone())));
            p.push((String::from_str("headers"), headers_to_json(&rq.headers)));
            p.push((String::from_str("body"), body_to_json(&rq.body)));
            let ghost s0 = seq![
                ("type"@, JsonV::Str("ProxyRequest"@)),
                ("id"@, JsonV::Str(em->ProxyRequest_id)),
                ("method"@, JsonV::Str(em->ProxyRequest_method)),
                ("uri"@, JsonV::Str(em->ProxyRequest_uri)),
                ("headers"@, str_map_jv(em->ProxyRequest_headers)),
                ("body"@, body_to_jv(em->ProxyRequest_body)),
            ];
            proof {
                lemma_pair_models_of(p@);
                assert(pair_models_of(p@) =~= s0);
            }
            match rq.tls_handshake_ms {
                Some(t) => {
                    let ghost p0 = p@;
                    p.push((String::from_str("tls_handshake_ms"), Json::Int(t as i64)));
                    proof {
                        lemma_pair_models_snoc(p0, p@[p0.len() as int]);
                    }
                },
                None => {},
            }
            let ghost f1 = opt_int_field(
                "tls_handshake_ms"@,
                match em->ProxyRequest_tls_handshake_ms {
                    Some(t) => Some(t as int),
                    None => None,
                },
            );
            proof {
                assert(pair_models_of(p@) =~= s0 + f1);
            }
            match &rq.url_components {
                Some(u) => {
                    let ghost p0 = p@;
                    p.push((String::from_str("url_components"), url_to_json(u)));
                    proof {
                        lemma_pair_models_snoc(p0, p@[p0.len() as int]);
                    }
                },
                None => {},
            }
            let ghost f2 = opt_jv_field(
                "url_components"@,
                match em->ProxyRequest_url_components {
                    Some(u) => Some(url_to_jv(u)),
                    None => None,
                },
            );
            proof {
                assert(pair_models_of(p@) =~= s0 + f1 + f2);
            }
            match &rq.curl_command {
                Some(s) => {
                    let ghost p0 = p@;
                    p.push((String::from_str("curl_command"), Json::Str(s.clone())));
                    proof {
                        lemma_pair_models_snoc(p0, p@[p0.len() as int]);
                    }
                },
                None => {},
            }
            let ghost f3 = opt_str_field("curl_command"@, em->ProxyRequest_curl_command);
            proof {
                assert(pair_models_of(p@) =~= s0 + f1 + f2 + f3);
            }
            match &rq.endpoint_pattern {
                Some(s) => {
                    let ghost p0 = p@;
                    p.push((String::from_str("endpoint_pattern"), Json::Str(s.clone())));
                    proof {
                        lemma_pair_models_snoc(p0, p@[p0.len() as int]);
                    }
                },
                None => {},
            }
            let ghost f4 = opt_str_field("endpoint_pattern"@, em->ProxyRequest_endpoint_pattern);
            proof {
                assert(pair_models_of(p@) =~= s0 + f1 + f2 + f3 + f4);
            }
            match &rq.api_version {
                Some(s) => {
                    let ghost p0 = p@;
                    p.push((String::from_str("api_version"), Json::Str(s.clone())));
                    proof {
                        lemma_pair_models_snoc(p0, p@[p0.len() as int]);
                    }
                },
                None => {},
            }
            let ghost f5 = opt_str_field("api_version"@, em->ProxyRequest_api_version);
            proof {
                assert(pair_models_of(p@) =~= s0 + f1 + f2 + f3 + f4 + f5);
                assert(pair_models_of(p@) =~= event_to_jv(em)->Obj_0);
            }
        },
        LogEvent::ProxyResponse(rs) => {
            p.push((String::from_str("type"), Json::Str(String::from_str("ProxyResponse"))));
            p.push((String::from_str("request_id"), Json::Str(rs.request_id.clone())));
            p.push((String::from_str("status"), Json::Int(rs.status as i64)));
            p.push((String::from_str("headers"), headers_to_json(&rs.headers)));
            p.push((String::from_str("body"), body_to_json(&rs.body)));
            p.push((String::from_str("duration_ms"), Json::Int(rs.duration_ms as i64)));
            proof {
                lemma_pair_models_of(p@);
                assert(pair_models_of(p@) =~= event_to_jv(em)->Obj_0);
            }
        },
        LogEvent::ProxyDebug(d) => {
            p.push((String::from_str("type"), Json::Str(String::from_str("ProxyDebug"))));
            p.push((String::from_str("level"), Json::Str(d.level.clone())));
            p.push((String::from_str("message"), Json::Str(d.message.clone())));
            let ghost s0 = seq![
                ("type"@, JsonV::Str("ProxyDebug"@)),
                ("level"@, JsonV::Str(em->ProxyDebug_level)),
                ("message"@, JsonV::Str(em->ProxyDebug_message)),
            ];
            proof {
                lemma_pair_models_of(p@);
                assert(pair_models_of(p@) =~= s0);
            }
            match &d.module {
                Some(s) => {
                    let ghost p0 = p@;
                    p.push((String::from_str("module"), Json::Str(s.clone())));
                    proof {
                        lemma_pair_models_snoc(p0, p@[p0.len() as int]);
                    }
                },
                None => {},
            }
            let ghost f1 = opt_str_field("module"@, em->ProxyDebug_module);
            proof {
                assert(pair_models_of(p@) =~= s0 + f1);
            }
            match &d.target {
                Some(s) => {
                    let ghost p0 = p@;
                    p.push((String::from_str("target"), Json::Str(s.clone())));
                    proof {
                        lemma_pair_models_snoc(p0, p@[p0.len() as int]);
                    }
                },
                None => {},
            }
            let ghost f2 = opt_str_field("target"@, em->ProxyDebug_target);
            proof {
                assert(pair_models_of(p@) =~= s0 + f1 + f2);
            }
            match &d.file {
                Some(s) => {
                    let ghost p0 = p@;
                    p.push((String::from_str("file"), Json::Str(s.clone())));
                    proof {
                        lemma_pair_models_snoc(p0, p@[p0.len() as int]);
                    }
                },
                None => {},
            }
            let ghost f3 = opt_str_field("file"@, em->ProxyDebug_file);
            proof {
                assert(pair_models_of(p@) =~= s0 + f1 + f2 + f3);
            }
            match d.line {
                Some(n) => {
                    let ghost p0 = p@;
                    p.push((String::from_str("line"), Json::Int(n as i64)));
                    proof {
                        lemma_pair_models_snoc(p0, p@[p0.len() as int]);
                    }
                },
                None => {},
            }
            let ghost f4 = opt_int_field(
                "line"@,
                match em->ProxyDebug_line {
                    Some(n) => Some(n as int),
                    None => None,
                },
            );
            proof {
                assert(pair_models_of(p@) =~= s0 + f1 + f2 + f3 + f4);
                assert(pair_models_of(p@) =~= event_to_jv(em)->Obj_0);
            }
        },
    }
    Json::Obj(p)
}

/// An entry as its executable JSON object.
pub fn entry_to_json(e: &LogEntry) -> (r: Json)
    requires
        wf_entry(e.model()),
    ensures
        r.model() == entry_to_jv(e.model()),
{
    let mut p: Vec<(String, Json)> = Vec::new();
    p.push((String::from_str("schema_version"), Json::Int(e.schema_version as i64)));
    p.push((String::from_str("timestamp"), Json::Str(e.timestamp.clone())));
    p.push((String::from_str("date"), Json::Str(e.date.clone())));
    p.push((String::from_str("session_id"), Json::Str(e.session_id.clone())));
    p.push((String::from_str("correlation_id"), Json::Str(e.correlation_id.clone())));
    p.push((String::from_str("event"), event_to_json(&e.event)));
    proof {
        lemma_pair_models_of(p@);
        assert(pair_models_of(p@) =~= entry_to_jv(e.model())->Obj_0);
    }
    Json::Obj(p)
}

/// The canonical serialized bytes of an entry: one compact JSON document.
pub fn serialize_entry(e: &LogEntry) -> (r: Vec<u8>)
    requires
        wf_entry(e.model()),
    ensures
        r@ == ser_entry(e.model()),
{
    let j = entry_to_json(e);
    json_to_bytes(&j)
}

} // verus!

verus! {

// ---------------------------------------------------------------------------
// Executable deserialization
// ---------------------------------------------------------------------------

/// The member-model list, one position onward.
proof fn lemma_suffix(p: Seq<(String, Json)>, i: int)
    requires
        0 <= i <= p.len(),
    ensures
        pair_models_of(p).skip(i).len() == p.len() - i,
        i < p.len() ==> pair_models_of(p).skip(i)[0] == (p[i].0@, p[i].1.model()),
        i < p.len() ==> pair_models_of(p).skip(i).drop_first() == pair_models_of(p).skip(i + 1),
{
    lemma_pair_models_of(p);
    if i < p.len() {
        assert(pair_models_of(p).skip(i).drop_first() =~= pair_models_of(p).skip(i + 1));
    }
}

/// Required string member at position `i`.
fn tk_req_str(pairs: &Vec<(String, Json)>, i: usize, name: &str) -> (r: Option<(String, usize)>)
    requires
        i <= pairs@.len(),
    ensures
        ({
            let pm = pair_models_of(pairs@);
            match r {
                Some((s, i2)) => take_req_str(pm.skip(i as int), name@) == Some(
                    (s@, pm.skip(i2 as int)),
                ) && i < i2 <= pairs@.len(),
                None => take_req_str(pm.skip(i as int), name@) is None,
            }
        }),
{
    proof {
        lemma_suffix(pairs@, i as int);
    }
    if i < pairs.len() {
        if str_eq(pairs[i].0.as_str(), name) {
            match &pairs[i].1 {
                Json::Str(s) => Some((s.clone(), i + 1)),
                _ => None,
            }
        } else {
            None
        }
    } else {
        None
    }
}

/// Required integer member at position `i`.
fn tk_req_int(pairs: &Vec<(String, Json)>, i: usize, name: &str) -> (r: Option<(i64, usize)>)
    requires
        i <= pairs@.len(),
    ensures
        ({
            let pm = pair_models_of(pairs@);
            match r {
                Some((n, i2)) => take_req_int(pm.skip(i as int), name@) == Some(
                    (n as int, pm.skip(i2 as int)),
                ) && i < i2 <= pairs@.len(),
                None => take_req_int(pm.skip(i as int), name@) is None,
            }
        }),
{
    proof {
        lemma_suffix(pairs@, i as int);
    }
    if i < pairs.len() {
        if str_eq(pairs[i].0.as_str(), name) {
            match &pairs[i].1 {
                Json::Int(n) => Some((*n, i + 1)),
                _ => None,
            }
        } else {
            None
        }
    } else {
        None
    }
}

/// Required boolean member at position `i`.
fn tk_req_bool(pairs: &Vec<(String, Json)>, i: usize, name: &str) -> (r: Option<(bool, usize)>)
    requires
        i <= pairs@.len(),
    ensures
        ({
            let pm = pair_models_of(pairs@);
            match r {
                Some((b, i2)) => take_req_bool(pm.skip(i as int), name@) == Some(
                    (b, pm.skip(i2 as int)),
                ) && i < i2 <= pairs@.len(),
                None => take_req_bool(pm.skip(i as int), name@) is None,
            }
        }),
{
    proof {
        lemma_suffix(pairs@, i as int);
    }
    if i < pairs.len() {
        if str_eq(pairs[i].0.as_str(), name) {
            match &pairs[i].1 {
                Json::Bool(b) => Some((*b, i + 1)),
                _ => None,
            }
        } else {
            None
        }
    } else {
        None
    }
}

/// Required member of any shape at position `i`, copied out.
fn tk_req_jv(pairs: &Vec<(String, Json)>, i: usize, name: &str) -> (r: Option<(Json, usize)>)
    requires
        i <= pairs@.len(),
    ensures
        ({
            let pm = pair_models_of(pairs@);
            match r {
                Some((v, i2)) => take_req_jv(pm.skip(i as int), name@) == Some(
                    (v.model(), pm.skip(i2 as int)),
                ) && i < i2 <= pairs@.len(),
                None => take_req_jv(pm.skip(i as int), name@) is None,
            }
        }),
{
    proof {
        lemma_suffix(pairs@, i as int);
    }
    if i < pairs.len() {
        if str_eq(pairs[i].0.as_str(), name) {
            Some((json_clone(&pairs[i].1), i + 1))
        } else {
            None
        }
    } else {
        None
    }
}

/// Optional string member at position `i`.
fn tk_opt_str(pairs: &Vec<(String, Json)>, i: usize, name: &str) -> (r: Option<
    (Option<String>, usize),
>)
    requires
        i <= pairs@.len(),
    ensures
        ({
            let pm = pair_models_of(pairs@);
            match r {
                Some((v, i2)) => take_opt_str(pm.skip(i as int), name@) == Some(
                    (opt_str_model(v), pm.skip(i2 as int)),
                ) && i <= i2 <= pairs@.len(),
                None => take_opt_str(pm.skip(i as int), name@) is None,
            }
        }),
{
    proof {
        lemma_suffix(pairs@, i as int);
    }
    if i < pairs.len() {
        if str_eq(pairs[i].0.as_str(), name) {
            match &pairs[i].1 {
                Json::Str(s) => Some((Some(s.clone()), i + 1)),
                Json::Null => Some((None, i + 1)),
                _ => None,
            }
        } else {
            Some((None, i))
        }
    } else {
        Some((None, i))
    }
}

/// Optional integer member at position `i`.
fn tk_opt_int(pairs: &Vec<(String, Json)>, i: usize, name: &str) -> (r: Option<
    (Option<i64>, usize),
>)
    requires
        i <= pairs@.len(),
    ensures
        ({
            let pm = pair_models_of(pairs@);
            match r {
                Some((v, i2)) => take_opt_int(pm.skip(i as int), name@) == Some(
                    (
                        match v {
                            Some(n) => Some(n as int),
                            None => None,
                        },
                        pm.skip(i2 as int),
                    ),
                ) && i <= i2 <= pairs@.len(),
                None => take_opt_int(pm.skip(i as int), name@) is None,
            }
        }),
{
    proof {
        lemma_suffix(pairs@, i as int);
    }
    if i < pairs.len() {
        if str_eq(pairs[i].0.as_str(), name) {
            match &pairs[i].1 {
                Json::Int(n) => Some((Some(*n), i + 1)),
                Json::Null => Some((None, i + 1)),
                _ => None,
            }
        } else {
            Some((None, i))
        }
    } else {
        Some((None, i))
    }
}

/// Optional structured member at position `i`, copied out.
fn tk_opt_jv(pairs: &Vec<(String, Json)>, i: usize, name: &str) -> (r: Option<
    (Option<Json>, usize),
>)
    requires
        i <= pairs@.len(),
    ensures
        ({
            let pm = pair_models_of(pairs@);
            match r {
                Some((v, i2)) => take_opt_jv(pm.skip(i as int), name@) == Some(
                    (
                        match v {
                            Some(j) => Some(j.model()),
                            None => None,
                        },
                        pm.skip(i2 as int),
                    ),
                ) && i <= i2 <= pairs@.len(),
                None => take_opt_jv(pm.skip(i as int), name@) is None,
            }
        }),
{
    proof {
        lemma_suffix(pairs@, i as int);
    }
    if i < pairs.len() {
        if str_eq(pairs[i].0.as_str(), name) {
            match &pairs[i].1 {
                Json::Null => Some((None, i + 1)),
                _ => Some((Some(json_clone(&pairs[i].1)), i + 1)),
            }
        } else {
            Some((None, i))
        }
    } else {
        Some((None, i))
    }
}

/// A string map read back from a JSON value.
#[verifier::loop_isolation(false)]
fn json_to_headers(j: &Json) -> (r: Option<Vec<(String, String)>>)
    ensures
        match r {
            Some(v) => jv_to_str_pairs(j.model()) == Some(str_pairs_model(v@)),
            None => jv_to_str_pairs(j.model()) is None,
        },
{
    match j {
        Json::Obj(pairs) => {
            let ghost pm = pair_models_of(pairs@);
            proof {
                lemma_pair_models_of(pairs@);
            }
            let mut out: Vec<(String, String)> = Vec::new();
            let mut k: usize = 0;
            while k < pairs.len()
                invariant
                    k <= pairs@.len(),
                    out@.len() == k,
                    forall|q: int| 0 <= q < k ==> (#[trigger] pm[q].1) is Str,
                    forall|q: int|
                        0 <= q < k ==> (#[trigger] out@[q].0@, out@[q].1@) == (
                            pm[q].0,
                            pm[q].1->Str_0,
                        ),
                decreases pairs@.len() - k,
            {
                match &pairs[k].1 {
                    Json::Str(s) => {
                        out.push((pairs[k].0.clone(), s.clone()));
                    },
                    _ => {
                        proof {
                            assert(!(pm[k as int].1 is Str));
                        }
                        return None;
                    },
                }
                k = k + 1;
            }
            proof {
                assert(forall|q: int| 0 <= q < pm.len() ==> (#[trigger] pm[q].1) is Str);
                assert(str_pairs_model(out@) =~~= Seq::new(
                    pm.len(),
                    |q: int| (pm[q].0, pm[q].1->Str_0),
                ));
            }
            Some(out)
        },
        _ => None,
    }
}

} // verus!

verus! {

/// URL components read back from a JSON value.
fn json_to_url(j: &Json) -> (r: Option<UrlComponents>)
    ensures
        match r {
            Some(u) => jv_to_url(j.model()) == Some(u.model()),
            None => jv_to_url(j.model()) is None,
        },
{
    match j {
        Json::Obj(pairs) => {
            let ghost pm = pair_models_of(pairs@);
            proof {
                assert(pm.skip(0) =~= pm);
            }
            match tk_req_str(pairs, 0, "scheme") {
                None => None,
                Some((scheme, i1)) => match tk_req_str(pairs, i1, "host") {
                    None => None,
                    Some((host, i2)) => match tk_opt_int(pairs, i2, "port") {
                        None => None,
                        Some((port, i3)) => match tk_req_str(pairs, i3, "path") {
                            None => None,
                            Some((path, i4)) => match tk_req_jv(pairs, i4, "query_params") {
                                None => None,
                                Some((qv, i5)) => match json_to_headers(&qv) {
                                    None => None,
                                    Some(query_params) => {
                                        proof {
                                            lemma_suffix(pairs@, i5 as int);
                                        }
                                        if i5 != pairs.len() {
                                            return None;
                                        }
                                        match port {
                                            Some(n) => {
                                                if 0 <= n && n <= 65535 {
                                                    Some(
                                                        UrlComponents {
                                                            scheme,
                                                            host,
                                                            port: Some(n as u16),
                                                            path,
                                                            query_params,
                                                        },
                                                    )
                                                } else {
                                                    None
                                                }
                                            },
                                            None => Some(
                                                UrlComponents {
                                                    scheme,
                                                    host,
                                                    port: None,
                                                    path,
                                                    query_params,
                                                },
                                            ),
                                        }
                                    },
                                },
                            },
                        },
                    },
                },
            }
        },
        _ => None,
    }
}

/// Body content read back from a JSON value.
fn json_to_body_content(j: &Json) -> (r: Option<BodyContent>)
    ensures
        match r {
            Some(c) => jv_to_body_content(j.model()) == Some(c.model()),
            None => jv_to_body_content(j.model()) is None,
        },
{
    match j {
        Json::Obj(pairs) => {
            let ghost pm = pair_models_of(pairs@);
            proof {
                assert(pm.skip(0) =~= pm);
            }
            match tk_req_str(pairs, 0, "type") {
                None => None,
                Some((tag, i1)) => {
                    if str_eq(tag.as_str(), "Text") {
                        match tk_req_str(pairs, i1, "data") {
                            None => None,
                            Some((data, i2)) => {
                                proof {
                                    lemma_suffix(pairs@, i2 as int);
                                }
                                if i2 == pairs.len() {
                                    Some(BodyContent::Text { data })
                                } else {
                                    None
                                }
                            },
                        }
                    } else if str_eq(tag.as_str(), "Binary") {
                        match tk_req_str(pairs, i1, "data") {
                            None => None,
                            Some((data, i2)) => {
                                proof {
                                    lemma_suffix(pairs@, i2 as int);
                                }
                                if i2 == pairs.len() {
                                    Some(BodyContent::Binary { data })
                                } else {
                                    None
                                }
                            },
                        }
                    } else if str_eq(tag.as_str(), "Truncated") {
                        match tk_req_str(pairs, i1, "preview") {
                            None => None,
                            Some((preview, i2)) => match tk_req_str(pairs, i2, "reason") {
                                None => None,
                                Some((reason, i3)) => {
                                    proof {
                                        lemma_suffix(pairs@, i3 as int);
                                    }
                                    if i3 == pairs.len() {
                                        Some(BodyContent::Truncated { preview, reason })
                                    } else {
                                        None
                                    }
                                },
                            },
                        }
                    } else if str_eq(tag.as_str(), "DecompressionFailed") {
                        match tk_req_str(pairs, i1, "error") {
                            None => None,
                            Some((error, i2)) => {
                                proof {
                                    lemma_suffix(pairs@, i2 as int);
                                }
                                if i2 == pairs.len() {
                                    Some(BodyContent::DecompressionFailed { error })
                                } else {
                                    None
                                }
                            },
                        }
                    } else if str_eq(tag.as_str(), "Empty") {
                        proof {
                            lemma_suffix(pairs@, i1 as int);
                        }
                        if i1 == pairs.len() {
                            Some(BodyContent::Empty)
                        } else {
                            None
                        }
                    } else {
                        None
                    }
                },
            }
        },
        _ => None,
    }
}

/// A captured body read back from a JSON value.
fn json_to_body(j: &Json) -> (r: Option<BodyData>)
    ensures
        match r {
            Some(b) => jv_to_body(j.model()) == Some(b.model()),
            None => jv_to_body(j.model()) is None,
        },
{
    match j {
        Json::Obj(pairs) => {
            let ghost pm = pair_models_of(pairs@);
            proof {
                assert(pm.skip(0) =~= pm);
            }
            match tk_opt_str(pairs, 0, "original_encoding") {
                None => None,
                Some((original_encoding, i1)) => match tk_opt_str(pairs, i1, "content_type") {
                    None => None,
                    Some((content_type, i2)) => match tk_req_int(pairs, i2, "size_bytes") {
                        None => None,
                        Some((size_bytes, i3)) => match tk_req_int(
                            pairs,
                            i3,
                            "stored_size_bytes",
                        ) {
                            None => None,
                            Some((stored_size_bytes, i4)) => match tk_req_bool(
                                pairs,
                                i4,
                                "truncated",
                            ) {
                                None => None,
                                Some((truncated, i5)) => match tk_req_jv(pairs, i5, "content") {
                                    None => None,
                                    Some((cv, i6)) => match json_to_body_content(&cv) {
                                        None => None,
                                        Some(content) => {
                                            proof {
                                                lemma_suffix(pairs@, i6 as int);
                                            }
                                            if i6 == pairs.len() && 0 <= size_bytes && 0
                                                <= stored_size_bytes {
                                                Some(
                                                    BodyData {
                                                        original_encoding,
                                                        content_type,
                                                        size_bytes: size_bytes as u64,
                                                        stored_size_bytes: stored_size_bytes
                                                            as u64,
                                                        truncated,
                                                        content,
                                                    },
                                                )
                                            } else {
                                                None
                                            }
                                        },
                                    },
                                },
                            },
                        },
                    },
                },
            }
        },
        _ => None,
    }
}

} // verus!

verus! {

/// The members from position `i` onward, copied out.
#[verifier::loop_isolation(false)]
fn copy_rest(pairs: &Vec<(String, Json)>, i: usize) -> (r: Vec<(String, Json)>)
    requires
        i <= pairs@.len(),
    ensures
        pair_models_of(r@) == pair_models_of(pairs@).skip(i as int),
{
    let ghost pm = pair_models_of(pairs@);
    proof {
        lemma_pair_models_of(pairs@);
    }
    let mut out: Vec<(String, Json)> = Vec::new();
    let mut k: usize = i;
    while k < pairs.len()
        invariant
            i <= k <= pairs@.len(),
            out@.len() == k - i,
            pair_models_of(out@) =~= pm.skip(i as int).take(k - i),
        decreases pairs@.len() - k,
    {
        let ghost out0 = out@;
        let c = json_clone(&pairs[k].1);
        out.push((pairs[k].0.clone(), c));
        proof {
            lemma_pair_models_snoc(out0, out@[out0.len() as int]);
            assert(pair_models_of(out@) =~= pm.skip(i as int).take(k + 1 - i));
        }
        k = k + 1;
    }
    proof {
        assert(pm.skip(i as int).take(pairs@.len() - i) =~= pm.skip(i as int));
    }
    out
}

/// An event read back from its tagged object's members.
#[verifier::rlimit(100)]
#[verifier::spinoff_prover]
fn json_to_event(tag: &String, pairs: &Vec<(String, Json)>, i1: usize) -> (r: Option<LogEvent>)
    requires
        i1 <= pairs@.len(),
    ensures
        ({
            let q1 = pair_models_of(pairs@).skip(i1 as int);
            match r {
                Some(e) => jv_to_event(tag@, q1) == Some(e.model()),
                None => jv_to_event(tag@, q1) is None,
            }
        }),
{
    if str_eq(tag.as_str(), "Mcp") {
        match tk_req_str(pairs, i1, "level") {
            None => None,
            Some((level, i2)) => match tk_req_str(pairs, i2, "message") {
                None => None,
                Some((message, i3)) => {
                    proof {
                        lemma_suffix(pairs@, i3 as int);
                    }
                    if i3 == pairs.len() {
                        Some(LogEvent::Mcp(McpLogEvent { level, message }))
                    } else {
                        None
                    }
                },
            },
        }
    } else if str_eq(tag.as_str(), "Hook") {
        match tk_req_str(pairs, i1, "event_type") {
            None => None,
            Some((event_type, i2)) => match tk_opt_str(pairs, i2, "tool_name") {
                None => None,
                Some((tool_name, i3)) => match tk_opt_jv(pairs, i3, "tool_input") {
                    None => None,
                    Some((tool_input, i4)) => match tk_opt_str(pairs, i4, "transcript_path") {
                        None => None,
                        Some((transcript_path, i5)) => match tk_opt_str(pairs, i5, "cwd") {
                            None => None,
                            Some((cwd, i6)) => {
                                let extra = copy_rest(pairs, i6);
                                Some(
                                    LogEvent::Hook(
                                        HookLogEvent {
                                            event_type,
                                            tool_name,
                                            tool_input,
                                            transcript_path,
                                            cwd,
                                            extra,
                                        },
                                    ),
                                )
                            },
                        },
                    },
                },
            },
        }
    } else if str_eq(tag.as_str(), "ProxyRequest") {
        match tk_req_str(pairs, i1, "id") {
            None => None,
            Some((id, i2)) => match tk_req_str(pairs, i2, "method") {
                None => None,
                Some((method, i3)) => match tk_req_str(pairs, i3, "uri") {
                    None => None,
                    Some((uri, i4)) => match tk_req_jv(pairs, i4, "headers") {
                        None => None,
                        Some((hv, i5)) => match json_to_headers(&hv) {
                            None => None,
                            Some(headers) => match tk_req_jv(pairs, i5, "body") {
                                None => None,
                                Some((bv, i6)) => match json_to_body(&bv) {
                                    None => None,
                                    Some(body) => match tk_opt_int(
                                        pairs,
                                        i6,
                                        "tls_handshake_ms",
                                    ) {
                                        None => None,
                                        Some((tls, i7)) => match tk_opt_jv(
                                            pairs,
                                            i7,
                                            "url_components",
                                        ) {
                                            None => None,
                                            Some((uv, i8)) => match tk_opt_str(
                                                pairs,
                                                i8,
                                                "curl_command",
                                            ) {
                                                None => None,
                                                Some((curl_command, i9)) => match tk_opt_str(
                                                    pairs,
                                                    i9,
                                                    "endpoint_pattern",
                                                ) {
                                                    None => None,
                                                    Some((endpoint_pattern, i10)) => match
                                                        tk_opt_str(pairs, i10, "api_version") {
                                                        None => None,
                                                        Some((api_version, i11)) => {
                                                            proof {
                                                                lemma_suffix(
                                                                    pairs@,
                                                                    i11 as int,
                                                                );
                                                            }
                                                            if i11 != pairs.len() {
                                                                return None;
                                                            }
                                                            let tls_ok: Option<u64> = match tls {
                                                                Some(t) => {
                                                                    if t < 0 {
                                                                        return None;
                                                                    }
                                                                    Some(t as u64)
                                                                },
                                                                None => None,
                                                            };
                                                            let url_components: Option<
                                                                UrlComponents,
                                                            > = match uv {
                                                                Some(u) => {
                                                                    match json_to_url(&u) {
                                                                        Some(uu) => Some(uu),
                                                                        None => {
                                                                            return None;
                                                                        },
                                                                    }
                                                                },
                                                                None => None,
                                                            };
                                                            Some(
                                                                LogEvent::ProxyRequest(
                                                                    ProxyRequestEvent {
                                                                        id,
                                                                        method,
                                                                        uri,
                                                                        headers,
                                                                        body,
                                                                        tls_handshake_ms:
                                                                            tls_ok,
                                                                        url_components,
                                                                        curl_command,
                                                                        endpoint_pattern,
                                                                        api_version,
                                                                    },
                                                                ),
                                                            )
                                                        },
                                                    },
                                                },
                                            },
                                        },
                                    },
                                },
                            },
                        },
                    },
                },
            },
        }
    } else if str_eq(tag.as_str(), "ProxyResponse") {
        match tk_req_str(pairs, i1, "request_id") {
            None => None,
            Some((request_id, i2)) => match tk_req_int(pairs, i2, "status") {
                None => None,
                Some((status, i3)) => match tk_req_jv(pairs, i3, "headers") {
                    None => None,
                    Some((hv, i4)) => match json_to_headers(&hv) {
                        None => None,
                        Some(headers) => match tk_req_jv(pairs, i4, "body") {
                            None => None,
                            Some((bv, i5)) => match json_to_body(&bv) {
                                None => None,
                                Some(body) => match tk_req_int(pairs, i5, "duration_ms") {
                                    None => None,
                                    Some((duration_ms, i6)) => {
                                        proof {
                                            lemma_suffix(pairs@, i6 as int);
                                        }
                                        if i6 == pairs.len() && 0 <= status && status <= 65535
                                            && 0 <= duration_ms {
                                            Some(
                                                LogEvent::ProxyResponse(
                                                    ProxyResponseEvent {
                                                        request_id,
                                                        status: status as u16,
                                                        headers,
                                                        body,
                                                        duration_ms: duration_ms as u64,
                                                    },
                                                ),
                                            )
                                        } else {
                                            None
                                        }
                                    },
                                },
                            },
                        },
                    },
                },
            },
        }
    } else if str_eq(tag.as_str(), "ProxyDebug") {
        match tk_req_str(pairs, i1, "level") {
            None => None,
            Some((level, i2)) => match tk_req_str(pairs, i2, "message") {
                None => None,
                Some((message, i3)) => match tk_opt_str(pairs, i3, "module") {
                    None => None,
                    Some((module, i4)) => match tk_opt_str(pairs, i4, "target") {
                        None => None,
                        Some((target, i5)) => match tk_opt_str(pairs, i5, "file") {
                            None => None,
                            Some((file, i6)) => match tk_opt_int(pairs, i6, "line") {
                                None => None,
                                Some((line, i7)) => {
                                    proof {
                                        lemma_suffix(pairs@, i7 as int);
                                    }
                                    if i7 != pairs.len() {
                                        return None;
                                    }
                                    match line {
                                        Some(n) => {
                                            if 0 <= n && n <= 4294967295i64 {
                                                Some(
                                                    LogEvent::ProxyDebug(
                                                        ProxyDebugEvent {
                                                            level,
                                                            message,
                                                            module,
                                                            target,
                                                            file,
                                                            line: Some(n as u32),
                                                        },
                                                    ),
                                                )
                                            } else {
                                                None
                                            }
                                        },
                                        None => Some(
                                            LogEvent::ProxyDebug(
                                                ProxyDebugEvent {
                                                    level,
                                                    message,
                                                    module,
                                                    target,
                                                    file,
                                                    line: None,
                                                },
                                            ),
                                        ),
                                    }
                                },
                            },
                        },
                    },
                },
            },
        }
    } else {
        None
    }
}

/// An entry read back from a JSON value.
pub fn entry_from_json(j: &Json) -> (r: Option<LogEntry>)
    ensures
        match r {
            Some(e) => jv_to_entry(j.model()) == Some(e.model()),
            None => jv_to_entry(j.model()) is None,
        },
{
    match j {
        Json::Obj(pairs) => {
            let ghost pm = pair_models_of(pairs@);
            proof {
                assert(pm.skip(0) =~= pm);
            }
            match tk_req_int(pairs, 0, "schema_version") {
                None => None,
                Some((sv, i1)) => match tk_req_str(pairs, i1, "timestamp") {
                    None => None,
                    Some((timestamp, i2)) => match tk_req_str(pairs, i2, "date") {
                        None => None,
                        Some((date, i3)) => match tk_req_str(pairs, i3, "session_id") {
                            None => None,
                            Some((session_id, i4)) => match tk_req_str(
                                pairs,
                                i4,
                                "correlation_id",
                            ) {
                                None => None,
                                Some((correlation_id, i5)) => match tk_req_jv(
                                    pairs,
                                    i5,
                                    "event",
                                ) {
                                    None => None,
                                    Some((evj, i6)) => match &evj {
                                        Json::Obj(q) => {
                                            let ghost qm = pair_models_of(q@);
                                            proof {
                                                assert(qm.skip(0) =~= qm);
                                            }
                                            match tk_req_str(q, 0, "type") {
                                                None => None,
                                                Some((tag, q1)) => match json_to_event(
                                                    &tag,
                                                    q,
                                                    q1,
                                                ) {
                                                    None => None,
                                                    Some(event) => {
                                                        proof {
                                                            lemma_suffix(pairs@, i6 as int);
                                                        }
                                                        if i6 == pairs.len() && 0 <= sv && sv
                                                            <= 4294967295i64 {
                                                            Some(
                                                                LogEntry {
                                                                    schema_version: sv as u32,
                                                                    timestamp,
                                                                    date,
                                                                    session_id,
                                                                    correlation_id,
                                                                    event,
                                                                },
                                                            )
                                                        } else {
                                                            None
                                                        }
                                                    },
                                                },
                                            }
                                        },
                                        _ => None,
                                    },
                                },
                            },
                        },
                    },
                },
            }
        },
        _ => None,
    }
}

/// One log line parsed back into an entry: JSON text, then the entry shape.
pub fn parse_entry_line(bytes: &[u8]) -> (r: Option<LogEntry>)
    ensures
        match r {
            Some(e) => entry_of_bytes(bytes@) == Some(e.model()),
            None => entry_of_bytes(bytes@) is None,
        },
{
    match parse_json(bytes) {
        Some(j) => entry_from_json(&j),
        None => None,
    }
}

} // verus!
