//! Hook intake: one JSON document becomes one hook event.
//!
//! The payload's known fields are read by name wherever they stand; a
//! field of the wrong shape counts as absent, and every other member is
//! kept as an extra field, serialized beside the known ones. The caller
//! supplies a fresh session identifier for a payload that names none.

use vstd::prelude::*;
use crate::json::{Json, JsonV, pair_models_of, lemma_pair_models_of};
use crate::schema::{LogEntry, hook_reserved_name};
use crate::codec::str_eq;
use vstd::string::StringExecFns;

verus! {

/// The first string value under a name in a member list, read loosely: a
/// member of another shape is passed over.
pub open spec fn loose_str_field(
    pairs: Seq<(Seq<char>, JsonV)>,
    name: Seq<char>,
) -> Option<Seq<char>>
    decreases pairs.len(),
{
    if pairs.len() == 0 {
        None
    } else if pairs[0].0 == name && pairs[0].1 is Str {
        Some(pairs[0].1->Str_0)
    } else {
        loose_str_field(pairs.drop_first(), name)
    }
}

/// The first value of any shape under a name in a member list.
pub open spec fn loose_jv_field(pairs: Seq<(Seq<char>, JsonV)>, name: Seq<char>) -> Option<JsonV>
    decreases pairs.len(),
{
    if pairs.len() == 0 {
        None
    } else if pairs[0].0 == name && !(pairs[0].1 is Null) {
        Some(pairs[0].1)
    } else {
        loose_jv_field(pairs.drop_first(), name)
    }
}

/// Read the first string value under a name.
#[verifier::loop_isolation(false)]
fn read_str_field(pairs: &Vec<(String, Json)>, name: &str) -> (r: Option<String>)
    ensures
        (match r {
            Some(s) => loose_str_field(pair_models_of(pairs@), name@) == Some(s@),
            None => loose_str_field(pair_models_of(pairs@), name@) is None,
        }),
{
    let ghost pm = pair_models_of(pairs@);
    proof {
        lemma_pair_models_of(pairs@);
        assert(pm.skip(0) =~= pm);
    }
    let mut k: usize = 0;
    while k < pairs.len()
        invariant
            k <= pairs@.len(),
            loose_str_field(pm, name@) == loose_str_field(pm.skip(k as int), name@),
        decreases pairs@.len() - k,
    {
        proof {
            assert(pm.skip(k as int)[0] == (pairs@[k as int].0@, pairs@[k as int].1.model()));
            assert(pm.skip(k as int).drop_first() =~= pm.skip(k + 1));
        }
        if str_eq(pairs[k].0.as_str(), name) {
            match &pairs[k].1 {
                Json::Str(s) => {
                    return Some(s.clone());
                },
                _ => {},
            }
        }
        k = k + 1;
    }
    None
}

/// Read the first value of any shape under a name, copied out.
#[verifier::loop_isolation(false)]
fn read_jv_field(pairs: &Vec<(String, Json)>, name: &str) -> (r: Option<Json>)
    ensures
        (match r {
            Some(j) => loose_jv_field(pair_models_of(pairs@), name@) == Some(j.model()) && !(
            j.model() is Null),
            None => loose_jv_field(pair_models_of(pairs@), name@) is None,
        }),
{
    let ghost pm = pair_models_of(pairs@);
    proof {
        lemma_pair_models_of(pairs@);
        assert(pm.skip(0) =~= pm);
    }
    let mut k: usize = 0;
    while k < pairs.len()
        invariant
            k <= pairs@.len(),
            loose_jv_field(pm, name@) == loose_jv_field(pm.skip(k as int), name@),
        decreases pairs@.len() - k,
    {
        proof {
            assert(pm.skip(k as int)[0] == (pairs@[k as int].0@, pairs@[k as int].1.model()));
            assert(pm.skip(k as int).drop_first() =~= pm.skip(k + 1));
        }
        if str_eq(pairs[k].0.as_str(), name) {
            match &pairs[k].1 {
                Json::Null => {},
                _ => {
                    return Some(crate::codec::json_clone(&pairs[k].1));
                },
            }
        }
        k = k + 1;
    }
    None
}

/// A name the hook intake consumes rather than keeps: the serialized
/// record's reserved fields, and the payload's own envelope fields.
pub open spec fn payload_reserved(name: Seq<char>) -> bool {
    hook_reserved_name(name) || name == "hook_event_name"@ || name == "session_id"@
}

/// The members whose names the hook intake keeps as extras, in order.
pub open spec fn unreserved_of(pm: Seq<(Seq<char>, JsonV)>) -> Seq<(Seq<char>, JsonV)>
    decreases pm.len(),
{
    if pm.len() == 0 {
        Seq::empty()
    } else {
        (if payload_reserved(pm[0].0) {
            Seq::empty()
        } else {
            seq![pm[0]]
        }) + unreserved_of(pm.drop_first())
    }
}

/// The kept extras stay clear of the reserved names.
proof fn lemma_unreserved_clean(pm: Seq<(Seq<char>, JsonV)>)
    ensures
        forall|j: int|
            0 <= j < unreserved_of(pm).len() ==> !hook_reserved_name(
                (#[trigger] unreserved_of(pm)[j]).0,
            ),
    decreases pm.len(),
{
    if pm.len() > 0 {
        lemma_unreserved_clean(pm.drop_first());
        let head = if payload_reserved(pm[0].0) {
            Seq::<(Seq<char>, JsonV)>::empty()
        } else {
            seq![pm[0]]
        };
        assert forall|j: int|
            0 <= j < unreserved_of(pm).len() implies !hook_reserved_name(
                (#[trigger] unreserved_of(pm)[j]).0,
            ) by {
            assert(unreserved_of(pm) == head + unreserved_of(pm.drop_first()));
            if j < head.len() {
                assert(unreserved_of(pm)[j] == pm[0]);
                assert(!payload_reserved(pm[0].0));
            } else {
                assert(unreserved_of(pm)[j] == unreserved_of(pm.drop_first())[j - head.len()]);
            }
        }
    }
}

/// The members whose names the hook intake keeps, copied out.
#[verifier::loop_isolation(false)]
fn unreserved_members(pairs: &Vec<(String, Json)>) -> (r: Vec<(String, Json)>)
    ensures
        pair_models_of(r@) == unreserved_of(pair_models_of(pairs@)),
{
    let ghost pm = pair_models_of(pairs@);
    let mut out: Vec<(String, Json)> = Vec::new();
    proof {
        lemma_pair_models_of(pairs@);
        assert(pm.skip(0) =~= pm);
        assert(pair_models_of(out@) =~= Seq::<(Seq<char>, JsonV)>::empty());
        assert(Seq::<(Seq<char>, JsonV)>::empty() + unreserved_of(pm) =~= unreserved_of(pm));
    }
    let mut k: usize = 0;
    while k < pairs.len()
        invariant
            k <= pairs@.len(),
            pm == pair_models_of(pairs@),
            unreserved_of(pm) == pair_models_of(out@) + unreserved_of(pm.skip(k as int)),
        decreases pairs@.len() - k,
    {
        proof {
            assert(pm.skip(k as int)[0] == pm[k as int]);
            assert(pm.skip(k as int).drop_first() =~= pm.skip(k + 1));
        }
        let name = pairs[k].0.as_str();
        let reserved = str_eq(name, "type") || str_eq(name, "event_type") || str_eq(
            name,
            "tool_name",
        ) || str_eq(name, "tool_input") || str_eq(name, "transcript_path") || str_eq(name, "cwd")
            || str_eq(name, "hook_event_name") || str_eq(name, "session_id");
        if !reserved {
            let ghost out0 = out@;
            let c = crate::codec::json_clone(&pairs[k].1);
            out.push((pairs[k].0.clone(), c));
            proof {
                lemma_pair_models_of(out@);
                lemma_pair_models_of(out0);
                assert(pair_models_of(out@) =~= pair_models_of(out0) + seq![pm[k as int]]);
                assert(unreserved_of(pm.skip(k as int)) == seq![pm[k as int]] + unreserved_of(
                    pm.skip(k + 1),
                ));
                assert(pair_models_of(out0) + (seq![pm[k as int]] + unreserved_of(
                    pm.skip(k + 1),
                )) =~= pair_models_of(out@) + unreserved_of(pm.skip(k + 1)));
            }
        } else {
            proof {
                assert(unreserved_of(pm.skip(k as int)) =~= unreserved_of(pm.skip(k + 1)));
            }
        }
        k = k + 1;
    }
    proof {
        assert(pm.skip(pairs@.len() as int).len() == 0);
        assert(pair_models_of(out@) + Seq::<(Seq<char>, JsonV)>::empty() =~= pair_models_of(
            out@,
        ));
    }
    out
}

/// A hook entry from a parsed payload. Known fields are read by name; the
/// remaining members, their names clear of the reserved ones, become the
/// extras. A payload that is no object yields an entry with the fallback
/// event type and no fields.
pub fn hook_entry_from_json(j: &Json, fallback_session_id: String) -> (r: LogEntry)
    ensures
        r.schema_version == crate::schema::SCHEMA_VERSION,
        crate::schema::wf_entry(r.model()),
        r.event.model() is Hook,
        (match *j {
            Json::Obj(_) => {
                let pm = pair_models_of(j->Obj_0@);
                &&& r.event.model()->Hook_event_type == (match loose_str_field(
                    pm,
                    "hook_event_name"@,
                ) {
                    Some(s) => s,
                    None => "Unknown"@,
                })
                &&& r.session_id@ == (match loose_str_field(pm, "session_id"@) {
                    Some(s) => s,
                    None => fallback_session_id@,
                })
                &&& r.event.model()->Hook_tool_name == loose_str_field(pm, "tool_name"@)
                &&& r.event.model()->Hook_tool_input == loose_jv_field(pm, "tool_input"@)
                &&& r.event.model()->Hook_transcript_path == loose_str_field(
                    pm,
                    "transcript_path"@,
                )
                &&& r.event.model()->Hook_cwd == loose_str_field(pm, "cwd"@)
                &&& r.event.model()->Hook_extra == unreserved_of(pm)
            },
            _ => {
                &&& r.event.model()->Hook_event_type == "Unknown"@
                &&& r.session_id@ == fallback_session_id@
                &&& r.event.model()->Hook_extra == Seq::<(Seq<char>, JsonV)>::empty()
            },
        }),
{
    match j {
        Json::Obj(pairs) => {
            let event_type = match read_str_field(pairs, "hook_event_name") {
                Some(s) => s,
                None => String::from_str("Unknown"),
            };
            let session_id = match read_str_field(pairs, "session_id") {
                Some(s) => s,
                None => fallback_session_id,
            };
            let tool_name = read_str_field(pairs, "tool_name");
            let tool_input = read_jv_field(pairs, "tool_input");
            let transcript_path = read_str_field(pairs, "transcript_path");
            let cwd = read_str_field(pairs, "cwd");
            let extra = unreserved_members(pairs);
            proof {
                lemma_unreserved_clean(pair_models_of(pairs@));
            }
            match &tool_input {
                Some(ji) => {
                    ji.to_wf();
                },
                None => {},
            }
            let ghost em = pair_models_of(extra@);
            proof {
                lemma_pair_models_of(extra@);
            }
            let mut w: usize = 0;
            while w < extra.len()
                invariant
                    w <= extra@.len(),
                    em == pair_models_of(extra@),
                    em.len() == extra@.len(),
                    forall|q: int| 0 <= q < w ==> crate::json::wf_json(#[trigger] em[q].1),
                decreases extra@.len() - w,
            {
                extra[w].1.to_wf();
                proof {
                    lemma_pair_models_of(extra@);
                    assert(em[w as int].1 == extra@[w as int].1.model());
                }
                w = w + 1;
            }
            LogEntry::new_hook(
                session_id,
                event_type,
                tool_name,
                tool_input,
                transcript_path,
                cwd,
                extra,
            )
        },
        _ => {
            LogEntry::new_hook(
                fallback_session_id,
                String::from_str("Unknown"),
                None,
                None,
                None,
                None,
                Vec::new(),
            )
        },
    }
}

} // verus!
