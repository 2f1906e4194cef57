//! Reverse tail reading of a daily file's contents.
//!
//! A daily file is a sequence of lines, each one serialized entry followed
//! by a newline byte. A reader must tolerate a partial trailing line left by
//! a crashed writer: complete lines that do not parse are skipped, and bytes
//! after the last newline are ignored.

use vstd::prelude::*;
use vstd::slice::slice_subrange;
use crate::schema::{LogEntry, EntryV, wf_entry};
use crate::codec::{entry_of_bytes, ser_entry, parse_entry_line, lemma_entry_round_trip,
    lemma_ser_entry_single_line};
use crate::json::newline_free;

verus! {

/// Position of the first newline byte, or a negative value when none.
pub open spec fn find_nl(s: Seq<u8>) -> int
    decreases s.len(),
{
    if s.len() == 0 {
        -1
    } else if s[0] == 10 {
        0
    } else {
        let r = find_nl(s.drop_first());
        if r < 0 {
            -1
        } else {
            r + 1
        }
    }
}

/// `find_nl` finds the first newline.
proof fn lemma_find_nl_at(s: Seq<u8>, m: int)
    requires
        0 <= m < s.len(),
        s[m] == 10,
        forall|q: int| 0 <= q < m ==> s[q] != 10,
    ensures
        find_nl(s) == m,
    decreases m,
{
    if m > 0 {
        lemma_find_nl_at(s.drop_first(), m - 1);
    }
}

/// `find_nl` finds nothing in newline-free bytes.
proof fn lemma_find_nl_none(s: Seq<u8>)
    requires
        newline_free(s),
    ensures
        find_nl(s) < 0,
    decreases s.len(),
{
    if s.len() > 0 {
        assert(newline_free(s.drop_first())) by {
            assert(forall|q: int|
                0 <= q < s.drop_first().len() ==> s.drop_first()[q] == s[q + 1] && s[q + 1]
                    != 10);
        }
        lemma_find_nl_none(s.drop_first());
    }
}

/// The entries of a file's bytes: each complete line that parses, in file
/// order. A line that does not parse, and any bytes after the last newline,
/// are skipped.
pub open spec fn file_entries(s: Seq<u8>) -> Seq<EntryV>
    decreases s.len(),
{
    let nl = find_nl(s);
    if !(0 <= nl < s.len()) {
        seq![]
    } else {
        (match entry_of_bytes(s.take(nl)) {
            Some(e) => seq![e],
            None => seq![],
        }) + file_entries(s.skip(nl + 1))
    }
}

/// The serialized form of a file of entries: one line per entry.
pub open spec fn ser_file(entries: Seq<EntryV>) -> Seq<u8>
    decreases entries.len(),
{
    if entries.len() == 0 {
        seq![]
    } else {
        ser_entry(entries[0]) + seq![10u8] + ser_file(entries.drop_first())
    }
}

/// Reading a serialized file of well-formed entries, with any newline-free
/// fragment after it, yields exactly those entries in file order.
pub proof fn lemma_file_entries_append(entries: Seq<EntryV>, frag: Seq<u8>)
    requires
        forall|k: int| 0 <= k < entries.len() ==> wf_entry(#[trigger] entries[k]),
        newline_free(frag),
    ensures
        file_entries(ser_file(entries) + frag) == entries,
    decreases entries.len(),
{
    if entries.len() == 0 {
        assert(ser_file(entries) + frag =~= frag);
        lemma_find_nl_none(frag);
    } else {
        let e0 = entries[0];
        let rest = entries.drop_first();
        let line = ser_entry(e0);
        let s = ser_file(entries) + frag;
        let tail = ser_file(rest) + frag;
        assert(s =~= line + seq![10u8] + tail);
        lemma_ser_entry_single_line(e0);
        assert(forall|q: int| 0 <= q < line.len() ==> s[q] == line[q] && s[q] != 10);
        assert(s[line.len() as int] == 10);
        lemma_find_nl_at(s, line.len() as int);
        assert(s.take(line.len() as int) =~= line);
        lemma_entry_round_trip(e0);
        assert(entry_of_bytes(line) == Some(e0));
        assert(s.skip(line.len() as int + 1) =~= tail);
        assert(forall|k: int| 0 <= k < rest.len() ==> wf_entry(#[trigger] rest[k])) by {
            assert(forall|k: int|
                0 <= k < rest.len() ==> rest[k] == entries[k + 1] && wf_entry(
                    #[trigger] entries[k + 1],
                ));
        }
        lemma_file_entries_append(rest, frag);
        assert(seq![e0] + rest =~= entries);
    }
}

/// Tail correctness: a full, well-formed file reads back as its entries.
pub proof fn lemma_file_entries_of_ser(entries: Seq<EntryV>)
    requires
        forall|k: int| 0 <= k < entries.len() ==> wf_entry(#[trigger] entries[k]),
    ensures
        file_entries(ser_file(entries)) == entries,
{
    lemma_file_entries_append(entries, Seq::empty());
    assert(ser_file(entries) + Seq::<u8>::empty() =~= ser_file(entries));
}

/// Models of a list of entries, element-wise.
pub open spec fn entry_models_of(v: Seq<LogEntry>) -> Seq<EntryV>
    decreases v,
{
    if v.len() == 0 {
        Seq::empty()
    } else {
        seq![v[0].model()] + entry_models_of(v.drop_first())
    }
}

/// `entry_models_of` maps element-wise.
pub proof fn lemma_entry_models_of(v: Seq<LogEntry>)
    ensures
        entry_models_of(v).len() == v.len(),
        forall|k: int| 0 <= k < v.len() ==> entry_models_of(v)[k] == v[k].model(),
    decreases v.len(),
{
    if v.len() > 0 {
        lemma_entry_models_of(v.drop_first());
    }
}

/// Every complete line of the buffer that parses, in file order.
#[verifier::loop_isolation(false)]
#[verifier::rlimit(100)]
fn collect_entries(bytes: &[u8]) -> (r: Vec<LogEntry>)
    ensures
        entry_models_of(r@) == file_entries(bytes@),
{
    let mut out: Vec<LogEntry> = Vec::new();
    let mut ls: usize = 0;
    let mut i: usize = 0;
    proof {
        assert(bytes@.skip(0) =~= bytes@);
        assert(entry_models_of(out@) =~= Seq::<EntryV>::empty());
        assert(Seq::<EntryV>::empty() + file_entries(bytes@) =~= file_entries(bytes@));
    }
    while i < bytes.len()
        invariant
            ls <= i <= bytes@.len(),
            forall|q: int| ls <= q < i ==> bytes@[q] != 10,
            file_entries(bytes@) == entry_models_of(out@) + file_entries(bytes@.skip(ls as int)),
        decreases bytes@.len() - i,
    {
        if bytes[i] == 10 {
            let line = slice_subrange(bytes, ls, i);
            let ghost sfx = bytes@.skip(ls as int);
            proof {
                assert(sfx[i - ls] == 10);
                assert(forall|q: int| 0 <= q < i - ls ==> sfx[q] == bytes@[q + ls] && sfx[q] != 10);
                lemma_find_nl_at(sfx, i - ls);
                assert(sfx.take(i - ls) =~= line@);
                assert(sfx.skip(i - ls + 1) =~= bytes@.skip(i + 1));
            }
            match parse_entry_line(line) {
                Some(e) => {
                    let ghost out0 = out@;
                    out.push(e);
                    proof {
                        lemma_entry_models_of(out@);
                        lemma_entry_models_of(out0);
                        assert(entry_models_of(out@) =~= entry_models_of(out0) + seq![
                            out@[out0.len() as int].model(),
                        ]);
                        assert(file_entries(bytes@) =~= entry_models_of(out@) + file_entries(
                            bytes@.skip(i + 1),
                        ));
                    }
                },
                None => {
                    proof {
                        assert(file_entries(bytes@) =~= entry_models_of(out@) + file_entries(
                            bytes@.skip(i + 1),
                        ));
                    }
                },
            }
            ls = i + 1;
        }
        i = i + 1;
    }
    proof {
        let sfx = bytes@.skip(ls as int);
        assert(newline_free(sfx)) by {
            assert(forall|q: int| 0 <= q < sfx.len() ==> sfx[q] == bytes@[q + ls] && sfx[q] != 10);
        }
        lemma_find_nl_none(sfx);
        assert(file_entries(sfx) =~= Seq::<EntryV>::empty());
        assert(entry_models_of(out@) + Seq::<EntryV>::empty() =~= entry_models_of(out@));
    }
    out
}

/// The last `n` well-formed events of a daily file's bytes, in file order.
/// Complete lines that do not parse are skipped; a partial trailing line is
/// ignored.
#[verifier::loop_isolation(false)]
#[verifier::rlimit(100)]
pub fn read_last_n_lines(bytes: &[u8], n: usize) -> (r: Vec<LogEntry>)
    ensures
        ({
            let all = file_entries(bytes@);
            &&& r@.len() == if all.len() <= n {
                all.len()
            } else {
                n as nat
            }
            &&& entry_models_of(r@) == all.skip(all.len() - r@.len())
        }),
{
    let mut out = collect_entries(bytes);
    let ghost all = file_entries(bytes@);
    proof {
        lemma_entry_models_of(out@);
        assert(all.skip(0) =~= all);
    }
    while out.len() > n
        invariant
            out@.len() <= all.len(),
            all.len() <= n ==> out@.len() == all.len(),
            all.len() > n ==> out@.len() >= n,
            entry_models_of(out@) == all.skip(all.len() - out@.len()),
        decreases out@.len(),
    {
        let ghost out0 = out@;
        out.remove(0);
        proof {
            lemma_entry_models_of(out@);
            lemma_entry_models_of(out0);
            assert(out@ =~= out0.drop_first());
            assert(entry_models_of(out@) =~= entry_models_of(out0).drop_first());
            assert(entry_models_of(out0).drop_first() =~= all.skip(all.len() - out@.len()));
        }
    }
    out
}

} // verus!
