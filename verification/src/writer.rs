//! The unified log sink's pure core.
//!
//! Every mode appends through one physical write path: the daily file named
//! by the entry's date receives one serialized line. The byte production and
//! path computation are here; opening, locking and writing the file are the
//! caller's side of the boundary, which hands the bytes to the operating
//! system unchanged.

use vstd::prelude::*;
use vstd::string::{StringExecFns, StrSliceExecFns};
use crate::schema::{LogEntry, wf_entry, valid_date_shape};
use crate::codec::{ser_entry, serialize_entry};
use crate::json::newline_free;

verus! {

/// Handle of the unified log sink: its only state is the directory path.
#[derive(Clone)]
pub struct LogWriter {
    pub logs_dir: String,
}

/// The serialized line of an entry: its bytes, then one newline.
pub open spec fn entry_line(e: crate::schema::EntryV) -> Seq<u8> {
    ser_entry(e) + seq![10u8]
}

impl LogWriter {
    /// A sink handle over a logs directory.
    pub fn new(logs_dir: String) -> (r: LogWriter)
        ensures
            r.logs_dir@ == logs_dir@,
    {
        LogWriter { logs_dir }
    }

    /// The daily file path for a date: `<logs_dir>/<date>.jsonl`.
    pub fn get_log_file_path(&self, date: &str) -> (r: String)
        ensures
            r@ == self.logs_dir@ + "/"@ + date@ + ".jsonl"@,
    {
        let mut s = self.logs_dir.clone();
        s.append("/");
        s.append(date);
        s.append(".jsonl");
        s
    }

    /// The logs directory.
    pub fn logs_dir(&self) -> (r: &String)
        ensures
            r@ == self.logs_dir@,
    {
        &self.logs_dir
    }

    /// The exact bytes of the single line that the sink appends for an
    /// entry. The line is the entry's canonical serialization and one final
    /// newline, and holds no other newline byte: concurrent appends under
    /// the file lock can interleave only whole lines.
    pub fn encode_line(&self, entry: &LogEntry) -> (r: Vec<u8>)
        requires
            wf_entry(entry.model()),
        ensures
            r@ == entry_line(entry.model()),
            r@.len() > 0,
            r@[r@.len() - 1] == 10,
            newline_free(r@.take(r@.len() - 1)),
    {
        let mut out = serialize_entry(entry);
        out.push(10);
        proof {
            crate::codec::lemma_ser_entry_single_line(entry.model());
            assert(out@ =~= entry_line(entry.model()));
            assert(out@.take(out@.len() - 1) =~= ser_entry(entry.model()));
        }
        out
    }
}

/// Validate a date argument against the `YYYY-MM-DD` shape.
#[verifier::loop_isolation(false)]
pub fn validate_date_format(date: &str) -> (r: bool)
    ensures
        r == valid_date_shape(date@),
{
    let n = date.unicode_len();
    if n != 10 {
        return false;
    }
    if date.get_char(4) != '-' || date.get_char(7) != '-' {
        return false;
    }
    let mut q: usize = 0;
    while q < 10
        invariant
            q <= 10,
            date@.len() == 10,
            forall|p: int| 0 <= p < q && p != 4 && p != 7 ==> '0' <= #[trigger] date@[p] <= '9',
        decreases 10 - q,
    {
        if q != 4 && q != 7 {
            let c = date.get_char(q);
            if !('0' <= c && c <= '9') {
                return false;
            }
        }
        q = q + 1;
    }
    true
}

} // verus!
