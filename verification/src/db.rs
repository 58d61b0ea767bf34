//! The watch history as stored in SQLite: how records are written into rows
//! and read back from them.

use vstd::prelude::*;
use crate::clock::{read_rfc3339, rfc3339_instant};
use crate::library::str_eq;
use crate::state::{MediaType, WatchEntry};
use crate::text::{chars_to_string, str_chars};

verus! {

/// How a media type is written in the `media_type` column.
pub open spec fn spec_media_type_label(t: MediaType) -> Seq<char> {
    match t {
        MediaType::Movie => "Movie"@,
        MediaType::Show => "Show"@,
    }
}

/// The media type that a `media_type` column value names, if any.
pub open spec fn spec_media_type_from_label(s: Seq<char>) -> Option<MediaType> {
    if s == "Movie"@ {
        Some(MediaType::Movie)
    } else if s == "Show"@ {
        Some(MediaType::Show)
    } else {
        None
    }
}

/// The text stored for a media type.
pub fn media_type_label(t: MediaType) -> (r: &'static str)
    ensures
        r@ == spec_media_type_label(t),
{
    match t {
        MediaType::Movie => "Movie",
        MediaType::Show => "Show",
    }
}

/// The media type named by a stored text: `Movie` or `Show`, exactly.
pub fn media_type_from_label(s: &str) -> (r: Option<MediaType>)
    ensures
        r == spec_media_type_from_label(s@),
{
    if str_eq(s, "Movie") {
        Some(MediaType::Movie)
    } else if str_eq(s, "Show") {
        Some(MediaType::Show)
    } else {
        None
    }
}

/// Reading back the stored text of a media type gives that media type.
pub proof fn lemma_media_type_label_roundtrip(t: MediaType)
    ensures
        spec_media_type_from_label(spec_media_type_label(t)) == Some(t),
{
    reveal_strlit("Movie");
    reveal_strlit("Show");
    assert("Movie"@ != "Show"@) by {
        assert("Movie"@.len() != "Show"@.len());
    }
}

/// A row of the `watch_history` table, as read from the database.
#[derive(Clone, Debug)]
pub struct WatchRow {
    pub id: String,
    pub media_id: String,
    pub media_type: String,
    pub progress: i16,
    pub complete: bool,
    pub watched_at: String,
}

/// Why a row does not make a watch record.
#[derive(Clone, Debug)]
pub enum WatchRowError {
    /// The `media_type` column names no media type.
    UnknownMediaType { media_type: String, id: String },
    /// The `watched_at` column is no RFC 3339 date and time.
    BadTimestamp { watched_at: String, id: String },
}

/// `e` is the record that `row` holds.
pub open spec fn entry_of_row(e: WatchEntry, row: WatchRow) -> bool {
    &&& e.id@ == row.id@
    &&& e.media_id@ == row.media_id@
    &&& Some(e.media_type) == spec_media_type_from_label(row.media_type@)
    &&& e.progress == row.progress
    &&& e.complete == row.complete
    &&& Some(e.watched_at) == rfc3339_instant(row.watched_at@)
}

/// Whether a row holds a record: a known media type and a readable time.
pub open spec fn row_is_valid(row: WatchRow) -> bool {
    spec_media_type_from_label(row.media_type@) is Some && rfc3339_instant(row.watched_at@) is Some
}

/// `err` is the error that `row` gives: its media type is checked first.
pub open spec fn error_of_row(err: WatchRowError, row: WatchRow) -> bool {
    match err {
        WatchRowError::UnknownMediaType { media_type, id } => {
            &&& spec_media_type_from_label(row.media_type@) is None
            &&& media_type@ == row.media_type@
            &&& id@ == row.id@
        },
        WatchRowError::BadTimestamp { watched_at, id } => {
            &&& spec_media_type_from_label(row.media_type@) is Some
            &&& rfc3339_instant(row.watched_at@) is None
            &&& watched_at@ == row.watched_at@
            &&& id@ == row.id@
        },
    }
}

/// Reads the record held by one row.
pub fn watch_entry_from_row(row: WatchRow) -> (r: Result<WatchEntry, WatchRowError>)
    ensures
        match r {
            Ok(e) => row_is_valid(row) && entry_of_row(e, row),
            Err(err) => !row_is_valid(row) && error_of_row(err, row),
        },
{
    let media_type = match media_type_from_label(row.media_type.as_str()) {
        Some(t) => t,
        None => {
            return Err(WatchRowError::UnknownMediaType { media_type: row.media_type, id: row.id });
        },
    };
    let watched_at = match read_rfc3339(row.watched_at.as_str()) {
        Some(t) => t,
        None => {
            return Err(WatchRowError::BadTimestamp { watched_at: row.watched_at, id: row.id });
        },
    };
    Ok(
        WatchEntry {
            id: row.id,
            media_id: row.media_id,
            media_type,
            progress: row.progress,
            complete: row.complete,
            watched_at,
        },
    )
}

/// Row `k` is the first row that holds no record, and `err` is its error.
pub open spec fn first_invalid_row(rows: Seq<WatchRow>, k: int, err: WatchRowError) -> bool {
    &&& 0 <= k < rows.len()
    &&& forall|i: int| 0 <= i < k ==> row_is_valid(#[trigger] rows[i])
    &&& !row_is_valid(rows[k])
    &&& error_of_row(err, rows[k])
}

/// Reads the records held by rows, in order; the first row that holds none
/// decides the error.
pub fn row_to_watch_entry(rows: Vec<WatchRow>) -> (r: Result<Vec<WatchEntry>, WatchRowError>)
    ensures
        match r {
            Ok(es) => {
                &&& es.len() == rows.len()
                &&& forall|i: int| 0 <= i < rows.len() ==> entry_of_row(#[trigger] es@[i], rows@[i])
            },
            Err(err) => exists|k: int| #[trigger] first_invalid_row(rows@, k, err),
        },
{
    let ghost all = rows@;
    let n = rows.len();
    let mut rest = rows;
    let mut out: Vec<WatchEntry> = Vec::new();
    let mut k: usize = 0;
    while k < n
        invariant
            k <= n,
            n == all.len(),
            all == rows@,
            rest@ == all.skip(k as int),
            out.len() == k,
            forall|i: int| 0 <= i < k ==> row_is_valid(#[trigger] all[i]),
            forall|i: int| 0 <= i < k ==> entry_of_row(#[trigger] out@[i], all[i]),
        decreases n - k,
    {
        let ghost old_rows = rest@;
        let row = rest.remove(0);
        assert(row == all[k as int]) by {
            assert(old_rows[0] == all.skip(k as int)[0]);
        }
        assert(rest@ =~= all.skip(k + 1)) by {
            assert forall|q: int| 0 <= q < rest@.len() implies rest@[q] == all.skip(k + 1)[q] by {
                assert(rest@[q] == old_rows[q + 1]);
            }
        }
        match watch_entry_from_row(row) {
            Ok(e) => {
                let ghost old_out = out@;
                out.push(e);
                assert forall|i: int| 0 <= i < k + 1 implies entry_of_row(#[trigger] out@[i], all[i]) by {
                    if i < k {
                        assert(out@[i] == old_out[i]);
                    }
                }
            },
            Err(err) => {
                assert(first_invalid_row(all, k as int, err));
                return Err(err);
            },
        }
        k = k + 1;
    }
    Ok(out)
}

/// The connection URL of an SQLite database file: `sqlite:` and the path,
/// a leading `sqlite://` of the given path being dropped.
pub open spec fn spec_sqlite_url(db_path: Seq<char>) -> Seq<char> {
    if db_path.len() >= 9 && db_path.take(9) == "sqlite://"@ {
        "sqlite:"@ + db_path.skip(9)
    } else {
        "sqlite:"@ + db_path
    }
}

/// The connection URL for the database at `db_path`.
pub fn sqlite_url(db_path: &str) -> (r: String)
    ensures
        r@ == spec_sqlite_url(db_path@),
{
    let p = str_chars(db_path);
    let prefix = str_chars("sqlite://");
    proof {
        reveal_strlit("sqlite://");
    }
    let mut strip = p.len() >= 9;
    let mut i: usize = 0;
    while i < 9 && strip
        invariant
            i <= 9,
            prefix@ == "sqlite://"@,
            prefix@.len() == 9,
            strip ==> p@.len() >= 9 && forall|q: int| 0 <= q < i ==> p@[q] == prefix@[q],
            !strip ==> !(p@.len() >= 9 && p@.take(9) == "sqlite://"@),
        decreases 9 - i,
    {
        if p[i] != prefix[i] {
            assert(p@.take(9)[i as int] != prefix@[i as int]);
            strip = false;
        }
        i = i + 1;
    }
    if strip {
        assert(p@.take(9) =~= "sqlite://"@);
    }
    let mut out = str_chars("sqlite:");
    let ghost start = out@;
    let mut k: usize = if strip { 9 } else { 0 };
    let from = k;
    while k < p.len()
        invariant
            from <= k <= p.len(),
            out@ == start + p@.subrange(from as int, k as int),
        decreases p.len() - k,
    {
        out.push(p[k]);
        assert(out@ =~= start + p@.subrange(from as int, k + 1));
        k = k + 1;
    }
    assert(p@.subrange(from as int, p@.len() as int) =~= p@.skip(from as int));
    assert(p@.skip(0) =~= p@);
    chars_to_string(out.as_slice())
}

} // verus!
