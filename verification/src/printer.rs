//! The text in which the index is shown: a table of the ledger, a list of
//! paths.

use vstd::prelude::*;
use crate::index::PathIndexEntry;
use crate::text::path_view;
use crate::timestamp::Timestamp;

verus! {

/// The head of the table of the ledger.
pub const TABLE_HEAD: &'static str = "PATH\tTIMESTAMP\n";

/// The date and time of day, in UTC, of the moment that lies `secs` seconds
/// and `nanos` nanoseconds after the Unix epoch, as the calendar library
/// writes it; none where the moment is outside the calendar.
pub uninterp spec fn calendar_text(secs: i64, nanos: u32) -> Option<Seq<char>>;

/// The text with the cells between its tabs padded so that the columns line
/// up, as the tab writer in its default setting writes it.
pub uninterp spec fn tab_aligned(text: Seq<char>) -> Option<Seq<char>>;

/// `chrono::DateTime::from_timestamp`, taken without its zone by `naive_utc`
/// and written by `to_string`. A moment outside the calendar gives none.
#[verifier::external_body]
fn chrono_calendar_text(secs: i64, nanos: u32) -> (text: Option<String>)
    ensures
        path_view(text) == calendar_text(secs, nanos),
{
    chrono::DateTime::from_timestamp(secs, nanos).map(|moment| moment.naive_utc().to_string())
}

/// `tabwriter::TabWriter` over a buffer in memory: the text is written to it
/// and the buffer is taken back by `into_inner`, which flushes.
#[verifier::external_body]
fn tabwriter_align(text: &str) -> (aligned: Option<String>)
    ensures
        path_view(aligned) == tab_aligned(text@),
{
    let mut writer = tabwriter::TabWriter::new(Vec::new());
    std::io::Write::write_all(&mut writer, text.as_bytes()).ok()?;
    String::from_utf8(writer.into_inner().ok()?).ok()
}

/// The readable form of a visit time; none where its seconds are more than
/// the calendar can count.
pub open spec fn spec_datetime(timestamp: Timestamp) -> Option<Seq<char>> {
    if timestamp.spec_secs() <= i64::MAX {
        calendar_text(timestamp.spec_secs() as i64, timestamp.spec_nanos())
    } else {
        None
    }
}

/// One row of the table: the path, a tab, the visit time, the end of the
/// line.
pub open spec fn spec_row(path: Seq<char>, time: Seq<char>) -> Seq<char> {
    path + seq!['\t'] + time + seq!['\n']
}

/// The rows of the entries, one after the other; none where a visit time has
/// no readable form.
pub open spec fn spec_rows(entries: Seq<PathIndexEntry>) -> Option<Seq<char>>
    decreases entries.len(),
{
    if entries.len() == 0 {
        Some(Seq::empty())
    } else {
        match (spec_rows(entries.drop_last()), spec_datetime(entries.last().timestamp)) {
            (Some(front), Some(time)) => Some(front + spec_row(entries.last().path@, time)),
            _ => None,
        }
    }
}

/// The table of the entries: the head, the rows, and the columns lined up.
pub open spec fn spec_human(entries: Seq<PathIndexEntry>) -> Option<Seq<char>> {
    match spec_rows(entries) {
        Some(rows) => tab_aligned(TABLE_HEAD@ + rows),
        None => None,
    }
}

/// The paths, each on a line of its own.
pub open spec fn spec_lines(paths: Seq<String>) -> Seq<char>
    decreases paths.len(),
{
    if paths.len() == 0 {
        Seq::empty()
    } else {
        spec_lines(paths.drop_last()) + paths.last()@ + seq!['\n']
    }
}

/// Writes a visit time as a date and a time of day.
pub fn get_datetime_string(timestamp: &Timestamp) -> (text: Option<String>)
    ensures
        path_view(text) == spec_datetime(*timestamp),
{
    let secs = timestamp.secs();
    if secs <= i64::MAX as u64 {
        chrono_calendar_text(secs as i64, timestamp.nanos())
    } else {
        None
    }
}

/// The ledger as a table for a reader: a head line, then a line for each
/// entry with its path and its visit time, the columns lined up. None where
/// a visit time has no readable form.
pub fn format_human(index_entries: &Vec<PathIndexEntry>) -> (text: Option<String>)
    ensures
        path_view(text) == spec_human(index_entries@),
{
    let mut table = String::from_str(TABLE_HEAD);
    let mut at: usize = 0;
    assert(index_entries@.take(0) =~= Seq::<PathIndexEntry>::empty());
    assert(table@ =~= TABLE_HEAD@ + Seq::<char>::empty());
    while at < index_entries.len()
        invariant
            at <= index_entries.len(),
            spec_rows(index_entries@.take(at as int)) matches Some(rows) && table@ == TABLE_HEAD@
                + rows,
        decreases index_entries.len() - at,
    {
        let entry = &index_entries[at];
        let ghost front = spec_rows(index_entries@.take(at as int))->0;
        proof {
            assert(index_entries@.take(at + 1).drop_last() =~= index_entries@.take(at as int));
            assert(index_entries@.take(at + 1).last() == index_entries@[at as int]);
        }
        match get_datetime_string(&entry.timestamp) {
            Some(time) => {
                table.append(entry.path.as_str());
                table.append("\t");
                table.append(time.as_str());
                table.append("\n");
                proof {
                    reveal_strlit("\t");
                    reveal_strlit("\n");
                    assert("\t"@ =~= seq!['\t']);
                    assert("\n"@ =~= seq!['\n']);
                    assert(table@ =~= TABLE_HEAD@ + (front + spec_row(entry.path@, time@)));
                }
            },
            None => {
                proof {
                    lemma_rows_fail_for_good(index_entries@, at + 1);
                }
                return None;
            },
        }
        at += 1;
    }
    assert(index_entries@.take(at as int) =~= index_entries@);
    tabwriter_align(table.as_str())
}

/// The paths, one on each line.
pub fn format_paths(paths: &Vec<String>) -> (text: String)
    ensures
        text@ == spec_lines(paths@),
{
    let mut text = String::new();
    let mut at: usize = 0;
    assert(paths@.take(0) =~= Seq::<String>::empty());
    while at < paths.len()
        invariant
            at <= paths.len(),
            text@ == spec_lines(paths@.take(at as int)),
        decreases paths.len() - at,
    {
        proof {
            assert(paths@.take(at + 1).drop_last() =~= paths@.take(at as int));
            assert(paths@.take(at + 1).last() == paths@[at as int]);
            reveal_strlit("\n");
            assert("\n"@ =~= seq!['\n']);
        }
        text.append(paths[at].as_str());
        text.append("\n");
        at += 1;
    }
    assert(paths@.take(at as int) =~= paths@);
    text
}

/// Where the first entries have no rows, no longer listing has.
proof fn lemma_rows_fail_for_good(entries: Seq<PathIndexEntry>, length: int)
    requires
        0 <= length <= entries.len(),
        spec_rows(entries.take(length)) is None,
    ensures
        spec_rows(entries) is None,
    decreases entries.len() - length,
{
    if length < entries.len() {
        assert(entries.take(length + 1).drop_last() =~= entries.take(length));
        lemma_rows_fail_for_good(entries, length + 1);
    } else {
        assert(entries.take(length) =~= entries);
    }
}

} // verus!
