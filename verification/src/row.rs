//! Suspensions as a backing store keeps them: one row of plain columns each,
//! with the remembered roles joined by commas and the two moments written as
//! `YYYY-MM-DD hh:mm:ss` in UTC.

use chrono::{DateTime, NaiveDateTime};
use vstd::prelude::*;
use crate::db::{Database, table_wf};
use crate::error::PersistenceError;
use crate::restore::{lemma_remembered_roles_read_back, role_ids};
use crate::suspend::role_texts;
use crate::suspension::{
    Suspension, SuspensionView, copy_optional_string, optional_text, texts, views,
};
use crate::text::{decimal_text, is_digit, lemma_decimal_text_reads_back};

verus! {

/// One row of the table of suspensions.
#[derive(Debug, Clone, PartialEq, Eq)]
pub struct SuspensionRow {
    pub id: i64,
    pub guild_id: i64,
    pub user_id: i64,
    pub moderator_id: i64,
    /// The remembered role ids, joined by commas.
    pub previous_roles: String,
    /// When the suspension began, as `YYYY-MM-DD hh:mm:ss`, UTC.
    pub from_datetime: String,
    /// When it ends, in the same form.
    pub until_datetime: String,
    pub reason: Option<String>,
    pub active: bool,
}

/// The seconds since the epoch of the moment that `text` names when chrono
/// reads it as a date and a time of day in UTC; `None` where chrono does not
/// accept `text`.
pub uninterp spec fn datetime_seconds(text: Seq<char>) -> Option<i64>;

/// How chrono writes the moment `seconds` after the epoch as a date and a
/// time of day in UTC; `None` where the moment is beyond the dates that
/// chrono knows.
pub uninterp spec fn datetime_text(seconds: i64) -> Option<Seq<char>>;

/// Reads a date and a time of day with chrono's
/// `NaiveDateTime::parse_from_str` and the pattern `%Y-%m-%d %H:%M:%S%.9f`,
/// and gives the seconds since the epoch that `DateTime::timestamp` counts
/// for that moment in UTC. Nothing is proved of this function: its result is
/// what `datetime_seconds` stands for.
#[verifier::external_body]
pub(crate) fn parse_datetime(text: &str) -> (seconds: Option<i64>)
    ensures
        seconds == datetime_seconds(text@),
{
    match NaiveDateTime::parse_from_str(text, "%Y-%m-%d %H:%M:%S%.9f") {
        Ok(moment) => Some(moment.and_utc().timestamp()),
        Err(_) => None,
    }
}

/// Writes the moment `seconds` after the epoch with chrono's
/// `DateTime::from_timestamp` and `format`, pattern `%Y-%m-%d %H:%M:%S`.
/// Nothing is proved of this function: its result is what `datetime_text`
/// stands for.
#[verifier::external_body]
fn format_datetime(seconds: i64) -> (text: Option<String>)
    ensures
        optional_text(text) == datetime_text(seconds),
{
    match DateTime::from_timestamp(seconds, 0) {
        Some(moment) => Some(moment.format("%Y-%m-%d %H:%M:%S").to_string()),
        None => None,
    }
}

/// The texts `parts` joined by commas.
pub open spec fn joined(parts: Seq<Seq<char>>) -> Seq<char>
    decreases parts.len(),
{
    if parts.len() == 0 {
        Seq::empty()
    } else if parts.len() == 1 {
        parts[0]
    } else {
        joined(parts.drop_last()) + seq![','] + parts.last()
    }
}

/// Whether `parts` are the pieces of `text` between its commas: there is at
/// least one piece, no piece holds a comma, and joined by commas the pieces
/// make `text`.
pub open spec fn is_split_of(parts: Seq<Seq<char>>, text: Seq<char>) -> bool {
    &&& parts.len() >= 1
    &&& forall|i: int| 0 <= i < parts.len() ==> !(#[trigger] parts[i]).contains(',')
    &&& joined(parts) == text
}

/// The texts `parts` joined by commas.
pub fn join_roles(parts: &Vec<String>) -> (text: String)
    ensures
        text@ == joined(texts(parts@)),
{
    let mut text = String::new();
    let mut i: usize = 0;
    let ghost all = texts(parts@);
    while i < parts.len()
        invariant
            i <= parts.len(),
            all == texts(parts@),
            text@ == joined(all.take(i as int)),
        decreases parts.len() - i,
    {
        proof {
            reveal_strlit(",");
            assert(all.take(i + 1).drop_last() =~= all.take(i as int));
            assert(all.take(i + 1).last() == parts@[i as int]@);
        }
        if i > 0 {
            text.append(",");
            assert(","@ =~= seq![',']);
        }
        text.append(parts[i].as_str());
        assert(text@ =~= joined(all.take(i + 1))) by {
            if i == 0 {
                assert(joined(all.take(0)) =~= Seq::<char>::empty());
                assert(all.take(1)[0] == parts@[0]@);
            }
        }
        i += 1;
    }
    assert(all.take(parts.len() as int) =~= all);
    text
}

/// The pieces of `text` between its commas.
pub fn split_roles(text: &str) -> (parts: Vec<String>)
    ensures
        is_split_of(texts(parts@), text@),
{
    let len = text.unicode_len();
    let mut parts: Vec<String> = Vec::new();
    let mut start: usize = 0;
    let mut i: usize = 0;
    assert(text@.take(0) =~= Seq::<char>::empty());
    while i < len
        invariant
            start <= i <= len,
            len == text@.len(),
            parts@.len() == 0 ==> start == 0,
            parts@.len() > 0 ==> text@.take(start as int) == joined(texts(parts@)) + seq![','],
            forall|k: int| start <= k < i ==> text@[k] != ',',
            forall|k: int| 0 <= k < parts@.len() ==> !(#[trigger] texts(parts@)[k]).contains(','),
        decreases len - i,
    {
        if text.get_char(i) == ',' {
            let piece = String::from_str(text.substring_char(start, i));
            let ghost before = texts(parts@);
            parts.push(piece);
            proof {
                let after = texts(parts@);
                assert(after =~= before.push(piece@));
                assert(after.drop_last() =~= before);
                assert(text@.take(i + 1) =~= text@.take(start as int) + piece@ + seq![',']);
                if before.len() == 0 {
                    assert(text@.take(0) =~= Seq::<char>::empty());
                }
                assert(text@.take(i + 1) =~= joined(after) + seq![',']);
                assert forall|k: int| 0 <= k < after.len() implies !(#[trigger] after[k]).contains(
                    ',',
                ) by {
                    if k < before.len() {
                        assert(after[k] == before[k]);
                    }
                }
            }
            start = i + 1;
        }
        i += 1;
    }
    let piece = String::from_str(text.substring_char(start, len));
    let ghost before = texts(parts@);
    parts.push(piece);
    proof {
        let after = texts(parts@);
        assert(after =~= before.push(piece@));
        assert(after.drop_last() =~= before);
        assert(text@ =~= text@.take(start as int) + piece@);
        if before.len() == 0 {
            assert(text@.take(0) =~= Seq::<char>::empty());
        }
        assert(joined(after) =~= text@);
        assert forall|k: int| 0 <= k < after.len() implies !(#[trigger] after[k]).contains(',') by {
            if k < before.len() {
                assert(after[k] == before[k]);
            }
        }
    }
    parts
}

/// The record that `row` describes, where its two moments read as `from`
/// and `until`: `None` where one of them did not read, and where the
/// suspension would not end after it began.
pub open spec fn row_record(
    row: SuspensionRow,
    roles: Seq<Seq<char>>,
    from: Option<i64>,
    until: Option<i64>,
) -> Option<SuspensionView> {
    if from is Some && until is Some && from->0 < until->0 {
        Some(
            SuspensionView {
                id: row.id as int,
                guild_id: row.guild_id as int,
                user_id: row.user_id as int,
                moderator_id: row.moderator_id as int,
                previous_roles: roles,
                from_timestamp: from->0 as int,
                until_timestamp: until->0 as int,
                reason: optional_text(row.reason),
                active: row.active,
            },
        )
    } else {
        None
    }
}

/// The record that `row` describes, where its two moments were read as
/// `from` and `until`. A row with a moment that did not read, or that does
/// not end after it began, is refused as `MalformedRow`.
pub fn record_of_row(row: &SuspensionRow, from: Option<i64>, until: Option<i64>) -> (decoded:
    Result<Suspension, PersistenceError>)
    ensures
        match decoded {
            Ok(record) => {
                &&& is_split_of(record@.previous_roles, row.previous_roles@)
                &&& row_record(*row, record@.previous_roles, from, until) == Some(record@)
            },
            Err(e) => {
                &&& e == PersistenceError::MalformedRow
                &&& !(from is Some && until is Some && from->0 < until->0)
            },
        },
{
    match (from, until) {
        (Some(from_timestamp), Some(until_timestamp)) => {
            if from_timestamp < until_timestamp {
                Ok(
                    Suspension {
                        id: row.id,
                        guild_id: row.guild_id,
                        user_id: row.user_id,
                        moderator_id: row.moderator_id,
                        previous_roles: split_roles(row.previous_roles.as_str()),
                        from_timestamp,
                        until_timestamp,
                        reason: copy_optional_string(&row.reason),
                        active: row.active,
                    },
                )
            } else {
                Err(PersistenceError::MalformedRow)
            }
        },
        _ => Err(PersistenceError::MalformedRow),
    }
}

/// The record that `row` describes. A row whose moments chrono does not
/// read, or that does not end after it began, is refused as `MalformedRow`.
pub fn decode_row(row: &SuspensionRow) -> (decoded: Result<Suspension, PersistenceError>)
    ensures
        match decoded {
            Ok(record) => {
                &&& is_split_of(record@.previous_roles, row.previous_roles@)
                &&& row_record(
                    *row,
                    record@.previous_roles,
                    datetime_seconds(row.from_datetime@),
                    datetime_seconds(row.until_datetime@),
                ) == Some(record@)
            },
            Err(e) => {
                &&& e == PersistenceError::MalformedRow
                &&& !({
                    &&& datetime_seconds(row.from_datetime@) matches Some(from)
                    &&& datetime_seconds(row.until_datetime@) matches Some(until)
                    &&& from < until
                })
            },
        },
{
    let from = parse_datetime(row.from_datetime.as_str());
    let until = parse_datetime(row.until_datetime.as_str());
    record_of_row(row, from, until)
}

/// The row for `record`, with its two moments written as `from_datetime`
/// and `until_datetime`.
pub fn row_of_record(record: &Suspension, from_datetime: String, until_datetime: String) -> (row:
    SuspensionRow)
    ensures
        row.id == record.id,
        row.guild_id == record.guild_id,
        row.user_id == record.user_id,
        row.moderator_id == record.moderator_id,
        row.previous_roles@ == joined(record@.previous_roles),
        row.from_datetime == from_datetime,
        row.until_datetime == until_datetime,
        optional_text(row.reason) == record@.reason,
        row.active == record.active,
{
    SuspensionRow {
        id: record.id,
        guild_id: record.guild_id,
        user_id: record.user_id,
        moderator_id: record.moderator_id,
        previous_roles: join_roles(&record.previous_roles),
        from_datetime,
        until_datetime,
        reason: copy_optional_string(&record.reason),
        active: record.active,
    }
}

/// The row for `record`: `None` where one of its moments is beyond the
/// dates that chrono writes.
pub fn encode_row(record: &Suspension) -> (encoded: Option<SuspensionRow>)
    ensures
        match encoded {
            Some(row) => {
                &&& row.id == record.id
                &&& row.guild_id == record.guild_id
                &&& row.user_id == record.user_id
                &&& row.moderator_id == record.moderator_id
                &&& row.previous_roles@ == joined(record@.previous_roles)
                &&& datetime_text(record.from_timestamp) == Some(row.from_datetime@)
                &&& datetime_text(record.until_timestamp) == Some(row.until_datetime@)
                &&& optional_text(row.reason) == record@.reason
                &&& row.active == record.active
            },
            None => datetime_text(record.from_timestamp) is None || datetime_text(
                record.until_timestamp,
            ) is None,
        },
{
    match format_datetime(record.from_timestamp) {
        Some(from_datetime) => match format_datetime(record.until_timestamp) {
            Some(until_datetime) => Some(row_of_record(record, from_datetime, until_datetime)),
            None => None,
        },
        None => None,
    }
}

/// Joined texts end with the last of them, and where there are several, a
/// comma stands before it.
proof fn lemma_joined_ends_with_last(parts: Seq<Seq<char>>)
    requires
        parts.len() >= 1,
    ensures
        joined(parts).len() >= parts.last().len(),
        joined(parts).skip(joined(parts).len() - parts.last().len()) == parts.last(),
        parts.len() >= 2 ==> {
            &&& joined(parts).len() == joined(parts.drop_last()).len() + 1 + parts.last().len()
            &&& joined(parts)[joined(parts.drop_last()).len() as int] == ','
            &&& joined(parts).take(joined(parts.drop_last()).len() as int) == joined(
                parts.drop_last(),
            )
        },
{
    let text = joined(parts);
    let last = parts.last();
    if parts.len() == 1 {
        assert(text.skip(0) =~= last);
    } else {
        let head = joined(parts.drop_last());
        assert(text =~= head + seq![','] + last);
        assert(text.skip(text.len() - last.len()) =~= last);
        assert(text.take(head.len() as int) =~= head);
    }
}

/// A text splits at its commas in one way only.
pub proof fn lemma_split_is_unique(a: Seq<Seq<char>>, b: Seq<Seq<char>>, text: Seq<char>)
    requires
        is_split_of(a, text),
        is_split_of(b, text),
    ensures
        a == b,
    decreases a.len(),
{
    lemma_joined_ends_with_last(a);
    lemma_joined_ends_with_last(b);
    let la = a.last();
    let lb = b.last();
    // The last piece is what follows the last comma, so both splits end
    // with the same piece.
    if la.len() < lb.len() {
        if a.len() >= 2 {
            let at = joined(a.drop_last()).len() as int;
            let within = at - (text.len() - lb.len());
            assert(text.skip(text.len() - lb.len())[within] == text[at]);
            assert(lb[within] == ',');
            assert(lb.contains(','));
        }
        assert(false);
    }
    if lb.len() < la.len() {
        if b.len() >= 2 {
            let at = joined(b.drop_last()).len() as int;
            let within = at - (text.len() - la.len());
            assert(text.skip(text.len() - la.len())[within] == text[at]);
            assert(la[within] == ',');
            assert(la.contains(','));
        }
        assert(false);
    }
    assert(la == lb);
    if a.len() == 1 {
        if b.len() >= 2 {
            assert(text.len() == la.len());
        }
        assert(b.len() == 1);
        assert(a =~= b);
    } else {
        if b.len() == 1 {
            assert(text.len() == lb.len());
        }
        let head = joined(a.drop_last());
        assert(joined(b.drop_last()).len() == head.len());
        assert(is_split_of(a.drop_last(), head));
        assert(is_split_of(b.drop_last(), head));
        lemma_split_is_unique(a.drop_last(), b.drop_last(), head);
        assert(a =~= a.drop_last().push(la));
        assert(b =~= b.drop_last().push(lb));
    }
}

/// What was joined splits into what it was: pieces without commas, at
/// least one of them, are the one split of their joined text.
pub proof fn lemma_joined_splits_back(parts: Seq<Seq<char>>, split: Seq<Seq<char>>)
    requires
        parts.len() >= 1,
        forall|i: int| 0 <= i < parts.len() ==> !(#[trigger] parts[i]).contains(','),
        is_split_of(split, joined(parts)),
    ensures
        split == parts,
{
    lemma_split_is_unique(split, parts, joined(parts));
}

/// The roles that a suspension remembers survive being written down: however
/// the joined decimal texts of `roles` are split at their commas, the role
/// ids among the pieces are `roles`.
pub proof fn lemma_roles_survive_the_row(roles: Seq<u64>, split: Seq<Seq<char>>)
    requires
        is_split_of(split, joined(role_texts(roles))),
    ensures
        role_ids(split) == roles,
{
    let written = role_texts(roles);
    if roles.len() == 0 {
        // Nothing joined is the empty text, which splits into one empty
        // piece, which is no role.
        lemma_split_is_unique(split, seq![Seq::<char>::empty()], Seq::<char>::empty());
        assert(split.drop_last() =~= Seq::<Seq<char>>::empty());
        assert(role_ids(split.drop_last()) =~= Seq::<u64>::empty());
        assert(role_ids(split) =~= roles);
    } else {
        assert forall|i: int| 0 <= i < written.len() implies !(#[trigger] written[i]).contains(
            ',',
        ) by {
            lemma_decimal_text_reads_back(roles[i] as nat);
            let digits = decimal_text(roles[i] as nat);
            if digits.contains(',') {
                let k = choose|k: int| 0 <= k < digits.len() && digits[k] == ',';
                assert(is_digit(digits[k]));
            }
        }
        lemma_joined_splits_back(written, split);
        lemma_remembered_roles_read_back(roles);
    }
}

/// Whether `rows` describe a table: every row's moments read, every
/// suspension ends after it began, and the identities are positive,
/// ascending and below the largest 64-bit number.
pub open spec fn rows_make_table(rows: Seq<SuspensionRow>) -> bool {
    &&& forall|i: int|
        0 <= i < rows.len() ==> {
            &&& datetime_seconds((#[trigger] rows[i]).from_datetime@) matches Some(from)
            &&& datetime_seconds(rows[i].until_datetime@) matches Some(until)
            &&& from < until
            &&& 1 <= rows[i].id < i64::MAX
        }
    &&& forall|i: int, j: int|
        0 <= i < j < rows.len() ==> (#[trigger] rows[i]).id < (#[trigger] rows[j]).id
}

/// The table that `rows` describe, as a backing store gave them back,
/// oldest identity first.
///
/// Every row must decode, and the records must make a table: identities
/// positive and ascending, each record ending after it began. Then the next
/// identity is the one after the last row's, or 1 for no rows. Anything else
/// is refused as `MalformedRow`.
pub fn load_database(rows: &Vec<SuspensionRow>) -> (loaded: Result<Database, PersistenceError>)
    ensures
        loaded is Ok <==> rows_make_table(rows@),
        match loaded {
            Ok(db) => {
                &&& db.wf()
                &&& db@.len() == rows@.len()
                &&& forall|i: int|
                    0 <= i < rows@.len() ==> {
                        &&& is_split_of((#[trigger] db@[i]).previous_roles, rows@[i].previous_roles@)
                        &&& row_record(
                            rows@[i],
                            db@[i].previous_roles,
                            datetime_seconds(rows@[i].from_datetime@),
                            datetime_seconds(rows@[i].until_datetime@),
                        ) == Some(db@[i])
                    }
                &&& db.next_id() == if rows@.len() == 0 {
                    1
                } else {
                    rows@.last().id + 1
                }
            },
            Err(e) => e == PersistenceError::MalformedRow,
        },
{
    let mut records: Vec<Suspension> = Vec::new();
    let mut i: usize = 0;
    while i < rows.len()
        invariant
            i <= rows.len(),
            records@.len() == i,
            forall|k: int|
                0 <= k < i ==> {
                    &&& is_split_of((#[trigger] records@[k])@.previous_roles, rows@[k].previous_roles@)
                    &&& row_record(
                        rows@[k],
                        records@[k]@.previous_roles,
                        datetime_seconds(rows@[k].from_datetime@),
                        datetime_seconds(rows@[k].until_datetime@),
                    ) == Some(records@[k]@)
                },
        decreases rows.len() - i,
    {
        match decode_row(&rows[i]) {
            Ok(record) => {
                records.push(record);
            },
            Err(e) => {
                assert(!rows_make_table(rows@)) by {
                    let row = rows@[i as int];
                };
                return Err(e);
            },
        }
        i += 1;
    }
    let ghost decoded = records@;
    proof {
        let t = views(decoded);
        assert forall|k: int| 0 <= k < t.len() implies (#[trigger] t[k]).id == rows@[k].id
            && t[k].from_timestamp < t[k].until_timestamp by {
            assert(t[k] == decoded[k]@);
        }
    }
    match Database::from_records(records) {
        Ok(db) => {
            proof {
                assert forall|k: int| 0 <= k < rows@.len() implies {
                    &&& is_split_of((#[trigger] db@[k]).previous_roles, rows@[k].previous_roles@)
                    &&& row_record(
                        rows@[k],
                        db@[k].previous_roles,
                        datetime_seconds(rows@[k].from_datetime@),
                        datetime_seconds(rows@[k].until_datetime@),
                    ) == Some(db@[k])
                } by {
                    assert(db@[k] == decoded[k]@);
                }
                if rows@.len() > 0 {
                    assert(db@[rows@.len() - 1] == decoded.last()@);
                }
                assert(rows_make_table(rows@)) by {
                    assert forall|k: int| 0 <= k < rows@.len() implies {
                        &&& datetime_seconds((#[trigger] rows@[k]).from_datetime@) matches Some(
                            from,
                        )
                        &&& datetime_seconds(rows@[k].until_datetime@) matches Some(until)
                        &&& from < until
                        &&& 1 <= rows@[k].id < i64::MAX
                    } by {
                        assert(db@[k] == decoded[k]@);
                        assert(1 <= db@[k].id < db.next_id());
                    }
                    assert forall|a: int, b: int| 0 <= a < b < rows@.len() implies (
                    #[trigger] rows@[a]).id < (#[trigger] rows@[b]).id by {
                        assert(db@[a].id < db@[b].id);
                    }
                }
            }
            Ok(db)
        },
        Err(e) => {
            proof {
                let t = views(decoded);
                if rows_make_table(rows@) {
                    let next_id: int = if rows@.len() == 0 {
                        1
                    } else {
                        rows@.last().id + 1
                    };
                    assert forall|k: int| 0 <= k < t.len() implies 1 <= (#[trigger] t[k]).id
                        < next_id by {
                        if k < rows@.len() - 1 {
                            assert(rows@[k].id < rows@[rows@.len() - 1].id);
                        }
                    }
                    assert forall|a: int, b: int| 0 <= a < b < t.len() implies (#[trigger] t[a]).id
                        < (#[trigger] t[b]).id by {
                        assert(rows@[a].id < rows@[b].id);
                    }
                    assert(table_wf(t, next_id));
                }
            }
            Err(e)
        },
    }
}

} // verus!
