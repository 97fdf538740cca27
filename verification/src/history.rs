//! What a moderator reads: a member's suspensions as a message.

use vstd::prelude::*;
use crate::config::GuildConfig;
use crate::db::{Database, is_history};
use crate::error::SuspendError;
use crate::member::{Member, may_suspend, user_has_suspension_permission};
use crate::row::{datetime_seconds, parse_datetime};
use crate::suspension::{Suspension, SuspensionView, views};
use crate::text::{decimal_string, decimal_text, signed_decimal_string, signed_text};

verus! {

/// How a moment is written for the chat to show it in the reader's own time
/// zone: `<t:` and the seconds since the epoch and `>`.
pub open spec fn discord_timestamp_text(seconds: int) -> Seq<char> {
    "<t:"@ + signed_text(seconds) + ">"@
}

/// The user id that the table keeps as `id`, as the chat knows it: an
/// unsigned 64-bit number with the same bits.
pub open spec fn unsigned_id(id: int) -> nat {
    if id >= 0 {
        id as nat
    } else {
        (id + 0x1_0000_0000_0000_0000) as nat
    }
}

/// How a user is mentioned: `<@` and the user id and `>`.
pub open spec fn mention_text(user_id: int) -> Seq<char> {
    "<@"@ + decimal_text(unsigned_id(user_id)) + ">"@
}

/// The entry for `record`, the `count`-th suspension of a history.
pub open spec fn entry_text(count: nat, record: SuspensionView) -> Seq<char> {
    "\r\n### "@ + decimal_text(count) + ". Suspension "@ + (if record.active {
        "(Active)"@
    } else {
        ""@
    }) + "\r\nIssued by: "@ + mention_text(record.moderator_id) + "\r\nFrom: "@
        + discord_timestamp_text(record.from_timestamp) + "\r\nUntil: "@ + discord_timestamp_text(
        record.until_timestamp,
    ) + "\r\nReason: "@ + (match record.reason {
        Some(reason) => reason,
        None => "None"@,
    })
}

/// The entries for `history`, numbered from 1.
pub open spec fn entries_text(history: Seq<SuspensionView>) -> Seq<char>
    decreases history.len(),
{
    if history.len() == 0 {
        Seq::empty()
    } else {
        entries_text(history.drop_last()) + entry_text(history.len(), history.last())
    }
}

/// The message that shows `history`, the suspensions of user `user_id`.
pub open spec fn history_text(user_id: int, history: Seq<SuspensionView>) -> Seq<char> {
    if history.len() == 0 {
        ":sparkles: "@ + mention_text(user_id)
            + " has never been suspended. What a good boy/girl!"@
    } else {
        "## :open_file_folder: Suspension history for "@ + mention_text(user_id) + "\r\n"@
            + entries_text(history)
    }
}

/// Writes a moment for the chat to show it in the reader's own time zone.
pub fn discord_timestamp(seconds: i64) -> (text: String)
    ensures
        text@ == discord_timestamp_text(seconds as int),
{
    let mut text = String::from_str("<t:");
    text.append(signed_decimal_string(seconds).as_str());
    text.append(">");
    text
}

/// Writes the moment that `date_string` names, a date and a time of day in
/// UTC, for the chat to show it in the reader's own time zone. `None` where
/// `date_string` does not read as a moment.
pub fn date_string_to_discord_timestamp(date_string: &str) -> (text: Option<String>)
    ensures
        match datetime_seconds(date_string@) {
            Some(seconds) => text matches Some(t) && t@ == discord_timestamp_text(seconds as int),
            None => text is None,
        },
{
    match parse_datetime(date_string) {
        Some(seconds) => Some(discord_timestamp(seconds)),
        None => None,
    }
}

/// Mentions the user whom the table knows as `user_id`.
pub fn mention(user_id: i64) -> (text: String)
    ensures
        text@ == mention_text(user_id as int),
{
    let id: u64 = if user_id >= 0 {
        user_id as u64
    } else {
        ((user_id + i64::MAX) + 1) as u64 + 0x8000_0000_0000_0000u64
    };
    let mut text = String::from_str("<@");
    text.append(decimal_string(id).as_str());
    text.append(">");
    text
}

/// Writes the entry for `record`, the `count`-th suspension of a history.
pub fn entry(count: u64, record: &Suspension) -> (text: String)
    ensures
        text@ == entry_text(count as nat, record@),
{
    let mut text = String::from_str("\r\n### ");
    text.append(decimal_string(count).as_str());
    text.append(". Suspension ");
    text.append(
        if record.active {
            "(Active)"
        } else {
            ""
        },
    );
    text.append("\r\nIssued by: ");
    text.append(mention(record.moderator_id).as_str());
    text.append("\r\nFrom: ");
    text.append(discord_timestamp(record.from_timestamp).as_str());
    text.append("\r\nUntil: ");
    text.append(discord_timestamp(record.until_timestamp).as_str());
    text.append("\r\nReason: ");
    match &record.reason {
        Some(reason) => {
            text.append(reason.as_str());
        },
        None => {
            text.append("None");
        },
    }
    text
}

/// Writes the message that shows `history`, the suspensions of user
/// `user_id`: one numbered entry for each, or a line that says that there
/// are none.
pub fn history_message(user_id: i64, history: &Vec<Suspension>) -> (message: String)
    ensures
        message@ == history_text(user_id as int, views(history@)),
{
    let ghost all = views(history@);
    if history.len() == 0 {
        let mut message = String::from_str(":sparkles: ");
        message.append(mention(user_id).as_str());
        message.append(" has never been suspended. What a good boy/girl!");
        return message;
    }
    let mut message = String::from_str("## :open_file_folder: Suspension history for ");
    message.append(mention(user_id).as_str());
    message.append("\r\n");
    let ghost head = message@;
    let mut i: usize = 0;
    assert(head + entries_text(all.take(0)) =~= head);
    while i < history.len()
        invariant
            i <= history.len(),
            all == views(history@),
            message@ == head + entries_text(all.take(i as int)),
        decreases history.len() - i,
    {
        let ghost before = message@;
        message.append(entry((i + 1) as u64, &history[i]).as_str());
        proof {
            let listed = all.take(i + 1);
            assert(listed.drop_last() =~= all.take(i as int));
            assert(listed.last() == history@[i as int]@);
            assert(message@ =~= head + entries_text(listed));
        }
        i += 1;
    }
    assert(all.take(history.len() as int) =~= all);
    message
}

/// The message that shows `author` the suspensions of member `user_id` of
/// guild `guild_id`, in force or not, ordered by when they began. Where
/// `author` may not suspend, the request is turned down as `Unauthorized`.
pub fn suspension_history(
    db: &Database,
    guild_config: &GuildConfig,
    guild_id: i64,
    author: &Member,
    user_id: i64,
) -> (outcome: Result<String, SuspendError>)
    requires
        db.wf(),
    ensures
        match outcome {
            Ok(message) => {
                &&& may_suspend(
                    guild_config.roles.suspend_permitted@,
                    author.roles@,
                    author.administrator,
                )
                &&& exists|history: Seq<SuspensionView>|
                    is_history(history, db@, guild_id as int, user_id as int) && message@
                        == history_text(user_id as int, history)
            },
            Err(e) => {
                &&& e == SuspendError::Unauthorized
                &&& !may_suspend(
                    guild_config.roles.suspend_permitted@,
                    author.roles@,
                    author.administrator,
                )
            },
        },
{
    if !user_has_suspension_permission(guild_config, author) {
        return Err(SuspendError::Unauthorized);
    }
    let suspensions = db.get_suspensions(guild_id, user_id);
    let message = history_message(user_id, &suspensions);
    assert(is_history(views(suspensions@), db@, guild_id as int, user_id as int));
    Ok(message)
}

} // verus!
