use suspension_engine::config::{Channels, GuildConfig, Roles};
use suspension_engine::db::Database;
use suspension_engine::error::SuspendError;
use suspension_engine::history::{
    date_string_to_discord_timestamp, discord_timestamp, entry, history_message, mention,
    suspension_history,
};
use suspension_engine::member::Member;
use suspension_engine::suspension::Suspension;

fn guild_config() -> GuildConfig {
    GuildConfig {
        id: 77,
        channels: Channels { ban_log: 1, ban_log_staff: 2, event_log: 3 },
        roles: Roles { suspended: 500, suspend_permitted: vec![10, 11] },
    }
}

fn moderator() -> Member {
    Member { id: 1000, roles: vec![11], administrator: false }
}

fn record(id: i64, from: i64, until: i64, reason: Option<&str>, active: bool) -> Suspension {
    Suspension {
        id,
        guild_id: 77,
        user_id: 2000,
        moderator_id: 1000 + id,
        previous_roles: vec![],
        from_timestamp: from,
        until_timestamp: until,
        reason: reason.map(String::from),
        active,
    }
}

#[test]
fn a_moment_is_written_for_the_chat() {
    assert_eq!(discord_timestamp(1_431_648_000), "<t:1431648000>");
    assert_eq!(discord_timestamp(0), "<t:0>");
    assert_eq!(discord_timestamp(-1), "<t:-1>");
}

#[test]
fn a_date_is_written_for_the_chat() {
    assert_eq!(
        date_string_to_discord_timestamp("2015-05-15 00:00:00"),
        Some(String::from("<t:1431648000>"))
    );
    assert_eq!(
        date_string_to_discord_timestamp("2023-11-14 22:13:20.026490708"),
        Some(String::from("<t:1700000000>"))
    );
    assert_eq!(
        date_string_to_discord_timestamp("1969-12-31 23:59:59"),
        Some(String::from("<t:-1>"))
    );
    assert_eq!(date_string_to_discord_timestamp("next week"), None);
    assert_eq!(date_string_to_discord_timestamp(""), None);
    assert_eq!(date_string_to_discord_timestamp("2015-05-15"), None);
}

#[test]
fn a_user_is_mentioned_by_id() {
    assert_eq!(mention(2000), "<@2000>");
    assert_eq!(mention(0), "<@0>");
    assert_eq!(mention(i64::MAX), "<@9223372036854775807>");
    // Ids beyond the signed range are kept with the same bits.
    assert_eq!(mention(-1), "<@18446744073709551615>");
    assert_eq!(mention(i64::MIN), "<@9223372036854775808>");
    assert_eq!(mention(10_000_000_000_000_000_000u64 as i64), "<@10000000000000000000>");
}

#[test]
fn an_entry_shows_one_suspension() {
    assert_eq!(
        entry(1, &record(4, 100, 200, Some("spam"), true)),
        "\r\n### 1. Suspension (Active)\r\nIssued by: <@1004>\r\nFrom: <t:100>\r\nUntil: <t:200>\r\nReason: spam"
    );
    assert_eq!(
        entry(12, &record(4, 100, 200, None, false)),
        "\r\n### 12. Suspension \r\nIssued by: <@1004>\r\nFrom: <t:100>\r\nUntil: <t:200>\r\nReason: None"
    );
}

#[test]
fn a_history_without_suspensions() {
    assert_eq!(
        history_message(2000, &vec![]),
        ":sparkles: <@2000> has never been suspended. What a good boy/girl!"
    );
}

#[test]
fn a_history_numbers_its_entries() {
    let history = vec![record(1, 100, 200, Some("spam"), false), record(2, 300, 400, None, true)];
    assert_eq!(
        history_message(2000, &history),
        "## :open_file_folder: Suspension history for <@2000>\r\n\
         \r\n### 1. Suspension \r\nIssued by: <@1001>\r\nFrom: <t:100>\r\nUntil: <t:200>\r\nReason: spam\
         \r\n### 2. Suspension (Active)\r\nIssued by: <@1002>\r\nFrom: <t:300>\r\nUntil: <t:400>\r\nReason: None"
    );
}

#[test]
fn the_history_of_a_member_is_read_from_the_table() {
    let config = guild_config();
    let mut db = Database::new();
    db.log_suspension(77, 2000, 1002, vec![], 300, 400, None).unwrap();
    db.log_suspension(77, 2000, 1001, vec![], 100, 200, Some(String::from("spam"))).unwrap();
    db.log_suspension(77, 2001, 1001, vec![], 100, 200, None).unwrap();
    db.claim_due(250);
    assert_eq!(
        suspension_history(&db, &config, 77, &moderator(), 2000),
        Ok(String::from(
            "## :open_file_folder: Suspension history for <@2000>\r\n\
             \r\n### 1. Suspension \r\nIssued by: <@1001>\r\nFrom: <t:100>\r\nUntil: <t:200>\r\nReason: spam\
             \r\n### 2. Suspension (Active)\r\nIssued by: <@1002>\r\nFrom: <t:300>\r\nUntil: <t:400>\r\nReason: None"
        ))
    );
    assert_eq!(
        suspension_history(&db, &config, 77, &moderator(), 2002),
        Ok(String::from(":sparkles: <@2002> has never been suspended. What a good boy/girl!"))
    );
}

#[test]
fn the_history_is_shown_to_those_who_may_suspend() {
    let db = Database::new();
    let bystander = Member { id: 1001, roles: vec![4], administrator: false };
    assert_eq!(
        suspension_history(&db, &guild_config(), 77, &bystander, 2000),
        Err(SuspendError::Unauthorized)
    );
}
