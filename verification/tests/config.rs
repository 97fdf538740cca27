use suspension_engine::config::{Channels, Config, GuildConfig, Roles};

fn guild(id: u64, suspended: u64) -> GuildConfig {
    GuildConfig {
        id,
        channels: Channels { ban_log: 1, ban_log_staff: 2, event_log: 3 },
        roles: Roles { suspended, suspend_permitted: vec![10, 11] },
    }
}

#[test]
fn get_guild_config_finds_the_first_entry() {
    let config = Config {
        monitoring_interval_in_seconds: 60,
        guilds: vec![guild(7, 70), guild(8, 80), guild(7, 71)],
    };
    assert_eq!(config.get_guild_config(7).map(|g| g.roles.suspended), Some(70));
    assert_eq!(config.get_guild_config(8).map(|g| g.roles.suspended), Some(80));
    assert!(config.get_guild_config(9).is_none());
}

#[test]
fn get_guild_config_of_an_empty_configuration() {
    let config = Config { monitoring_interval_in_seconds: 60, guilds: vec![] };
    assert!(config.get_guild_config(0).is_none());
}
