//! Per-guild settings: the role that marks a suspended member, the roles that
//! may suspend, the channels that receive logs, and the monitor's poll interval.

use vstd::prelude::*;

verus! {

/// Channels of a guild that receive the bot's messages.
#[derive(Debug, Clone, PartialEq, Eq)]
pub struct Channels {
    pub ban_log: u64,
    pub ban_log_staff: u64,
    pub event_log: u64,
}

/// Roles of a guild that the suspension rules read.
#[derive(Debug, Clone, PartialEq, Eq)]
pub struct Roles {
    /// The single role a suspended member holds.
    pub suspended: u64,
    /// Holding any of these roles permits suspending others.
    pub suspend_permitted: Vec<u64>,
}

/// Settings of one guild.
#[derive(Debug, Clone, PartialEq, Eq)]
pub struct GuildConfig {
    pub id: u64,
    pub channels: Channels,
    pub roles: Roles,
}

/// Settings of the whole service.
#[derive(Debug, Clone, PartialEq, Eq)]
pub struct Config {
    pub monitoring_interval_in_seconds: u64,
    pub guilds: Vec<GuildConfig>,
}

/// Whether `guilds[index]` is the first entry for `guild_id`.
pub open spec fn is_first_entry(guilds: Seq<GuildConfig>, guild_id: u64, index: int) -> bool {
    &&& 0 <= index < guilds.len()
    &&& guilds[index].id == guild_id
    &&& forall|j: int| 0 <= j < index ==> guilds[j].id != guild_id
}

/// Whether no entry of `guilds` is for `guild_id`.
pub open spec fn has_no_entry(guilds: Seq<GuildConfig>, guild_id: u64) -> bool {
    forall|j: int| 0 <= j < guilds.len() ==> guilds[j].id != guild_id
}

impl Config {
    /// The settings of `guild_id`: the first entry with that id, or `None`
    /// when the guild is not configured.
    pub fn get_guild_config(&self, guild_id: u64) -> (found: Option<&GuildConfig>)
        ensures
            match found {
                Some(guild) => exists|i: int|
                    is_first_entry(self.guilds@, guild_id, i) && *guild == self.guilds@[i],
                None => has_no_entry(self.guilds@, guild_id),
            },
    {
        let mut i: usize = 0;
        while i < self.guilds.len()
            invariant
                i <= self.guilds.len(),
                forall|j: int| 0 <= j < i ==> self.guilds@[j].id != guild_id,
            decreases self.guilds.len() - i,
        {
            if self.guilds[i].id == guild_id {
                assert(is_first_entry(self.guilds@, guild_id, i as int));
                return Some(&self.guilds[i]);
            }
            i += 1;
        }
        None
    }
}

} // verus!
