//! What the rules read of a guild member, and who may suspend.

use vstd::prelude::*;
use crate::config::GuildConfig;
use crate::db::{Database, current_records};

verus! {

/// A member of a guild, as far as suspensions are concerned.
#[derive(Debug, Clone, PartialEq, Eq)]
pub struct Member {
    /// The member's user id, as the table of suspensions keeps it.
    pub id: i64,
    /// The ids of the roles that the member holds.
    pub roles: Vec<u64>,
    /// Whether the member administers the guild.
    pub administrator: bool,
}

/// Whether a member with `roles` may suspend others where `permitted` are
/// the roles that allow it: administrators may, and so may everyone who
/// holds at least one permitted role.
pub open spec fn may_suspend(permitted: Seq<u64>, roles: Seq<u64>, administrator: bool) -> bool {
    administrator || exists|i: int| 0 <= i < roles.len() && permitted.contains(#[trigger] roles[i])
}

/// Whether `roles` holds `role`.
pub fn holds_role(roles: &Vec<u64>, role: u64) -> (held: bool)
    ensures
        held == roles@.contains(role),
{
    let mut i: usize = 0;
    while i < roles.len()
        invariant
            i <= roles.len(),
            forall|j: int| 0 <= j < i ==> roles@[j] != role,
        decreases roles.len() - i,
    {
        if roles[i] == role {
            return true;
        }
        i += 1;
    }
    false
}

/// Whether `member` may suspend others in the guild with the settings
/// `guild_config`.
pub fn user_has_suspension_permission(guild_config: &GuildConfig, member: &Member) -> (allowed:
    bool)
    ensures
        allowed == may_suspend(
            guild_config.roles.suspend_permitted@,
            member.roles@,
            member.administrator,
        ),
{
    if member.administrator {
        return true;
    }
    let mut i: usize = 0;
    while i < member.roles.len()
        invariant
            i <= member.roles.len(),
            forall|j: int|
                0 <= j < i ==> !guild_config.roles.suspend_permitted@.contains(
                    #[trigger] member.roles@[j],
                ),
        decreases member.roles.len() - i,
    {
        if holds_role(&guild_config.roles.suspend_permitted, member.roles[i]) {
            return true;
        }
        i += 1;
    }
    false
}

/// Whether `member` is under a suspension in guild `guild_id` that is in
/// force at `now`.
pub fn user_is_suspended(db: &Database, guild_id: i64, member: &Member, now: i64) -> (suspended:
    bool)
    ensures
        suspended == (current_records(db@, guild_id as int, member.id as int, now as int).len()
            > 0),
{
    let active_suspensions = db.get_active_suspensions(guild_id, member.id, now);
    active_suspensions.len() > 0
}

} // verus!
