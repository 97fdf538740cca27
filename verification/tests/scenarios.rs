use suspension_engine::config::{Channels, Config, GuildConfig, Roles};
use suspension_engine::db::Database;
use suspension_engine::error::SuspendError;
use suspension_engine::lift::remove_suspension;
use suspension_engine::member::Member;
use suspension_engine::monitor::{start_monitoring, Monitor, MonitorAction, MonitorEvent};
use suspension_engine::restore::{restore_roles, RestoreOutcome, RestoreStep};
use suspension_engine::row::{encode_row, load_database};
use suspension_engine::suspend::suspend;
use suspension_engine::suspension::Suspension;

const GUILD: u64 = 77;
const SUSPENDED_ROLE: u64 = 500;
const T0: i64 = 1_700_000_000;
const MONTH: i64 = 30 * 86_400;

fn config() -> Config {
    Config {
        monitoring_interval_in_seconds: 60,
        guilds: vec![GuildConfig {
            id: GUILD,
            channels: Channels { ban_log: 1, ban_log_staff: 2, event_log: 3 },
            roles: Roles { suspended: SUSPENDED_ROLE, suspend_permitted: vec![10, 11] },
        }],
    }
}

fn moderator() -> Member {
    Member { id: 1000, roles: vec![11], administrator: false }
}

/// The guild: which roles it has, and who holds which.
struct Guild {
    roles: Vec<u64>,
    members: Vec<(i64, Vec<u64>)>,
}

impl Guild {
    fn member(&self, user_id: i64) -> Option<Member> {
        self.members
            .iter()
            .find(|(id, _)| *id == user_id)
            .map(|(id, roles)| Member { id: *id, roles: roles.clone(), administrator: false })
    }

    fn held_by(&self, user_id: i64) -> Vec<u64> {
        let mut roles = self.member(user_id).unwrap().roles;
        roles.sort();
        roles
    }

    fn roles_mut(&mut self, user_id: i64) -> Option<&mut Vec<u64>> {
        self.members.iter_mut().find(|(id, _)| *id == user_id).map(|(_, roles)| roles)
    }

    /// Takes every role from the member and gives the one of the suspended.
    fn restrict(&mut self, record: &Suspension, suspended_role: u64) {
        let roles = self.roles_mut(record.user_id).unwrap();
        roles.clear();
        roles.push(suspended_role);
    }

    fn answer(&mut self, user_id: i64, step: RestoreStep) -> bool {
        match step {
            RestoreStep::ResolveMember { user_id, .. } => self.member(user_id).is_some(),
            RestoreStep::RemoveRole(role) => match self.roles_mut(user_id) {
                Some(roles) => {
                    roles.retain(|r| *r != role);
                    true
                }
                None => false,
            },
            RestoreStep::CheckRole(role) => self.roles.contains(&role),
            RestoreStep::AddRole(role) => match self.roles_mut(user_id) {
                Some(roles) => {
                    if !roles.contains(&role) {
                        roles.push(role);
                    }
                    true
                }
                None => false,
            },
            RestoreStep::Finished => true,
        }
    }

    fn restore(&mut self, record: &Suspension, suspended_role: u64) -> RestoreOutcome {
        let mut restoration = restore_roles(suspended_role, record);
        while !restoration.is_finished() {
            let step = restoration.next_step();
            let succeeded = self.answer(record.user_id, step);
            restoration.advance(succeeded);
        }
        restoration.outcome().unwrap()
    }
}

/// One turn of the monitor's loop at `now`, from the claim to the sleep.
/// Gives the records that were restored, each with how that ended.
fn cycle(
    monitor: &mut Monitor,
    db: &mut Database,
    guild: &mut Guild,
    suspended_role: u64,
    now: i64,
) -> Vec<(i64, RestoreOutcome)> {
    assert_eq!(monitor.pending(), MonitorAction::ClaimDue);
    let mut handled = Vec::new();
    let mut action = monitor.step(MonitorEvent::Claimed(db.claim_due(now)));
    loop {
        match action {
            MonitorAction::Restore(record) => {
                let outcome = guild.restore(&record, suspended_role);
                handled.push((record.id, outcome.clone()));
                action = monitor.step(MonitorEvent::Restored(outcome));
            }
            MonitorAction::Sleep(seconds) => {
                assert_eq!(seconds, 60);
                assert_eq!(monitor.step(MonitorEvent::Woke), MonitorAction::ClaimDue);
                return handled;
            }
            other => panic!("the monitor asked for {:?} in the middle of a cycle", other),
        }
    }
}

#[test]
fn a_suspension_runs_its_course() {
    let config = config();
    let guild_config = config.get_guild_config(GUILD).unwrap();
    let suspended_role = guild_config.roles.suspended;
    let mut guild = Guild {
        roles: vec![21, 22, 23, SUSPENDED_ROLE],
        members: vec![(2000, vec![21, 22, 23]), (2001, vec![21])],
    };
    let mut db = Database::new();
    let mut monitor = Monitor::new(config.monitoring_interval_in_seconds);
    assert_eq!(start_monitoring(&mut monitor), Ok(MonitorAction::ClaimDue));

    // The member is suspended for ten months.
    let member = guild.member(2000).unwrap();
    let record =
        suspend(&mut db, guild_config, GUILD as i64, &moderator(), &member, "10m", None, T0)
            .unwrap();
    assert_eq!(record.from_timestamp, T0);
    assert_eq!(record.until_timestamp, T0 + 10 * MONTH);
    assert!(record.active);
    guild.restrict(&record, suspended_role);
    assert_eq!(guild.held_by(2000), vec![SUSPENDED_ROLE]);

    // Until the time is up the monitor finds nothing.
    assert!(cycle(&mut monitor, &mut db, &mut guild, suspended_role, T0 + 60).is_empty());
    assert!(cycle(&mut monitor, &mut db, &mut guild, suspended_role, T0 + 10 * MONTH - 1)
        .is_empty());
    assert_eq!(guild.held_by(2000), vec![SUSPENDED_ROLE]);

    // After eleven months it claims the record and restores the roles.
    let handled = cycle(&mut monitor, &mut db, &mut guild, suspended_role, T0 + 11 * MONTH);
    assert_eq!(handled, vec![(record.id, RestoreOutcome::Restored)]);
    assert_eq!(guild.held_by(2000), vec![21, 22, 23]);
    assert_eq!(guild.held_by(2001), vec![21]);
    let history = db.get_suspensions(GUILD as i64, 2000);
    assert_eq!(history.len(), 1);
    assert!(!history[0].active);

    // The next cycle does not see the record again.
    assert!(cycle(&mut monitor, &mut db, &mut guild, suspended_role, T0 + 12 * MONTH).is_empty());
    assert_eq!(guild.held_by(2000), vec![21, 22, 23]);
}

#[test]
fn a_suspended_member_is_not_suspended_again() {
    let config = config();
    let guild_config = config.get_guild_config(GUILD).unwrap();
    let mut guild = Guild { roles: vec![21, SUSPENDED_ROLE], members: vec![(2000, vec![21])] };
    let mut db = Database::new();
    let member = guild.member(2000).unwrap();
    let record =
        suspend(&mut db, guild_config, GUILD as i64, &moderator(), &member, "10m", None, T0)
            .unwrap();
    guild.restrict(&record, SUSPENDED_ROLE);
    let member = guild.member(2000).unwrap();
    let again =
        suspend(&mut db, guild_config, GUILD as i64, &moderator(), &member, "1d", None, T0 + 5);
    assert_eq!(again, Err(SuspendError::AlreadySuspended));
    assert_eq!(db.len(), 1);
    assert_eq!(db.get_suspensions(GUILD as i64, 2000), vec![record]);
}

#[test]
fn a_duration_that_is_none_changes_nothing() {
    let config = config();
    let guild_config = config.get_guild_config(GUILD).unwrap();
    let guild = Guild { roles: vec![21, SUSPENDED_ROLE], members: vec![(2000, vec![21])] };
    let mut db = Database::new();
    let member = guild.member(2000).unwrap();
    let outcome =
        suspend(&mut db, guild_config, GUILD as i64, &moderator(), &member, "abc", None, T0);
    assert_eq!(outcome, Err(SuspendError::InvalidDuration));
    assert_eq!(db.len(), 0);
    assert_eq!(guild.held_by(2000), vec![21]);
}

#[test]
fn a_lift_by_hand_restores_once() {
    let config = config();
    let guild_config = config.get_guild_config(GUILD).unwrap();
    let mut guild =
        Guild { roles: vec![21, 22, SUSPENDED_ROLE], members: vec![(2000, vec![21, 22])] };
    let mut db = Database::new();
    let mut monitor = Monitor::new(60);
    start_monitoring(&mut monitor).unwrap();
    let member = guild.member(2000).unwrap();
    let record =
        suspend(&mut db, guild_config, GUILD as i64, &moderator(), &member, "1h", None, T0).unwrap();
    guild.restrict(&record, SUSPENDED_ROLE);

    let mut restorations = 0;
    for attempt in 0..2 {
        let lifted =
            remove_suspension(&mut db, guild_config, GUILD as i64, &moderator(), 2000, T0 + attempt)
                .unwrap();
        for record in &lifted {
            assert_eq!(guild.restore(record, SUSPENDED_ROLE), RestoreOutcome::Restored);
            restorations += 1;
        }
    }
    assert_eq!(restorations, 1);
    assert_eq!(guild.held_by(2000), vec![21, 22]);
    // The monitor has nothing left to do when the hour is over.
    assert!(cycle(&mut monitor, &mut db, &mut guild, SUSPENDED_ROLE, T0 + 3_600).is_empty());
}

#[test]
fn a_role_deleted_meanwhile_does_not_stop_the_restoration() {
    let config = config();
    let guild_config = config.get_guild_config(GUILD).unwrap();
    let mut guild =
        Guild { roles: vec![21, 22, 23, SUSPENDED_ROLE], members: vec![(2000, vec![21, 22, 23])] };
    let mut db = Database::new();
    let mut monitor = Monitor::new(60);
    start_monitoring(&mut monitor).unwrap();
    let member = guild.member(2000).unwrap();
    let record =
        suspend(&mut db, guild_config, GUILD as i64, &moderator(), &member, "1d", None, T0).unwrap();
    guild.restrict(&record, SUSPENDED_ROLE);
    guild.roles.retain(|r| *r != 22);
    let handled = cycle(&mut monitor, &mut db, &mut guild, SUSPENDED_ROLE, T0 + 86_400);
    assert_eq!(handled, vec![(record.id, RestoreOutcome::Restored)]);
    assert_eq!(guild.held_by(2000), vec![21, 23]);
}

#[test]
fn a_member_who_left_does_not_stop_the_cycle() {
    let config = config();
    let guild_config = config.get_guild_config(GUILD).unwrap();
    let mut guild = Guild {
        roles: vec![21, 22, SUSPENDED_ROLE],
        members: vec![(2000, vec![21]), (2001, vec![22]), (2002, vec![21, 22])],
    };
    let mut db = Database::new();
    let mut monitor = Monitor::new(60);
    start_monitoring(&mut monitor).unwrap();
    for user_id in [2000, 2001, 2002] {
        let member = guild.member(user_id).unwrap();
        let record =
            suspend(&mut db, guild_config, GUILD as i64, &moderator(), &member, "1d", None, T0)
                .unwrap();
        guild.restrict(&record, SUSPENDED_ROLE);
    }
    guild.members.retain(|(id, _)| *id != 2001);
    let handled = cycle(&mut monitor, &mut db, &mut guild, SUSPENDED_ROLE, T0 + 86_400);
    assert_eq!(
        handled,
        vec![
            (1, RestoreOutcome::Restored),
            (2, RestoreOutcome::MemberUnavailable),
            (3, RestoreOutcome::Restored),
        ]
    );
    assert_eq!(guild.held_by(2000), vec![21]);
    assert_eq!(guild.held_by(2002), vec![21, 22]);
    // The record of the member who left is closed like the others.
    assert!(cycle(&mut monitor, &mut db, &mut guild, SUSPENDED_ROLE, T0 + 2 * 86_400).is_empty());
    assert!(db.get_all_active_suspensions(GUILD as i64, 0).is_empty());
}

#[test]
fn a_suspension_outlasts_a_restart() {
    let config = config();
    let guild_config = config.get_guild_config(GUILD).unwrap();
    let mut guild =
        Guild { roles: vec![21, 22, SUSPENDED_ROLE], members: vec![(2000, vec![21, 22])] };
    let mut db = Database::new();
    let member = guild.member(2000).unwrap();
    let record =
        suspend(&mut db, guild_config, GUILD as i64, &moderator(), &member, "2w", None, T0).unwrap();
    guild.restrict(&record, SUSPENDED_ROLE);
    // What was written down is read again by a new process.
    let rows = vec![encode_row(&record).unwrap()];
    assert_eq!(rows[0].previous_roles, "21,22");
    assert_eq!(rows[0].from_datetime, "2023-11-14 22:13:20");
    assert_eq!(rows[0].until_datetime, "2023-11-28 22:13:20");
    let mut db = load_database(&rows).unwrap();
    let mut monitor = Monitor::new(60);
    start_monitoring(&mut monitor).unwrap();
    assert!(cycle(&mut monitor, &mut db, &mut guild, SUSPENDED_ROLE, T0 + 86_400).is_empty());
    let handled = cycle(&mut monitor, &mut db, &mut guild, SUSPENDED_ROLE, T0 + 14 * 86_400);
    assert_eq!(handled, vec![(1, RestoreOutcome::Restored)]);
    assert_eq!(guild.held_by(2000), vec![21, 22]);
}
