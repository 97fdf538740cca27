//! Suspending a member.

use vstd::prelude::*;
use crate::config::GuildConfig;
use crate::db::{Database, current_records, due_records, evolves};
use crate::duration::{
    DurationUnit, duration_seconds_i64, duration_unit, duration_unit_of, parse_duration,
};
use crate::error::{PersistenceError, SuspendError};
use crate::member::{Member, may_suspend, user_has_suspension_permission, user_is_suspended};
use crate::suspension::{
    Suspension, SuspensionView, concerns, copy_optional_string, copy_strings, is_current,
    optional_text, texts,
};
use crate::text::{decimal_string, decimal_text};

verus! {

/// When a suspension that begins at `now` and lasts `duration` ends: `None`
/// where `duration` is no duration, lasts no time at all, lasts more seconds
/// than a signed 64-bit number holds, or ends beyond what a timestamp holds.
pub open spec fn suspension_end(now: int, duration: Seq<char>) -> Option<int> {
    match duration_seconds_i64(duration) {
        Some(d) => if d > 0 && now + d <= i64::MAX {
            Some(now + d)
        } else {
            None
        },
        None => None,
    }
}

/// As `suspension_end`, for durations in days, weeks or months only.
pub open spec fn long_suspension_end(now: int, duration: Seq<char>) -> Option<int> {
    match duration_unit_of(duration) {
        Some(DurationUnit::Days) | Some(DurationUnit::Weeks) | Some(DurationUnit::Months) =>
            suspension_end(now, duration),
        _ => None,
    }
}

/// The role ids `roles` as the record keeps them: each written in decimal.
pub open spec fn role_texts(roles: Seq<u64>) -> Seq<Seq<char>> {
    roles.map_values(|r: u64| decimal_text(r as nat))
}

/// What `suspend` does, given when the suspension would end (`end`, `None`
/// for a duration that cannot be used): the checks in their order, and on
/// success the new record, appended to the table.
pub open spec fn suspend_spec(
    before: Seq<SuspensionView>,
    next_id: int,
    guild_config: GuildConfig,
    guild_id: int,
    author: Member,
    member: Member,
    end: Option<int>,
    reason: Option<Seq<char>>,
    now: int,
) -> Result<SuspensionView, SuspendError> {
    if !may_suspend(guild_config.roles.suspend_permitted@, author.roles@, author.administrator) {
        Err(SuspendError::Unauthorized)
    } else if current_records(before, guild_id, member.id as int, now).len() > 0 {
        Err(SuspendError::AlreadySuspended)
    } else if end is None {
        Err(SuspendError::InvalidDuration)
    } else if next_id == i64::MAX {
        Err(SuspendError::PersistenceError(PersistenceError::IdentityExhausted))
    } else {
        Ok(
            SuspensionView {
                id: next_id,
                guild_id,
                user_id: member.id as int,
                moderator_id: author.id as int,
                previous_roles: role_texts(member.roles@),
                from_timestamp: now,
                until_timestamp: end->0,
                reason,
                active: true,
            },
        )
    }
}

/// When a suspension that begins at `now` and lasts `duration` ends.
pub fn end_of_suspension(now: i64, duration: &str) -> (end: Option<i64>)
    ensures
        match end {
            Some(until) => suspension_end(now as int, duration@) == Some(until as int),
            None => suspension_end(now as int, duration@) is None,
        },
{
    match parse_duration(duration) {
        Some(seconds) => {
            if seconds > 0 {
                now.checked_add(seconds)
            } else {
                None
            }
        },
        None => None,
    }
}

/// The role ids `roles`, each written in decimal.
pub fn roles_as_text(roles: &Vec<u64>) -> (written: Vec<String>)
    ensures
        texts(written@) == role_texts(roles@),
{
    let mut written: Vec<String> = Vec::new();
    let mut i: usize = 0;
    while i < roles.len()
        invariant
            i <= roles.len(),
            texts(written@) == role_texts(roles@.take(i as int)),
        decreases roles.len() - i,
    {
        let ghost before = written@;
        written.push(decimal_string(roles[i]));
        proof {
            let head = roles@.take(i as int);
            let digits = decimal_text(roles@[i as int] as nat);
            assert(roles@.take(i + 1) =~= head.push(roles@[i as int]));
            assert(texts(written@) =~= texts(before).push(digits));
            assert(role_texts(head.push(roles@[i as int])) =~= role_texts(head).push(digits));
        }
        i += 1;
    }
    assert(roles@.take(roles.len() as int) =~= roles@);
    written
}

/// The checks and the new record, for a suspension that would end at `end`.
fn suspend_until(
    db: &mut Database,
    guild_config: &GuildConfig,
    guild_id: i64,
    author: &Member,
    member: &Member,
    end: Option<i64>,
    reason: Option<String>,
    now: i64,
) -> (outcome: Result<Suspension, SuspendError>)
    requires
        old(db).wf(),
        end matches Some(until) ==> now < until,
    ensures
        final(db).wf(),
        evolves(old(db)@, final(db)@),
        match suspend_spec(
            old(db)@,
            old(db).next_id(),
            *guild_config,
            guild_id as int,
            *author,
            *member,
            match end {
                Some(until) => Some(until as int),
                None => None,
            },
            optional_text(reason),
            now as int,
        ) {
            Ok(created) => {
                &&& outcome matches Ok(record)
                &&& record@ == created
                &&& final(db)@ == old(db)@.push(created)
                &&& final(db).next_id() == old(db).next_id() + 1
            },
            Err(e) => {
                &&& outcome == Err::<Suspension, SuspendError>(e)
                &&& final(db)@ == old(db)@
                &&& final(db).next_id() == old(db).next_id()
            },
        },
{
    if !user_has_suspension_permission(guild_config, author) {
        return Err(SuspendError::Unauthorized);
    }
    if user_is_suspended(db, guild_id, member, now) {
        return Err(SuspendError::AlreadySuspended);
    }
    let until = match end {
        Some(until) => until,
        None => {
            return Err(SuspendError::InvalidDuration);
        },
    };
    let record = Suspension {
        id: 0,
        guild_id,
        user_id: member.id,
        moderator_id: author.id,
        previous_roles: roles_as_text(&member.roles),
        from_timestamp: now,
        until_timestamp: until,
        reason,
        active: true,
    };
    let logged = db.log_suspension(
        guild_id,
        member.id,
        author.id,
        copy_strings(&record.previous_roles),
        now,
        until,
        copy_optional_string(&record.reason),
    );
    match logged {
        Ok(id) => {
            let mut record = record;
            record.id = id;
            Ok(record)
        },
        Err(e) => Err(SuspendError::PersistenceError(e)),
    }
}

/// Suspends `member` of guild `guild_id` from `now` for `duration`, at the
/// request of `author`.
///
/// The request is turned down, and the table left as it was, in this order:
/// `Unauthorized` where `author` may not suspend; `AlreadySuspended` where
/// `member` is under a suspension that is in force at `now`;
/// `InvalidDuration` where `duration` is not a count and one of `s`, `h`,
/// `d`, `w`, `m`, lasts no time, or ends beyond what a timestamp holds;
/// `PersistenceError` where the table has no identity left.
///
/// Otherwise the table gains one active record that runs from `now` to `now`
/// plus the duration and remembers the roles that `member` holds, and the
/// caller receives that record. Taking the roles away is the caller's part;
/// if that fails the record stands, and lifting it later gives the roles
/// back.
pub fn suspend(
    db: &mut Database,
    guild_config: &GuildConfig,
    guild_id: i64,
    author: &Member,
    member: &Member,
    duration: &str,
    reason: Option<String>,
    now: i64,
) -> (outcome: Result<Suspension, SuspendError>)
    requires
        old(db).wf(),
    ensures
        final(db).wf(),
        evolves(old(db)@, final(db)@),
        outcome matches Ok(record) ==> {
            &&& record.active
            &&& record.from_timestamp == now
            &&& record.until_timestamp > record.from_timestamp
        },
        match suspend_spec(
            old(db)@,
            old(db).next_id(),
            *guild_config,
            guild_id as int,
            *author,
            *member,
            suspension_end(now as int, duration@),
            optional_text(reason),
            now as int,
        ) {
            Ok(created) => {
                &&& outcome matches Ok(record)
                &&& record@ == created
                &&& final(db)@ == old(db)@.push(created)
                &&& final(db).next_id() == old(db).next_id() + 1
            },
            Err(e) => {
                &&& outcome == Err::<Suspension, SuspendError>(e)
                &&& final(db)@ == old(db)@
                &&& final(db).next_id() == old(db).next_id()
            },
        },
{
    let end = end_of_suspension(now, duration);
    suspend_until(db, guild_config, guild_id, author, member, end, reason, now)
}

/// Suspends `member` as `suspend` does, for a duration in days, weeks or
/// months and with a reason: a duration in seconds or hours is turned down
/// as `InvalidDuration`.
pub fn suspend_user(
    db: &mut Database,
    guild_config: &GuildConfig,
    guild_id: i64,
    author: &Member,
    member: &Member,
    duration: &str,
    reason: String,
    now: i64,
) -> (outcome: Result<Suspension, SuspendError>)
    requires
        old(db).wf(),
    ensures
        final(db).wf(),
        evolves(old(db)@, final(db)@),
        outcome matches Ok(record) ==> {
            &&& record.active
            &&& record.from_timestamp == now
            &&& record.until_timestamp > record.from_timestamp
        },
        match suspend_spec(
            old(db)@,
            old(db).next_id(),
            *guild_config,
            guild_id as int,
            *author,
            *member,
            long_suspension_end(now as int, duration@),
            Some(reason@),
            now as int,
        ) {
            Ok(created) => {
                &&& outcome matches Ok(record)
                &&& record@ == created
                &&& final(db)@ == old(db)@.push(created)
                &&& final(db).next_id() == old(db).next_id() + 1
            },
            Err(e) => {
                &&& outcome == Err::<Suspension, SuspendError>(e)
                &&& final(db)@ == old(db)@
                &&& final(db).next_id() == old(db).next_id()
            },
        },
{
    let end = match duration_unit(duration) {
        Some(DurationUnit::Days) | Some(DurationUnit::Weeks) | Some(DurationUnit::Months) =>
            end_of_suspension(now, duration),
        _ => None,
    };
    suspend_until(db, guild_config, guild_id, author, member, end, Some(reason), now)
}

/// Whether at `now` no member of any guild is under two suspensions that are
/// both in force.
pub open spec fn one_in_force(t: Seq<SuspensionView>, now: int) -> bool {
    forall|i: int, j: int|
        0 <= i < j < t.len() && (#[trigger] t[i]).guild_id == (#[trigger] t[j]).guild_id
            && t[i].user_id == t[j].user_id ==> !(is_current(t[i], now) && is_current(t[j], now))
}

/// A suspension never comes on top of one that is in force: where no member
/// is under two suspensions in force at some time from `now` on, a
/// suspension granted at `now` leaves it so.
pub proof fn lemma_suspend_keeps_one_in_force(
    before: Seq<SuspensionView>,
    next_id: int,
    guild_config: GuildConfig,
    guild_id: int,
    author: Member,
    member: Member,
    end: Option<int>,
    reason: Option<Seq<char>>,
    now: int,
    at: int,
)
    requires
        now <= at,
        one_in_force(before, at),
        suspend_spec(before, next_id, guild_config, guild_id, author, member, end, reason, now)
            is Ok,
    ensures
        one_in_force(
            before.push(
                suspend_spec(
                    before,
                    next_id,
                    guild_config,
                    guild_id,
                    author,
                    member,
                    end,
                    reason,
                    now,
                )->Ok_0,
            ),
            at,
        ),
{
    let created = suspend_spec(
        before,
        next_id,
        guild_config,
        guild_id,
        author,
        member,
        end,
        reason,
        now,
    )->Ok_0;
    let after = before.push(created);
    let pred = |r: SuspensionView| concerns(r, guild_id, member.id as int) && is_current(r, now);
    assert forall|i: int, j: int|
        0 <= i < j < after.len() && (#[trigger] after[i]).guild_id == (#[trigger] after[j]).guild_id
            && after[i].user_id == after[j].user_id implies !(is_current(after[i], at)
        && is_current(after[j], at)) by {
        if j < before.len() {
            assert(after[i] == before[i] && after[j] == before[j]);
        } else if is_current(after[i], at) {
            // An older suspension of this member in force at `at` was in
            // force at `now`, and then nothing would have been granted.
            assert(pred(before[i]));
            before.lemma_filter_contains(pred, i);
            assert(current_records(before, guild_id, member.id as int, now).len() > 0);
        }
    }
}

/// Claims never put a second suspension in force: what evolved from a table
/// without gaining records has no member under two suspensions in force
/// where the table had none.
pub proof fn lemma_claims_keep_one_in_force(
    earlier: Seq<SuspensionView>,
    later: Seq<SuspensionView>,
    now: int,
)
    requires
        evolves(earlier, later),
        earlier.len() == later.len(),
        one_in_force(earlier, now),
    ensures
        one_in_force(later, now),
{
    assert forall|i: int, j: int|
        0 <= i < j < later.len() && (#[trigger] later[i]).guild_id == (#[trigger] later[j]).guild_id
            && later[i].user_id == later[j].user_id implies !(is_current(later[i], now)
        && is_current(later[j], now)) by {
        assert(earlier[i].guild_id == later[i].guild_id && earlier[j].guild_id
            == later[j].guild_id);
    }
}

/// A suspension is lifted when its time is up and not before: once granted,
/// the record is among those due at a later moment exactly from the moment
/// on at which it ends.
pub proof fn lemma_suspension_is_due_at_its_end(
    before: Seq<SuspensionView>,
    next_id: int,
    guild_config: GuildConfig,
    guild_id: int,
    author: Member,
    member: Member,
    end: Option<int>,
    reason: Option<Seq<char>>,
    now: int,
    at: int,
)
    requires
        suspend_spec(before, next_id, guild_config, guild_id, author, member, end, reason, now)
            is Ok,
    ensures
        ({
            let created = suspend_spec(
                before,
                next_id,
                guild_config,
                guild_id,
                author,
                member,
                end,
                reason,
                now,
            )->Ok_0;
            &&& end == Some(created.until_timestamp)
            &&& due_records(before.push(created), at) == if created.until_timestamp <= at {
                due_records(before, at).push(created)
            } else {
                due_records(before, at)
            }
        }),
{
    let created = suspend_spec(
        before,
        next_id,
        guild_config,
        guild_id,
        author,
        member,
        end,
        reason,
        now,
    )->Ok_0;
    let after = before.push(created);
    assert(after.drop_last() =~= before);
    reveal(Seq::filter);
}

} // verus!
