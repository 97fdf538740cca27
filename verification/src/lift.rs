//! Lifting a suspension before its time.

use vstd::prelude::*;
use crate::config::GuildConfig;
use crate::db::{
    Database, after_claim_member, current_records, evolves, lemma_filter_keeps_members,
};
use crate::error::SuspendError;
use crate::member::{Member, may_suspend, user_has_suspension_permission};
use crate::suspension::{Suspension, SuspensionView, concerns, is_current, views};

verus! {

/// Lifts what is in force against member `user_id` of guild `guild_id` at
/// `now`, at the request of `author`.
///
/// Where `author` may not suspend, the request is turned down as
/// `Unauthorized` and the table stays as it was. Otherwise every suspension
/// of the member that is active and not yet due is claimed, and the caller
/// receives those records: each is to be restored once. An empty answer
/// means that there was nothing to lift, and nothing is to be restored.
pub fn remove_suspension(
    db: &mut Database,
    guild_config: &GuildConfig,
    guild_id: i64,
    author: &Member,
    user_id: i64,
    now: i64,
) -> (outcome: Result<Vec<Suspension>, SuspendError>)
    requires
        old(db).wf(),
    ensures
        final(db).wf(),
        final(db).next_id() == old(db).next_id(),
        evolves(old(db)@, final(db)@),
        match outcome {
            Ok(lifted) => {
                &&& may_suspend(
                    guild_config.roles.suspend_permitted@,
                    author.roles@,
                    author.administrator,
                )
                &&& views(lifted@) == current_records(
                    old(db)@,
                    guild_id as int,
                    user_id as int,
                    now as int,
                )
                &&& final(db)@ == after_claim_member(
                    old(db)@,
                    guild_id as int,
                    user_id as int,
                    now as int,
                )
            },
            Err(e) => {
                &&& e == SuspendError::Unauthorized
                &&& !may_suspend(
                    guild_config.roles.suspend_permitted@,
                    author.roles@,
                    author.administrator,
                )
                &&& final(db)@ == old(db)@
            },
        },
{
    if !user_has_suspension_permission(guild_config, author) {
        return Err(SuspendError::Unauthorized);
    }
    Ok(db.claim_member(guild_id, user_id, now))
}

/// Lifting twice lifts once: after a member's suspensions were lifted at
/// `now`, lifting again at that time or later, with nothing suspended in
/// between, finds nothing in force and changes nothing.
pub proof fn lemma_second_lift_finds_nothing(
    t: Seq<SuspensionView>,
    guild_id: int,
    user_id: int,
    now: int,
    later: int,
)
    requires
        now <= later,
    ensures
        current_records(after_claim_member(t, guild_id, user_id, now), guild_id, user_id, later)
            == Seq::<SuspensionView>::empty(),
        after_claim_member(
            after_claim_member(t, guild_id, user_id, now),
            guild_id,
            user_id,
            later,
        ) == after_claim_member(t, guild_id, user_id, now),
{
    let once = after_claim_member(t, guild_id, user_id, now);
    let pred = |r: SuspensionView| concerns(r, guild_id, user_id) && is_current(r, later);
    let found = current_records(once, guild_id, user_id, later);
    assert forall|i: int| 0 <= i < once.len() implies !pred(#[trigger] once[i]) by {
        let r = t[i];
        if concerns(r, guild_id, user_id) && is_current(r, now) {
        } else {
            assert(once[i] == r);
        }
    }
    if found.len() > 0 {
        once.lemma_filter_pred(pred, 0);
        lemma_filter_keeps_members(once, pred, 0);
    }
    assert(found =~= Seq::<SuspensionView>::empty());
    assert(after_claim_member(once, guild_id, user_id, later) =~= once);
}

} // verus!
