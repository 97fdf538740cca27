//! The table of suspensions.
//!
//! The table is the one place where a record's identity and its `active`
//! flag are decided. Records are only ever appended, and the only change to a
//! record is the claim: `active` goes from `true` to `false` and the caller
//! receives the record as it was. Every claim goes through `&mut Database`,
//! so two callers can never both receive the same record.

use vstd::prelude::*;
use crate::error::PersistenceError;
use crate::suspension::{
    Suspension, SuspensionView, concerns, deactivated, is_current, is_due, optional_text, texts,
    views,
};

verus! {

/// What holds of every table: identities are positive, below the next one to
/// be given out and ascending, and every record ends after it began.
pub open spec fn table_wf(t: Seq<SuspensionView>, next_id: int) -> bool {
    &&& 1 <= next_id <= i64::MAX
    &&& forall|i: int| 0 <= i < t.len() ==> 1 <= (#[trigger] t[i]).id < next_id
    &&& forall|i: int, j: int| 0 <= i < j < t.len() ==> (#[trigger] t[i]).id < (#[trigger] t[j]).id
    &&& forall|i: int| 0 <= i < t.len() ==> (#[trigger] t[i]).from_timestamp < t[i].until_timestamp
}

/// The records of `t` that are due at `now`, in the table's order.
pub open spec fn due_records(t: Seq<SuspensionView>, now: int) -> Seq<SuspensionView> {
    t.filter(|r: SuspensionView| is_due(r, now))
}

/// The table `t` after every record that is due at `now` has been claimed.
pub open spec fn after_claim_due(t: Seq<SuspensionView>, now: int) -> Seq<SuspensionView> {
    t.map_values(
        |r: SuspensionView|
            if is_due(r, now) {
                deactivated(r)
            } else {
                r
            },
    )
}

/// The suspensions of member `user_id` of guild `guild_id` that are in force
/// at `now`, in the table's order.
pub open spec fn current_records(t: Seq<SuspensionView>, guild_id: int, user_id: int, now: int) -> Seq<
    SuspensionView,
> {
    t.filter(|r: SuspensionView| concerns(r, guild_id, user_id) && is_current(r, now))
}

/// The table `t` after every suspension of member `user_id` of guild
/// `guild_id` that is in force at `now` has been claimed.
pub open spec fn after_claim_member(
    t: Seq<SuspensionView>,
    guild_id: int,
    user_id: int,
    now: int,
) -> Seq<SuspensionView> {
    t.map_values(
        |r: SuspensionView|
            if concerns(r, guild_id, user_id) && is_current(r, now) {
                deactivated(r)
            } else {
                r
            },
    )
}

/// The suspensions in guild `guild_id` that are in force at `now`, in the
/// table's order.
pub open spec fn current_in_guild(t: Seq<SuspensionView>, guild_id: int, now: int) -> Seq<
    SuspensionView,
> {
    t.filter(|r: SuspensionView| r.guild_id == guild_id && is_current(r, now))
}

/// Whether the table `later` can have come from the table `earlier`: every
/// record of `earlier` is still there, in its place, unchanged or with its
/// restriction lifted; records were at most added behind them.
pub open spec fn evolves(earlier: Seq<SuspensionView>, later: Seq<SuspensionView>) -> bool {
    &&& earlier.len() <= later.len()
    &&& forall|i: int|
        0 <= i < earlier.len() ==> (#[trigger] later[i]) == earlier[i] || (earlier[i].active
            && later[i] == deactivated(earlier[i]))
}

/// The order of a member's history: by beginning, the older identity first
/// where two suspensions began in the same second.
pub open spec fn precedes(a: SuspensionView, b: SuspensionView) -> bool {
    a.from_timestamp < b.from_timestamp || (a.from_timestamp == b.from_timestamp && a.id < b.id)
}

/// Whether `s` is in the order of `precedes`, each entry strictly before the
/// next.
pub open spec fn in_history_order(s: Seq<SuspensionView>) -> bool {
    forall|i: int, j: int| 0 <= i < j < s.len() ==> precedes(#[trigger] s[i], #[trigger] s[j])
}

/// Whether `history` lists exactly the suspensions of member `user_id` of
/// guild `guild_id` that `t` holds, whatever their state, each once and in
/// the order of `precedes`.
pub open spec fn is_history(
    history: Seq<SuspensionView>,
    t: Seq<SuspensionView>,
    guild_id: int,
    user_id: int,
) -> bool {
    &&& in_history_order(history)
    &&& forall|r: SuspensionView|
        #![trigger history.contains(r)]
        #![trigger t.contains(r)]
        history.contains(r) <==> t.contains(r) && concerns(r, guild_id, user_id)
}

/// The table of suspensions.
#[derive(Debug)]
pub struct Database {
    records: Vec<Suspension>,
    next_id: i64,
}

impl View for Database {
    type V = Seq<SuspensionView>;

    /// The records, oldest identity first.
    closed spec fn view(&self) -> Seq<SuspensionView> {
        views(self.records@)
    }
}

impl Database {
    /// The identity that the next new record receives.
    pub closed spec fn next_id(&self) -> int {
        self.next_id as int
    }

    /// The table's invariant.
    pub open spec fn wf(&self) -> bool {
        table_wf(self@, self.next_id())
    }

    /// An empty table. The first record will have identity 1.
    pub fn new() -> (db: Database)
        ensures
            db.wf(),
            db@ == Seq::<SuspensionView>::empty(),
            db.next_id() == 1,
    {
        let db = Database { records: Vec::new(), next_id: 1 };
        assert(db@ =~= Seq::<SuspensionView>::empty());
        db
    }

    /// The table that holds `records`, as a backing store gave them back.
    ///
    /// The records must make a table: identities positive, ascending and
    /// below the largest 64-bit number, and each record ending after it
    /// began. Then the next identity is the one after the last record's, or 1
    /// for no records. Anything else is refused as `MalformedRow`.
    pub fn from_records(records: Vec<Suspension>) -> (loaded: Result<Database, PersistenceError>)
        ensures
            match loaded {
                Ok(db) => {
                    &&& db.wf()
                    &&& db@ == views(records@)
                    &&& db.next_id() == if records@.len() == 0 {
                        1
                    } else {
                        records@.last().id + 1
                    }
                },
                Err(e) => {
                    &&& e == PersistenceError::MalformedRow
                    &&& !exists|next_id: int| table_wf(views(records@), next_id)
                },
            },
    {
        let ghost t = views(records@);
        let mut last: i64 = 0;
        let mut i: usize = 0;
        while i < records.len()
            invariant
                i <= records.len(),
                t == views(records@),
                0 <= last < i64::MAX,
                table_wf(t.take(i as int), last + 1),
                i == 0 ==> last == 0,
                i > 0 ==> last == t[i - 1].id,
            decreases records.len() - i,
        {
            let record = &records[i];
            assert(t[i as int] == record@);
            if record.id <= last || record.id == i64::MAX || record.from_timestamp
                >= record.until_timestamp {
                proof {
                    assert forall|next_id: int| !table_wf(t, next_id) by {
                        if table_wf(t, next_id) {
                            assert(1 <= t[i as int].id < next_id);
                            assert(t[i as int].from_timestamp < t[i as int].until_timestamp);
                            if i > 0 {
                                assert(t[i - 1].id < t[i as int].id);
                            }
                        }
                    }
                }
                return Err(PersistenceError::MalformedRow);
            }
            proof {
                let grown = t.take(i + 1);
                assert forall|a: int, b: int| 0 <= a < b < grown.len() implies (#[trigger] grown[a]).id
                    < (#[trigger] grown[b]).id by {
                    if b < i {
                        assert(t.take(i as int)[a].id < t.take(i as int)[b].id);
                    } else {
                        assert(t.take(i as int)[a].id < last + 1);
                    }
                }
                assert forall|a: int| 0 <= a < grown.len() implies 1 <= (#[trigger] grown[a]).id
                    < record.id + 1 by {
                    if a < i {
                        assert(t.take(i as int)[a].id < last + 1);
                    }
                }
                assert forall|a: int| 0 <= a < grown.len() implies (#[trigger] grown[a]).from_timestamp
                    < grown[a].until_timestamp by {
                    if a < i {
                        assert(t.take(i as int)[a].from_timestamp < t.take(
                            i as int,
                        )[a].until_timestamp);
                    }
                }
            }
            last = record.id;
            i += 1;
        }
        assert(t.take(records.len() as int) =~= t);
        assert(records@.len() > 0 ==> t[records@.len() - 1] == records@.last()@);
        Ok(Database { records, next_id: last + 1 })
    }

    /// The number of records, whatever their state.
    pub fn len(&self) -> (n: usize)
        ensures
            n == self@.len(),
    {
        self.records.len()
    }

    /// Records a new suspension, in force from the start, and gives its
    /// identity.
    ///
    /// A suspension that would not end after it began is refused with
    /// `InvalidInterval`; otherwise, when no identity is left,
    /// `IdentityExhausted`. A refusal leaves the table as it was. Whether the
    /// member is already suspended is not looked at here.
    pub fn log_suspension(
        &mut self,
        guild_id: i64,
        user_id: i64,
        moderator_id: i64,
        previous_roles: Vec<String>,
        from_timestamp: i64,
        until_timestamp: i64,
        reason: Option<String>,
    ) -> (created: Result<i64, PersistenceError>)
        requires
            old(self).wf(),
        ensures
            final(self).wf(),
            evolves(old(self)@, final(self)@),
            created matches Ok(id) ==> {
                &&& final(self)@.len() == old(self)@.len() + 1
                &&& final(self)@.last().id == id
                &&& final(self)@.last().active
                &&& final(self)@.last().until_timestamp > final(self)@.last().from_timestamp
            },
            match created {
                Ok(id) => {
                    &&& from_timestamp < until_timestamp
                    &&& id == old(self).next_id()
                    &&& final(self).next_id() == id + 1
                    &&& final(self)@ == old(self)@.push(
                        (SuspensionView {
                            id: id as int,
                            guild_id: guild_id as int,
                            user_id: user_id as int,
                            moderator_id: moderator_id as int,
                            previous_roles: texts(previous_roles@),
                            from_timestamp: from_timestamp as int,
                            until_timestamp: until_timestamp as int,
                            reason: optional_text(reason),
                            active: true,
                        }),
                    )
                },
                Err(e) => {
                    &&& final(self)@ == old(self)@
                    &&& final(self).next_id() == old(self).next_id()
                    &&& if from_timestamp >= until_timestamp {
                        e == PersistenceError::InvalidInterval
                    } else {
                        e == PersistenceError::IdentityExhausted && old(self).next_id()
                            == i64::MAX
                    }
                },
            },
    {
        if from_timestamp >= until_timestamp {
            return Err(PersistenceError::InvalidInterval);
        }
        if self.next_id == i64::MAX {
            return Err(PersistenceError::IdentityExhausted);
        }
        let id = self.next_id;
        let record = Suspension {
            id,
            guild_id,
            user_id,
            moderator_id,
            previous_roles,
            from_timestamp,
            until_timestamp,
            reason,
            active: true,
        };
        self.records.push(record);
        self.next_id = id + 1;
        assert(self@ =~= old(self)@.push(record@));
        Ok(id)
    }

    /// The suspensions of member `user_id` of guild `guild_id` that are in
    /// force at `now`: active, and not yet due. They come in the table's
    /// order.
    pub fn get_active_suspensions(&self, guild_id: i64, user_id: i64, now: i64) -> (found: Vec<
        Suspension,
    >)
        ensures
            views(found@) == current_records(self@, guild_id as int, user_id as int, now as int),
    {
        let mut found: Vec<Suspension> = Vec::new();
        let mut i: usize = 0;
        assert(self@.take(0) =~= Seq::<SuspensionView>::empty());
        assert(views(found@) =~= current_records(
            self@.take(0),
            guild_id as int,
            user_id as int,
            now as int,
        )) by {
            reveal(Seq::filter);
        }
        while i < self.records.len()
            invariant
                i <= self.records.len(),
                self@.len() == self.records.len(),
                views(found@) == current_records(
                    self@.take(i as int),
                    guild_id as int,
                    user_id as int,
                    now as int,
                ),
            decreases self.records.len() - i,
        {
            let record = &self.records[i];
            proof {
                reveal(Seq::filter);
                assert(self@.take(i + 1).drop_last() =~= self@.take(i as int));
                assert(self@.take(i + 1).last() == record@);
            }
            if record.guild_id == guild_id && record.user_id == user_id && record.active
                && record.until_timestamp > now {
                let ghost before = found@;
                found.push(record.clone());
                assert(views(found@) =~= views(before).push(record@));
            }
            i += 1;
        }
        assert(self@.take(self.records.len() as int) =~= self@);
        found
    }

    /// The suspensions in guild `guild_id` that are in force at `now`, in the
    /// table's order.
    pub fn get_all_active_suspensions(&self, guild_id: i64, now: i64) -> (found: Vec<Suspension>)
        ensures
            views(found@) == current_in_guild(self@, guild_id as int, now as int),
    {
        let mut found: Vec<Suspension> = Vec::new();
        let mut i: usize = 0;
        assert(self@.take(0) =~= Seq::<SuspensionView>::empty());
        assert(views(found@) =~= current_in_guild(self@.take(0), guild_id as int, now as int)) by {
            reveal(Seq::filter);
        }
        while i < self.records.len()
            invariant
                i <= self.records.len(),
                self@.len() == self.records.len(),
                views(found@) == current_in_guild(
                    self@.take(i as int),
                    guild_id as int,
                    now as int,
                ),
            decreases self.records.len() - i,
        {
            let record = &self.records[i];
            proof {
                reveal(Seq::filter);
                assert(self@.take(i + 1).drop_last() =~= self@.take(i as int));
                assert(self@.take(i + 1).last() == record@);
            }
            if record.guild_id == guild_id && record.active && record.until_timestamp > now {
                let ghost before = found@;
                found.push(record.clone());
                assert(views(found@) =~= views(before).push(record@));
            }
            i += 1;
        }
        assert(self@.take(self.records.len() as int) =~= self@);
        found
    }

    /// Claims every record that is due at `now`: each record that is active
    /// and whose time is up becomes inactive, and the caller receives those
    /// records as they were, in the table's order. Nothing else changes.
    pub fn claim_due(&mut self, now: i64) -> (claimed: Vec<Suspension>)
        requires
            old(self).wf(),
        ensures
            final(self).wf(),
            final(self).next_id() == old(self).next_id(),
            views(claimed@) == due_records(old(self)@, now as int),
            final(self)@ == after_claim_due(old(self)@, now as int),
            evolves(old(self)@, final(self)@),
    {
        let ghost before = self@;
        let mut claimed: Vec<Suspension> = Vec::new();
        let mut i: usize = 0;
        assert(before.take(0) =~= Seq::<SuspensionView>::empty());
        assert(views(claimed@) =~= due_records(before.take(0), now as int)) by {
            reveal(Seq::filter);
        }
        while i < self.records.len()
            invariant
                i <= self.records.len(),
                self@.len() == self.records.len(),
                self@.len() == before.len(),
                self.next_id == old(self).next_id,
                forall|j: int|
                    0 <= j < i ==> (#[trigger] self@[j]) == after_claim_due(before, now as int)[j],
                forall|j: int| i <= j < before.len() ==> (#[trigger] self@[j]) == before[j],
                views(claimed@) == due_records(before.take(i as int), now as int),
            decreases self.records.len() - i,
        {
            proof {
                reveal(Seq::filter);
                assert(before.take(i + 1).drop_last() =~= before.take(i as int));
                assert(before.take(i + 1).last() == before[i as int]);
                assert(self@[i as int] == before[i as int]);
            }
            if self.records[i].active && self.records[i].until_timestamp <= now {
                let ghost taken = claimed@;
                let ghost table = self@;
                claimed.push(self.records[i].clone());
                let closed = self.records[i].closed();
                self.records.set(i, closed);
                assert(views(claimed@) =~= views(taken).push(before[i as int]));
                assert(self@ =~= table.update(i as int, deactivated(before[i as int])));
            }
            i += 1;
        }
        assert(before.take(before.len() as int) =~= before);
        assert(self@ =~= after_claim_due(before, now as int));
        claimed
    }

    /// Claims every suspension of member `user_id` of guild `guild_id` that
    /// is in force at `now`: each becomes inactive, and the caller receives
    /// those records as they were, in the table's order. Nothing else changes.
    pub fn claim_member(&mut self, guild_id: i64, user_id: i64, now: i64) -> (claimed: Vec<
        Suspension,
    >)
        requires
            old(self).wf(),
        ensures
            final(self).wf(),
            final(self).next_id() == old(self).next_id(),
            views(claimed@) == current_records(
                old(self)@,
                guild_id as int,
                user_id as int,
                now as int,
            ),
            final(self)@ == after_claim_member(
                old(self)@,
                guild_id as int,
                user_id as int,
                now as int,
            ),
            evolves(old(self)@, final(self)@),
    {
        let ghost before = self@;
        let ghost after = after_claim_member(before, guild_id as int, user_id as int, now as int);
        let mut claimed: Vec<Suspension> = Vec::new();
        let mut i: usize = 0;
        assert(before.take(0) =~= Seq::<SuspensionView>::empty());
        assert(views(claimed@) =~= current_records(
            before.take(0),
            guild_id as int,
            user_id as int,
            now as int,
        )) by {
            reveal(Seq::filter);
        }
        while i < self.records.len()
            invariant
                i <= self.records.len(),
                self@.len() == self.records.len(),
                self@.len() == before.len(),
                self.next_id == old(self).next_id,
                after == after_claim_member(before, guild_id as int, user_id as int, now as int),
                forall|j: int| 0 <= j < i ==> (#[trigger] self@[j]) == after[j],
                forall|j: int| i <= j < before.len() ==> (#[trigger] self@[j]) == before[j],
                views(claimed@) == current_records(
                    before.take(i as int),
                    guild_id as int,
                    user_id as int,
                    now as int,
                ),
            decreases self.records.len() - i,
        {
            proof {
                reveal(Seq::filter);
                assert(before.take(i + 1).drop_last() =~= before.take(i as int));
                assert(before.take(i + 1).last() == before[i as int]);
                assert(self@[i as int] == before[i as int]);
            }
            if self.records[i].guild_id == guild_id && self.records[i].user_id == user_id
                && self.records[i].active && self.records[i].until_timestamp > now {
                let ghost taken = claimed@;
                let ghost table = self@;
                claimed.push(self.records[i].clone());
                let closed = self.records[i].closed();
                self.records.set(i, closed);
                assert(views(claimed@) =~= views(taken).push(before[i as int]));
                assert(self@ =~= table.update(i as int, deactivated(before[i as int])));
            }
            i += 1;
        }
        assert(before.take(before.len() as int) =~= before);
        assert(self@ =~= after);
        claimed
    }

    /// Claims the record with identity `id`: if it is active it becomes
    /// inactive and the caller receives it as it was. Where there is no such
    /// record, or it is inactive already, nothing changes and the answer is
    /// `None`.
    pub fn claim_one(&mut self, id: i64) -> (claimed: Option<Suspension>)
        requires
            old(self).wf(),
        ensures
            final(self).wf(),
            final(self).next_id() == old(self).next_id(),
            evolves(old(self)@, final(self)@),
            match claimed {
                Some(record) => exists|i: int|
                    {
                        &&& 0 <= i < old(self)@.len()
                        &&& (#[trigger] old(self)@[i]).id == id
                        &&& old(self)@[i].active
                        &&& record@ == old(self)@[i]
                        &&& final(self)@ == old(self)@.update(i, deactivated(old(self)@[i]))
                    },
                None => {
                    &&& final(self)@ == old(self)@
                    &&& forall|i: int|
                        0 <= i < old(self)@.len() ==> !((#[trigger] old(self)@[i]).id == id
                            && old(self)@[i].active)
                },
            },
    {
        let mut i: usize = 0;
        while i < self.records.len()
            invariant
                i <= self.records.len(),
                self@.len() == self.records.len(),
                self@ == old(self)@,
                self.next_id == old(self).next_id,
                self.wf(),
                forall|j: int| 0 <= j < i ==> (#[trigger] self@[j]).id != id,
            decreases self.records.len() - i,
        {
            if self.records[i].id == id {
                if self.records[i].active {
                    let record = self.records[i].clone();
                    let closed = self.records[i].closed();
                    self.records.set(i, closed);
                    assert(self@ =~= old(self)@.update(
                        i as int,
                        deactivated(old(self)@[i as int]),
                    ));
                    assert(old(self)@[i as int].id == id);
                    return Some(record);
                } else {
                    assert forall|k: int| 0 <= k < self@.len() implies !((#[trigger] self@[k]).id
                        == id && self@[k].active) by {
                        if k != i {
                            assert(self@[k].id != self@[i as int].id);
                        }
                    }
                    return None;
                }
            }
            i += 1;
        }
        None
    }

    /// Lifts the restriction of the record with identity `id`, and says
    /// whether this call was the one that lifted it.
    pub fn set_suspension_inactive(&mut self, suspension_id: i64) -> (lifted: bool)
        requires
            old(self).wf(),
        ensures
            final(self).wf(),
            final(self).next_id() == old(self).next_id(),
            evolves(old(self)@, final(self)@),
            lifted <==> exists|i: int|
                0 <= i < old(self)@.len() && (#[trigger] old(self)@[i]).id == suspension_id
                    && old(self)@[i].active,
            final(self)@ == old(self)@.map_values(
                |r: SuspensionView|
                    if r.id == suspension_id {
                        deactivated(r)
                    } else {
                        r
                    },
            ),
    {
        let claimed = self.claim_one(suspension_id);
        proof {
            let flipped = old(self)@.map_values(
                |r: SuspensionView|
                    if r.id == suspension_id {
                        deactivated(r)
                    } else {
                        r
                    },
            );
            match claimed {
                Some(_) => {
                    let i = choose|i: int|
                        {
                            &&& 0 <= i < old(self)@.len()
                            &&& (#[trigger] old(self)@[i]).id == suspension_id
                            &&& old(self)@[i].active
                            &&& self@ == old(self)@.update(i, deactivated(old(self)@[i]))
                        };
                    assert forall|k: int| 0 <= k < flipped.len() implies flipped[k] == self@[k] by {
                        if k != i {
                            assert(old(self)@[k].id != old(self)@[i].id);
                        }
                    }
                    assert(self@ =~= flipped);
                },
                None => {
                    assert forall|k: int| 0 <= k < flipped.len() implies flipped[k] == self@[k] by {
                        let r = old(self)@[k];
                        if r.id == suspension_id {
                            assert(!r.active);
                            assert(deactivated(r) == r);
                        }
                    }
                    assert(self@ =~= flipped);
                },
            }
        }
        claimed.is_some()
    }

    /// Every suspension of member `user_id` of guild `guild_id`, in force or
    /// not, ordered by when it began.
    pub fn get_suspensions(&self, guild_id: i64, user_id: i64) -> (history: Vec<Suspension>)
        requires
            self.wf(),
        ensures
            is_history(views(history@), self@, guild_id as int, user_id as int),
    {
        let mut history: Vec<Suspension> = Vec::new();
        let mut i: usize = 0;
        while i < self.records.len()
            invariant
                i <= self.records.len(),
                self@.len() == self.records.len(),
                self.wf(),
                forall|a: int, b: int|
                    0 <= a < b < history@.len() ==> precedes(
                        #[trigger] views(history@)[a],
                        #[trigger] views(history@)[b],
                    ),
                forall|r: SuspensionView|
                    #![trigger views(history@).contains(r)]
                    #![trigger self@.take(i as int).contains(r)]
                    views(history@).contains(r) <==> self@.take(i as int).contains(r) && concerns(
                        r,
                        guild_id as int,
                        user_id as int,
                    ),
            decreases self.records.len() - i,
        {
            let record = &self.records[i];
            let ghost seen = self@.take(i as int);
            let ghost next = self@.take(i + 1);
            proof {
                assert(next =~= seen.push(record@));
                assert forall|r: SuspensionView| #[trigger]
                    next.contains(r) <==> seen.contains(r) || r == record@ by {
                    if seen.contains(r) {
                        let k = choose|k: int| 0 <= k < seen.len() && seen[k] == r;
                        assert(next[k] == r);
                    }
                    if r == record@ {
                        assert(next[i as int] == r);
                    }
                }
            }
            if record.guild_id == guild_id && record.user_id == user_id {
                let ghost listed = views(history@);
                // Every listed record has an older identity, so `record` finds
                // its place by when it began alone.
                let mut place: usize = history.len();
                while place > 0 && record.from_timestamp < history[place - 1].from_timestamp
                    invariant
                        place <= history@.len(),
                        listed == views(history@),
                        forall|k: int|
                            place <= k < listed.len() ==> record@.from_timestamp < (
                            #[trigger] listed[k]).from_timestamp,
                    decreases place,
                {
                    place -= 1;
                }
                history.insert(place, record.clone());
                proof {
                    let grown = views(history@);
                    assert(grown =~= listed.insert(place as int, record@));
                    assert forall|k: int| 0 <= k < listed.len() implies (#[trigger] listed[k]).id
                        < record@.id by {
                        assert(listed.contains(listed[k]));
                        assert(seen.contains(listed[k]));
                        let m = choose|m: int| 0 <= m < seen.len() && seen[m] == listed[k];
                        assert(self@[m].id < self@[i as int].id);
                    }
                    assert forall|a: int, b: int| 0 <= a < b < grown.len() implies precedes(
                        #[trigger] grown[a],
                        #[trigger] grown[b],
                    ) by {
                        if b < place {
                            assert(grown[a] == listed[a] && grown[b] == listed[b]);
                        } else if b == place {
                            assert(grown[a] == listed[a]);
                            if place > 0 {
                                assert(a == place - 1 || precedes(listed[a], listed[place - 1]));
                            }
                        } else if a < place {
                            assert(grown[a] == listed[a] && grown[b] == listed[b - 1]);
                            assert(a == b - 1 || precedes(listed[a], listed[b - 1]));
                        } else if a == place {
                            assert(grown[b] == listed[b - 1]);
                        } else {
                            assert(grown[a] == listed[a - 1] && grown[b] == listed[b - 1]);
                        }
                    }
                    assert forall|r: SuspensionView| #[trigger]
                        grown.contains(r) <==> listed.contains(r) || r == record@ by {
                        if grown.contains(r) {
                            let k = choose|k: int| 0 <= k < grown.len() && grown[k] == r;
                            if k < place {
                                assert(listed[k] == r);
                            } else if k > place {
                                assert(listed[k - 1] == r);
                            }
                        }
                        if listed.contains(r) {
                            let k = choose|k: int| 0 <= k < listed.len() && listed[k] == r;
                            if k < place {
                                assert(grown[k] == r);
                            } else {
                                assert(grown[k + 1] == r);
                            }
                        }
                        if r == record@ {
                            assert(grown[place as int] == r);
                        }
                    }
                }
            }
            i += 1;
        }
        assert(self@.take(self.records.len() as int) =~= self@);
        history
    }
}

/// What a filter keeps, the sequence held, and the predicate accepts.
pub proof fn lemma_filter_keeps_members<A>(s: Seq<A>, pred: spec_fn(A) -> bool, k: int)
    requires
        0 <= k < s.filter(pred).len(),
    ensures
        pred(s.filter(pred)[k]),
        exists|i: int| 0 <= i < s.len() && #[trigger] s[i] == s.filter(pred)[k],
    decreases s.len(),
{
    reveal(Seq::filter);
    if s.len() > 0 {
        let rest = s.drop_last().filter(pred);
        if k < rest.len() {
            lemma_filter_keeps_members(s.drop_last(), pred, k);
            let i = choose|i: int|
                0 <= i < s.drop_last().len() && #[trigger] s.drop_last()[i] == rest[k];
            assert(s[i] == s.filter(pred)[k]);
        } else {
            assert(s[s.len() - 1] == s.filter(pred)[k]);
        }
    }
}

/// A claim hands out exactly the records that were active with their time
/// up, and afterwards exactly those are inactive that were so before or were
/// handed out; no record is due any more at that time.
pub proof fn lemma_claim_due_takes_what_is_due(t: Seq<SuspensionView>, now: int)
    ensures
        forall|r: SuspensionView| #[trigger]
            due_records(t, now).contains(r) <==> t.contains(r) && is_due(r, now),
        after_claim_due(t, now).len() == t.len(),
        forall|i: int|
            0 <= i < t.len() && is_due(t[i], now) ==> (#[trigger] after_claim_due(t, now)[i])
                == deactivated(t[i]),
        forall|i: int|
            0 <= i < t.len() && !is_due(t[i], now) ==> (#[trigger] after_claim_due(t, now)[i])
                == t[i],
        forall|i: int| 0 <= i < t.len() ==> !is_due(#[trigger] after_claim_due(t, now)[i], now),
        due_records(after_claim_due(t, now), now).len() == 0,
{
    let pred = |r: SuspensionView| is_due(r, now);
    let due = due_records(t, now);
    assert forall|r: SuspensionView| #[trigger] due.contains(r) <==> t.contains(r) && is_due(
        r,
        now,
    ) by {
        if due.contains(r) {
            let k = choose|k: int| 0 <= k < due.len() && due[k] == r;
            lemma_filter_keeps_members(t, pred, k);
        }
        if t.contains(r) && is_due(r, now) {
            let i = choose|i: int| 0 <= i < t.len() && t[i] == r;
            t.lemma_filter_contains(pred, i);
        }
    }
    let after = after_claim_due(t, now);
    let again = due_records(after, now);
    if again.len() > 0 {
        lemma_filter_keeps_members(after, pred, 0);
    }
}

/// Appending a record, claiming what is due and lifting one record's
/// restriction each leave every earlier record in place, changed at most
/// from active to inactive.
pub proof fn lemma_operations_evolve(t: Seq<SuspensionView>, r: SuspensionView, now: int, i: int)
    ensures
        evolves(t, t),
        evolves(t, t.push(r)),
        evolves(t, after_claim_due(t, now)),
        forall|guild_id: int, user_id: int| #[trigger]
            evolves(t, after_claim_member(t, guild_id, user_id, now)),
        0 <= i < t.len() ==> evolves(t, t.update(i, deactivated(t[i]))),
{
    if 0 <= i < t.len() {
        let u = t.update(i, deactivated(t[i]));
        assert forall|k: int| 0 <= k < t.len() implies (#[trigger] u[k]) == t[k] || (t[k].active
            && u[k] == deactivated(t[k])) by {
            if k == i && !t[i].active {
                assert(deactivated(t[i]) == t[i]);
            }
        }
    }
}

/// Evolution composes: what came from a table that came from `a` came from
/// `a`.
pub proof fn lemma_evolves_transitive(
    a: Seq<SuspensionView>,
    b: Seq<SuspensionView>,
    c: Seq<SuspensionView>,
)
    requires
        evolves(a, b),
        evolves(b, c),
    ensures
        evolves(a, c),
{
    assert forall|i: int| 0 <= i < a.len() implies (#[trigger] c[i]) == a[i] || (a[i].active
        && c[i] == deactivated(a[i])) by {
        assert(b[i] == a[i] || (a[i].active && b[i] == deactivated(a[i])));
        assert(c[i] == b[i] || (b[i].active && c[i] == deactivated(b[i])));
    }
}

/// Every claim hands out records of the table that were active: what is due,
/// and what is in force against a member.
pub proof fn lemma_claims_hand_out_active_records(
    t: Seq<SuspensionView>,
    guild_id: int,
    user_id: int,
    now: int,
)
    ensures
        forall|i: int|
            0 <= i < due_records(t, now).len() ==> (#[trigger] due_records(t, now)[i]).active
                && t.contains(due_records(t, now)[i]),
        forall|i: int|
            0 <= i < current_records(t, guild_id, user_id, now).len() ==> (
            #[trigger] current_records(t, guild_id, user_id, now)[i]).active && t.contains(
                current_records(t, guild_id, user_id, now)[i],
            ),
{
    assert forall|i: int| 0 <= i < due_records(t, now).len() implies (#[trigger] due_records(
        t,
        now,
    )[i]).active && t.contains(due_records(t, now)[i]) by {
        lemma_filter_keeps_members(t, |r: SuspensionView| is_due(r, now), i);
    }
    assert forall|i: int| 0 <= i < current_records(t, guild_id, user_id, now).len() implies (
    #[trigger] current_records(t, guild_id, user_id, now)[i]).active && t.contains(
        current_records(t, guild_id, user_id, now)[i],
    ) by {
        lemma_filter_keeps_members(
            t,
            |r: SuspensionView| concerns(r, guild_id, user_id) && is_current(r, now),
            i,
        );
    }
}

/// A record that is closed stays closed and is never claimed again: however
/// the table evolves, the record stays as it is, and no active record of the
/// later table has its identity.
pub proof fn lemma_closed_stays_closed(
    t: Seq<SuspensionView>,
    later: Seq<SuspensionView>,
    later_next_id: int,
    k: int,
)
    requires
        evolves(t, later),
        table_wf(later, later_next_id),
        0 <= k < t.len(),
        !t[k].active,
    ensures
        later[k] == t[k],
        forall|m: int| 0 <= m < later.len() && (#[trigger] later[m]).active ==> later[m].id != t[k].id,
{
    assert(later[k] == t[k]);
    assert forall|m: int| 0 <= m < later.len() && (#[trigger] later[m]).active implies later[m].id
        != t[k].id by {
        if m != k {
            assert(later[m].id != later[k].id);
        }
    }
}

/// A record handed out by one claim is never handed out by a later one:
/// whatever was appended or claimed in between (`later` evolved from the
/// table as the first claim left it), no record due in `later` has the
/// identity of a record that the first claim returned.
pub proof fn lemma_claimed_at_most_once(
    t: Seq<SuspensionView>,
    next_id: int,
    now: int,
    later: Seq<SuspensionView>,
    later_next_id: int,
    later_now: int,
)
    requires
        table_wf(t, next_id),
        table_wf(later, later_next_id),
        evolves(after_claim_due(t, now), later),
    ensures
        forall|i: int, j: int|
            0 <= i < due_records(t, now).len() && 0 <= j < due_records(later, later_now).len()
                ==> (#[trigger] due_records(t, now)[i]).id != (#[trigger] due_records(
                later,
                later_now,
            )[j]).id,
{
    let first = due_records(t, now);
    let second = due_records(later, later_now);
    let after = after_claim_due(t, now);
    assert forall|i: int, j: int| 0 <= i < first.len() && 0 <= j < second.len() implies (
    #[trigger] first[i]).id != (#[trigger] second[j]).id by {
        lemma_filter_keeps_members(t, |r: SuspensionView| is_due(r, now), i);
        lemma_filter_keeps_members(later, |r: SuspensionView| is_due(r, later_now), j);
        let k = choose|k: int| 0 <= k < t.len() && #[trigger] t[k] == first[i];
        let m = choose|m: int| 0 <= m < later.len() && #[trigger] later[m] == second[j];
        assert(after[k] == deactivated(t[k]));
        assert(later[k] == after[k]);
        assert(later[m].active);
        if k != m {
            assert(later[k].id != later[m].id);
        }
    }
}

/// Two listings in history order that hold the same records are the same
/// listing.
proof fn lemma_same_records_same_listing(a: Seq<SuspensionView>, b: Seq<SuspensionView>)
    requires
        in_history_order(a),
        in_history_order(b),
        forall|r: SuspensionView| #[trigger] a.contains(r) <==> b.contains(r),
    ensures
        a == b,
    decreases a.len(),
{
    if a.len() == 0 {
        if b.len() > 0 {
            assert(b.contains(b[0]));
            assert(a.contains(b[0]));
        }
        assert(a =~= b);
    } else {
        let x = a.last();
        assert(a.contains(x));
        assert(b.contains(x));
        let p = choose|p: int| 0 <= p < b.len() && b[p] == x;
        if p < b.len() - 1 {
            // Something follows `x` in `b`; it is in `a`, where nothing
            // follows `x`.
            let y = b.last();
            assert(precedes(b[p], b[b.len() - 1]));
            assert(b.contains(y));
            assert(a.contains(y));
            let q = choose|q: int| 0 <= q < a.len() && a[q] == y;
            if q < a.len() - 1 {
                assert(precedes(a[q], a[a.len() - 1]));
            }
            assert(false);
        }
        assert(b.last() == x);
        let a0 = a.drop_last();
        let b0 = b.drop_last();
        assert forall|r: SuspensionView| #[trigger] a0.contains(r) <==> b0.contains(r) by {
            if a0.contains(r) {
                let k = choose|k: int| 0 <= k < a0.len() && a0[k] == r;
                assert(precedes(a[k], a[a.len() - 1]));
                assert(a.contains(r));
                assert(b.contains(r));
                let m = choose|m: int| 0 <= m < b.len() && b[m] == r;
                assert(b0[m] == r);
            }
            if b0.contains(r) {
                let k = choose|k: int| 0 <= k < b0.len() && b0[k] == r;
                assert(precedes(b[k], b[b.len() - 1]));
                assert(b.contains(r));
                assert(a.contains(r));
                let m = choose|m: int| 0 <= m < a.len() && a[m] == r;
                assert(a0[m] == r);
            }
        }
        assert forall|i: int, j: int| 0 <= i < j < a0.len() implies precedes(
            #[trigger] a0[i],
            #[trigger] a0[j],
        ) by {
            assert(precedes(a[i], a[j]));
        }
        assert forall|i: int, j: int| 0 <= i < j < b0.len() implies precedes(
            #[trigger] b0[i],
            #[trigger] b0[j],
        ) by {
            assert(precedes(b[i], b[j]));
        }
        lemma_same_records_same_listing(a0, b0);
        assert(a =~= a0.push(x));
        assert(b =~= b0.push(x));
    }
}

/// A member's history is determined: two listings of the same table that
/// both meet `is_history` are the same listing.
pub proof fn lemma_history_is_unique(
    a: Seq<SuspensionView>,
    b: Seq<SuspensionView>,
    t: Seq<SuspensionView>,
    guild_id: int,
    user_id: int,
)
    requires
        is_history(a, t, guild_id, user_id),
        is_history(b, t, guild_id, user_id),
    ensures
        a == b,
{
    assert forall|r: SuspensionView| #[trigger] a.contains(r) <==> b.contains(r) by {
        assert(a.contains(r) <==> t.contains(r) && concerns(r, guild_id, user_id));
        assert(b.contains(r) <==> t.contains(r) && concerns(r, guild_id, user_id));
    }
    lemma_same_records_same_listing(a, b);
}

} // verus!
