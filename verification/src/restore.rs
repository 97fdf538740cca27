//! Giving a member's roles back, one request to the guild at a time.
//!
//! The library decides what to ask of the guild next; the caller asks, and
//! reports whether it worked. First the member is looked up; then the role
//! that marks a suspended member is taken away; then each remembered role is
//! first checked and, where the guild still has it, given back. A role that
//! is gone is passed over. A role that cannot be given back is noted, and the
//! next one is tried.

use vstd::prelude::*;
use crate::suspend::role_texts;
use crate::suspension::{Suspension, texts};
use crate::text::{
    decimal_text, is_digit, lemma_decimal_text_reads_back, parse_unsigned, unsigned_u64,
};

verus! {

/// Where a restoration stands.
#[derive(Debug, Clone, Copy, PartialEq, Eq, Structural)]
pub enum Stage {
    /// The member is being looked up.
    Resolving,
    /// The role of the suspended is being taken away.
    Removing,
    /// The guild is being asked whether it still has the role in turn.
    Checking,
    /// The role in turn is being given back.
    Adding,
    /// Nothing is left to do.
    Done,
}

/// What the caller is to ask of the guild next.
#[derive(Debug, Clone, Copy, PartialEq, Eq, Structural)]
pub enum RestoreStep {
    /// Look up member `user_id` of guild `guild_id`. It worked if the member
    /// is there.
    ResolveMember { guild_id: i64, user_id: i64 },
    /// Take the role away from the member.
    RemoveRole(u64),
    /// Ask whether the guild still has the role. It worked if it has.
    CheckRole(u64),
    /// Give the role to the member.
    AddRole(u64),
    /// Nothing: the restoration is over.
    Finished,
}

/// How a restoration ended.
#[derive(Debug, Clone, PartialEq, Eq)]
pub enum RestoreOutcome {
    /// The role of the suspended was taken away, and every remembered role
    /// that the guild still has was given back.
    Restored,
    /// The member is not in the guild any more. Nothing will be retried.
    MemberUnavailable,
    /// Something did not work: the role of the suspended could not be taken
    /// away, or the roles listed could not be given back.
    PartialRestoreFailure { suspended_role_removed: bool, failed_roles: Vec<u64> },
}

/// How a restoration ended, as a mathematical value.
pub enum RestoreOutcomeView {
    Restored,
    MemberUnavailable,
    PartialRestoreFailure { suspended_role_removed: bool, failed_roles: Seq<u64> },
}

impl View for RestoreOutcome {
    type V = RestoreOutcomeView;

    open spec fn view(&self) -> RestoreOutcomeView {
        match *self {
            RestoreOutcome::Restored => RestoreOutcomeView::Restored,
            RestoreOutcome::MemberUnavailable => RestoreOutcomeView::MemberUnavailable,
            RestoreOutcome::PartialRestoreFailure { suspended_role_removed, failed_roles } =>
                RestoreOutcomeView::PartialRestoreFailure {
                    suspended_role_removed,
                    failed_roles: failed_roles@,
                },
        }
    }
}

/// A restoration under way.
#[derive(Debug)]
pub struct Restoration {
    guild_id: i64,
    user_id: i64,
    suspended_role: u64,
    roles: Vec<u64>,
    stage: Stage,
    position: usize,
    member_found: bool,
    role_removed: bool,
    failed: Vec<u64>,
}

/// A restoration under way, as a mathematical value.
pub struct RestorationView {
    pub guild_id: int,
    pub user_id: int,
    /// The role that marks a suspended member.
    pub suspended_role: u64,
    /// The roles to give back, in the order in which they are tried.
    pub roles: Seq<u64>,
    pub stage: Stage,
    /// How many of `roles` have been dealt with.
    pub position: nat,
    /// Whether the member was there when looked up.
    pub member_found: bool,
    /// Whether taking the role of the suspended away worked.
    pub role_removed: bool,
    /// The roles that could not be given back, in the order of `roles`.
    pub failed: Seq<u64>,
}

impl View for Restoration {
    type V = RestorationView;

    closed spec fn view(&self) -> RestorationView {
        RestorationView {
            guild_id: self.guild_id as int,
            user_id: self.user_id as int,
            suspended_role: self.suspended_role,
            roles: self.roles@,
            stage: self.stage,
            position: self.position as nat,
            member_found: self.member_found,
            role_removed: self.role_removed,
            failed: self.failed@,
        }
    }
}

/// The role ids among `remembered`, in their order: each text that reads as
/// an unsigned 64-bit number. Any other text is passed over.
pub open spec fn role_ids(remembered: Seq<Seq<char>>) -> Seq<u64>
    decreases remembered.len(),
{
    if remembered.len() == 0 {
        Seq::empty()
    } else {
        let head = role_ids(remembered.drop_last());
        match unsigned_u64(remembered.last()) {
            Some(id) => head.push(id),
            None => head,
        }
    }
}

/// The restoration of the roles `roles` of member `user_id` of guild
/// `guild_id`, before anything was asked.
pub open spec fn start_of_restoration(
    guild_id: int,
    user_id: int,
    suspended_role: u64,
    roles: Seq<u64>,
) -> RestorationView {
    RestorationView {
        guild_id,
        user_id,
        suspended_role,
        roles,
        stage: Stage::Resolving,
        position: 0,
        member_found: false,
        role_removed: false,
        failed: Seq::empty(),
    }
}

/// What holds of every restoration: while a role is in turn, there is one.
pub open spec fn restoration_wf(s: RestorationView) -> bool {
    &&& s.position <= s.roles.len()
    &&& (s.stage is Checking || s.stage is Adding) ==> s.position < s.roles.len()
}

/// What is to be asked in state `s`.
pub open spec fn step_of(s: RestorationView) -> RestoreStep {
    match s.stage {
        Stage::Resolving => RestoreStep::ResolveMember {
            guild_id: s.guild_id as i64,
            user_id: s.user_id as i64,
        },
        Stage::Removing => RestoreStep::RemoveRole(s.suspended_role),
        Stage::Checking => RestoreStep::CheckRole(s.roles[s.position as int]),
        Stage::Adding => RestoreStep::AddRole(s.roles[s.position as int]),
        Stage::Done => RestoreStep::Finished,
    }
}

/// The state in which the role at `position` is in turn, or the end where
/// no role is left.
pub open spec fn turn_to(s: RestorationView, position: nat) -> RestorationView {
    RestorationView {
        position,
        stage: if position < s.roles.len() {
            Stage::Checking
        } else {
            Stage::Done
        },
        ..s
    }
}

/// The state after what was asked in state `s` worked (`succeeded`) or did
/// not.
pub open spec fn advanced(s: RestorationView, succeeded: bool) -> RestorationView {
    match s.stage {
        Stage::Resolving => RestorationView {
            member_found: succeeded,
            stage: Stage::Removing,
            ..s
        },
        Stage::Removing => if s.member_found {
            turn_to(RestorationView { role_removed: succeeded, ..s }, 0)
        } else {
            RestorationView { role_removed: succeeded, stage: Stage::Done, ..s }
        },
        Stage::Checking => if succeeded {
            RestorationView { stage: Stage::Adding, ..s }
        } else {
            turn_to(s, s.position + 1)
        },
        Stage::Adding => if succeeded {
            turn_to(s, s.position + 1)
        } else {
            turn_to(
                RestorationView { failed: s.failed.push(s.roles[s.position as int]), ..s },
                s.position + 1,
            )
        },
        Stage::Done => s,
    }
}

/// How the restoration in state `s` ended, `None` while it is under way.
pub open spec fn outcome_of(s: RestorationView) -> Option<RestoreOutcomeView> {
    if !(s.stage is Done) {
        None
    } else if !s.member_found {
        Some(RestoreOutcomeView::MemberUnavailable)
    } else if s.role_removed && s.failed.len() == 0 {
        Some(RestoreOutcomeView::Restored)
    } else {
        Some(
            RestoreOutcomeView::PartialRestoreFailure {
                suspended_role_removed: s.role_removed,
                failed_roles: s.failed,
            },
        )
    }
}

/// The role ids among `remembered`, in their order.
pub fn parse_role_ids(remembered: &Vec<String>) -> (ids: Vec<u64>)
    ensures
        ids@ == role_ids(texts(remembered@)),
{
    let ghost all = texts(remembered@);
    let mut ids: Vec<u64> = Vec::new();
    let mut i: usize = 0;
    assert(all.take(0) =~= Seq::<Seq<char>>::empty());
    while i < remembered.len()
        invariant
            i <= remembered.len(),
            all == texts(remembered@),
            ids@ == role_ids(all.take(i as int)),
        decreases remembered.len() - i,
    {
        proof {
            assert(all.take(i + 1).drop_last() =~= all.take(i as int));
            assert(all.take(i + 1).last() == remembered@[i as int]@);
        }
        match parse_unsigned(remembered[i].as_str()) {
            Some(id) => {
                ids.push(id);
            },
            None => {},
        }
        i += 1;
    }
    assert(all.take(remembered.len() as int) =~= all);
    ids
}

/// Begins to give back the roles that `suspension` remembers, where
/// `suspended_role_id` is the role that marks a suspended member. Nothing
/// has been asked of the guild yet; the first step is to look the member up.
pub fn restore_roles(suspended_role_id: u64, suspension: &Suspension) -> (restoration: Restoration)
    ensures
        restoration.wf(),
        restoration@ == start_of_restoration(
            suspension@.guild_id,
            suspension@.user_id,
            suspended_role_id,
            role_ids(suspension@.previous_roles),
        ),
{
    Restoration {
        guild_id: suspension.guild_id,
        user_id: suspension.user_id,
        suspended_role: suspended_role_id,
        roles: parse_role_ids(&suspension.previous_roles),
        stage: Stage::Resolving,
        position: 0,
        member_found: false,
        role_removed: false,
        failed: Vec::new(),
    }
}

impl Restoration {
    /// The restoration's invariant.
    pub open spec fn wf(&self) -> bool {
        restoration_wf(self@)
    }

    /// What the caller is to ask of the guild now.
    pub fn next_step(&self) -> (step: RestoreStep)
        requires
            self.wf(),
        ensures
            step == step_of(self@),
    {
        match self.stage {
            Stage::Resolving => RestoreStep::ResolveMember {
                guild_id: self.guild_id,
                user_id: self.user_id,
            },
            Stage::Removing => RestoreStep::RemoveRole(self.suspended_role),
            Stage::Checking => RestoreStep::CheckRole(self.roles[self.position]),
            Stage::Adding => RestoreStep::AddRole(self.roles[self.position]),
            Stage::Done => RestoreStep::Finished,
        }
    }

    /// Takes note of whether what `next_step` asked for worked, and moves
    /// on. A restoration that is over stays as it is.
    pub fn advance(&mut self, succeeded: bool)
        requires
            old(self).wf(),
        ensures
            final(self).wf(),
            final(self)@ == advanced(old(self)@, succeeded),
    {
        match self.stage {
            Stage::Resolving => {
                self.member_found = succeeded;
                self.stage = Stage::Removing;
            },
            Stage::Removing => {
                self.role_removed = succeeded;
                if self.member_found {
                    self.turn(0);
                } else {
                    self.stage = Stage::Done;
                }
            },
            Stage::Checking => {
                if succeeded {
                    self.stage = Stage::Adding;
                } else {
                    self.turn_to_next();
                }
            },
            Stage::Adding => {
                if !succeeded {
                    self.failed.push(self.roles[self.position]);
                }
                self.turn_to_next();
            },
            Stage::Done => {},
        }
    }

    /// Turns to the role at `position`, or ends where no role is left.
    fn turn(&mut self, position: usize)
        requires
            position <= old(self).roles@.len(),
        ensures
            final(self)@ == turn_to(old(self)@, position as nat),
            final(self).wf(),
    {
        self.position = position;
        self.stage = if position < self.roles.len() {
            Stage::Checking
        } else {
            Stage::Done
        };
    }

    /// Turns to the role after the one in turn.
    fn turn_to_next(&mut self)
        requires
            old(self).position < old(self).roles@.len(),
        ensures
            final(self)@ == turn_to(old(self)@, (old(self).position + 1) as nat),
            final(self).wf(),
    {
        let count = self.roles.len();
        if self.position < count {
            self.turn(self.position + 1);
        }
    }

    /// Whether the restoration is over.
    pub fn is_finished(&self) -> (finished: bool)
        ensures
            finished == (self@.stage is Done),
    {
        match self.stage {
            Stage::Done => true,
            _ => false,
        }
    }

    /// How the restoration ended, `None` while it is under way.
    pub fn outcome(&self) -> (outcome: Option<RestoreOutcome>)
        ensures
            match outcome {
                Some(o) => outcome_of(self@) == Some(o@),
                None => outcome_of(self@) is None,
            },
    {
        if !self.is_finished() {
            None
        } else if !self.member_found {
            Some(RestoreOutcome::MemberUnavailable)
        } else if self.role_removed && self.failed.len() == 0 {
            Some(RestoreOutcome::Restored)
        } else {
            let mut failed_roles: Vec<u64> = Vec::new();
            let mut i: usize = 0;
            while i < self.failed.len()
                invariant
                    i <= self.failed.len(),
                    failed_roles@ == self.failed@.take(i as int),
                decreases self.failed.len() - i,
            {
                failed_roles.push(self.failed[i]);
                assert(failed_roles@ =~= self.failed@.take(i + 1));
                i += 1;
            }
            assert(self.failed@.take(self.failed.len() as int) =~= self.failed@);
            Some(
                RestoreOutcome::PartialRestoreFailure {
                    suspended_role_removed: self.role_removed,
                    failed_roles,
                },
            )
        }
    }
}

/// A guild as a restoration meets it: whether the member is there, which
/// roles the guild has, which roles it refuses to give or take, and which
/// roles the member holds.
pub struct GuildModel {
    pub member_present: bool,
    pub existing: Set<u64>,
    pub refused: Set<u64>,
    pub held: Set<u64>,
}

/// What the guild `g` does when asked `step`: the guild afterwards, and
/// whether it worked. Roles are given and taken only where the member is
/// there and the guild does not refuse; a role that the guild does not have
/// cannot be given.
pub open spec fn answer(g: GuildModel, step: RestoreStep) -> (GuildModel, bool) {
    match step {
        RestoreStep::ResolveMember { .. } => (g, g.member_present),
        RestoreStep::RemoveRole(role) => if g.member_present && !g.refused.contains(role) {
            (GuildModel { held: g.held.remove(role), ..g }, true)
        } else {
            (g, false)
        },
        RestoreStep::CheckRole(role) => (g, g.existing.contains(role)),
        RestoreStep::AddRole(role) => if g.member_present && g.existing.contains(role)
            && !g.refused.contains(role) {
            (GuildModel { held: g.held.insert(role), ..g }, true)
        } else {
            (g, false)
        },
        RestoreStep::Finished => (g, true),
    }
}

/// A bound on the requests that the restoration in state `s` still makes.
pub open spec fn steps_left(s: RestorationView) -> nat {
    match s.stage {
        Stage::Resolving => 2 * s.roles.len() + 2,
        Stage::Removing => 2 * s.roles.len() + 1,
        Stage::Checking => (2 * (s.roles.len() - s.position)) as nat,
        Stage::Adding => (2 * (s.roles.len() - s.position) - 1) as nat,
        Stage::Done => 0,
    }
}

/// The restoration in state `s` carried through against the guild `g`: each
/// step is asked of the guild and its answer fed back, until nothing is left
/// to ask. Gives the last state and the guild as it is then.
pub open spec fn run(s: RestorationView, g: GuildModel) -> (RestorationView, GuildModel)
    decreases steps_left(s),
{
    if s.stage is Done || !restoration_wf(s) {
        (s, g)
    } else {
        let (after, succeeded) = answer(g, step_of(s));
        run(advanced(s, succeeded), after)
    }
}

/// The roles that the guild `g` has and yet refuses to give.
pub open spec fn cannot_be_given(g: GuildModel) -> spec_fn(u64) -> bool {
    |role: u64| g.existing.contains(role) && g.refused.contains(role)
}

/// The roles among `roles` that the guild `g` has and gives.
pub open spec fn given_back(roles: Seq<u64>, g: GuildModel) -> Set<u64> {
    Set::new(
        |role: u64| roles.contains(role) && g.existing.contains(role) && !g.refused.contains(role),
    )
}

/// How the restoration of `roles` ends against the guild `g`.
pub open spec fn expected_outcome(suspended_role: u64, roles: Seq<u64>, g: GuildModel)
    -> RestoreOutcomeView {
    let failed = roles.filter(cannot_be_given(g));
    if !g.member_present {
        RestoreOutcomeView::MemberUnavailable
    } else if !g.refused.contains(suspended_role) && failed.len() == 0 {
        RestoreOutcomeView::Restored
    } else {
        RestoreOutcomeView::PartialRestoreFailure {
            suspended_role_removed: !g.refused.contains(suspended_role),
            failed_roles: failed,
        }
    }
}

/// The roles that the member holds after the restoration of `roles` against
/// the guild `g`.
pub open spec fn expected_roles(suspended_role: u64, roles: Seq<u64>, g: GuildModel) -> Set<u64> {
    if !g.member_present {
        g.held
    } else if g.refused.contains(suspended_role) {
        g.held.union(given_back(roles, g))
    } else {
        g.held.remove(suspended_role).union(given_back(roles, g))
    }
}

/// What a filter keeps of a sequence is what it keeps of the first entry,
/// then what it keeps of the rest.
proof fn lemma_filter_from_the_front(s: Seq<u64>, pred: spec_fn(u64) -> bool)
    requires
        s.len() > 0,
    ensures
        s.filter(pred) == if pred(s[0]) {
            seq![s[0]] + s.drop_first().filter(pred)
        } else {
            s.drop_first().filter(pred)
        },
{
    let first = seq![s[0]];
    assert(s =~= first + s.drop_first());
    Seq::filter_distributes_over_add(first, s.drop_first(), pred);
    assert(first.filter(pred) =~= if pred(s[0]) {
        first
    } else {
        Seq::<u64>::empty()
    }) by {
        reveal_with_fuel(Seq::filter, 2);
        assert(first.drop_last() =~= Seq::<u64>::empty());
    }
    if !pred(s[0]) {
        assert(Seq::<u64>::empty() + s.drop_first().filter(pred) =~= s.drop_first().filter(pred));
    }
}

/// From the moment a role is in turn, a restoration against a guild where
/// the member is there deals with every role that is left and ends.
proof fn lemma_roles_in_turn(s: RestorationView, g: GuildModel)
    requires
        restoration_wf(s),
        s.stage is Checking || s.stage is Done,
        s.stage is Done ==> s.position == s.roles.len(),
        g.member_present,
    ensures
        run(s, g).0 == (RestorationView {
            stage: Stage::Done,
            position: s.roles.len(),
            failed: s.failed + s.roles.skip(s.position as int).filter(cannot_be_given(g)),
            ..s
        }),
        run(s, g).1 == (GuildModel {
            held: g.held.union(given_back(s.roles.skip(s.position as int), g)),
            ..g
        }),
    decreases s.roles.len() - s.position,
{
    let rest = s.roles.skip(s.position as int);
    if s.stage is Done {
        assert(rest =~= Seq::<u64>::empty());
        assert(rest.filter(cannot_be_given(g)) =~= Seq::<u64>::empty()) by {
            reveal(Seq::filter);
        }
        assert(s.failed + Seq::<u64>::empty() =~= s.failed);
        assert(g.held.union(given_back(rest, g)) =~= g.held);
    } else {
        let role = s.roles[s.position as int];
        assert(rest[0] == role);
        assert(rest.drop_first() =~= s.roles.skip(s.position as int + 1));
        let later = s.roles.skip(s.position as int + 1);
        lemma_filter_from_the_front(rest, cannot_be_given(g));
        assert forall|r: u64| #[trigger] rest.contains(r) <==> r == role || later.contains(r) by {
            if rest.contains(r) {
                let k = choose|k: int| 0 <= k < rest.len() && rest[k] == r;
                if k > 0 {
                    assert(later[k - 1] == r);
                }
            }
            if later.contains(r) {
                let k = choose|k: int| 0 <= k < later.len() && later[k] == r;
                assert(rest[k + 1] == r);
            }
            if r == role {
                assert(rest[0] == r);
            }
        }
        if !g.existing.contains(role) {
            let next = turn_to(s, s.position + 1);
            assert(run(s, g) == run(next, g));
            lemma_roles_in_turn(next, g);
            assert(given_back(rest, g) =~= given_back(later, g));
        } else {
            let adding = RestorationView { stage: Stage::Adding, ..s };
            assert(run(s, g) == run(adding, g));
            if g.refused.contains(role) {
                let next = turn_to(
                    RestorationView { failed: s.failed.push(role), ..adding },
                    s.position + 1,
                );
                assert(run(adding, g) == run(next, g));
                lemma_roles_in_turn(next, g);
                assert(given_back(rest, g) =~= given_back(later, g));
                assert(s.failed.push(role) + later.filter(cannot_be_given(g)) =~= s.failed + (
                seq![role] + later.filter(cannot_be_given(g))));
            } else {
                let next = turn_to(adding, s.position + 1);
                let richer = GuildModel { held: g.held.insert(role), ..g };
                assert(run(adding, g) == run(next, richer));
                lemma_roles_in_turn(next, richer);
                assert(given_back(later, richer) =~= given_back(later, g));
                assert(cannot_be_given(richer) == cannot_be_given(g));
                assert(g.held.insert(role).union(given_back(later, g)) =~= g.held.union(
                    given_back(rest, g),
                ));
            }
        }
    }
}

/// Every restoration ends, whatever the guild answers, and it ends as
/// `expected_outcome` and `expected_roles` say: without the member, as
/// `MemberUnavailable` with no role changed; with the member, with the role
/// of the suspended taken away unless the guild refused that, every
/// remembered role given back that the guild has and does not refuse, the
/// roles that it refused listed, and the roles that it no longer has passed
/// over without a word.
pub proof fn lemma_restoration_ends(
    guild_id: int,
    user_id: int,
    suspended_role: u64,
    roles: Seq<u64>,
    g: GuildModel,
)
    ensures
        ({
            let (end, after) = run(
                start_of_restoration(guild_id, user_id, suspended_role, roles),
                g,
            );
            &&& end.stage is Done
            &&& outcome_of(end) == Some(expected_outcome(suspended_role, roles, g))
            &&& after == GuildModel { held: expected_roles(suspended_role, roles, g), ..g }
        }),
{
    let s0 = start_of_restoration(guild_id, user_id, suspended_role, roles);
    let s1 = advanced(s0, g.member_present);
    assert(run(s0, g) == run(s1, g));
    let (g2, removed) = answer(g, RestoreStep::RemoveRole(suspended_role));
    let s2 = advanced(s1, removed);
    assert(run(s1, g) == run(s2, g2));
    if g.member_present {
        lemma_roles_in_turn(s2, g2);
        assert(roles.skip(0) =~= roles);
        assert(Seq::<u64>::empty() + roles.filter(cannot_be_given(g2)) =~= roles.filter(
            cannot_be_given(g2),
        ));
        assert(cannot_be_given(g2) == cannot_be_given(g));
        assert(given_back(roles, g2) =~= given_back(roles, g));
    } else {
        assert(run(s2, g2) == (s2, g2));
    }
}

/// What the restoration in state `s` asks of the guild `g` until it ends,
/// in the order in which it asks.
pub open spec fn asked(s: RestorationView, g: GuildModel) -> Seq<RestoreStep>
    decreases steps_left(s),
{
    if s.stage is Done || !restoration_wf(s) {
        Seq::empty()
    } else {
        let (after, succeeded) = answer(g, step_of(s));
        seq![step_of(s)] + asked(advanced(s, succeeded), after)
    }
}

/// What is asked for the roles `roles` in a guild that has the roles
/// `existing`: of each role in its turn whether the guild has it, and then
/// to give it where it has.
pub open spec fn asked_for_roles(roles: Seq<u64>, existing: Set<u64>) -> Seq<RestoreStep>
    decreases roles.len(),
{
    if roles.len() == 0 {
        Seq::empty()
    } else if existing.contains(roles[0]) {
        seq![RestoreStep::CheckRole(roles[0]), RestoreStep::AddRole(roles[0])] + asked_for_roles(
            roles.drop_first(),
            existing,
        )
    } else {
        seq![RestoreStep::CheckRole(roles[0])] + asked_for_roles(roles.drop_first(), existing)
    }
}

/// From the moment a role is in turn, the roles that are left are asked for
/// one after the other.
proof fn lemma_asked_in_turn(s: RestorationView, g: GuildModel)
    requires
        restoration_wf(s),
        s.stage is Checking || s.stage is Done,
        s.stage is Done ==> s.position == s.roles.len(),
    ensures
        asked(s, g) == asked_for_roles(s.roles.skip(s.position as int), g.existing),
    decreases s.roles.len() - s.position,
{
    let rest = s.roles.skip(s.position as int);
    if s.stage is Done {
        assert(rest =~= Seq::<u64>::empty());
    } else {
        let role = s.roles[s.position as int];
        assert(rest[0] == role);
        assert(rest.drop_first() =~= s.roles.skip(s.position as int + 1));
        if !g.existing.contains(role) {
            let next = turn_to(s, s.position + 1);
            assert(asked(s, g) == seq![RestoreStep::CheckRole(role)] + asked(next, g));
            lemma_asked_in_turn(next, g);
        } else {
            let adding = RestorationView { stage: Stage::Adding, ..s };
            let (after, succeeded) = answer(g, RestoreStep::AddRole(role));
            let next = advanced(adding, succeeded);
            assert(asked(s, g) == seq![RestoreStep::CheckRole(role)] + asked(adding, g));
            assert(asked(adding, g) == seq![RestoreStep::AddRole(role)] + asked(next, after));
            lemma_asked_in_turn(next, after);
            assert(seq![RestoreStep::CheckRole(role)] + (seq![RestoreStep::AddRole(role)] + asked(
                next,
                after,
            )) =~= seq![RestoreStep::CheckRole(role), RestoreStep::AddRole(role)] + asked(
                next,
                after,
            ));
        }
    }
}

/// A restoration asks in a fixed order: first for the member, then to take
/// the role of the suspended away, and, where the member is there, for each
/// remembered role in its turn whether the guild has it and, where it has,
/// to give it. Whether giving or taking worked changes nothing about what is
/// asked next.
pub proof fn lemma_restoration_asks_in_order(
    guild_id: i64,
    user_id: i64,
    suspended_role: u64,
    roles: Seq<u64>,
    g: GuildModel,
)
    ensures
        asked(start_of_restoration(guild_id as int, user_id as int, suspended_role, roles), g)
            == seq![
            RestoreStep::ResolveMember { guild_id, user_id },
            RestoreStep::RemoveRole(suspended_role),
        ] + if g.member_present {
            asked_for_roles(roles, g.existing)
        } else {
            Seq::empty()
        },
{
    let s0 = start_of_restoration(guild_id as int, user_id as int, suspended_role, roles);
    let s1 = advanced(s0, g.member_present);
    let (g2, removed) = answer(g, RestoreStep::RemoveRole(suspended_role));
    let s2 = advanced(s1, removed);
    let first = RestoreStep::ResolveMember { guild_id, user_id };
    let second = RestoreStep::RemoveRole(suspended_role);
    assert(step_of(s0) == first);
    assert(asked(s0, g) == seq![first] + asked(s1, g));
    assert(asked(s1, g) == seq![second] + asked(s2, g2));
    if g.member_present {
        lemma_asked_in_turn(s2, g2);
        assert(roles.skip(0) =~= roles);
    } else {
        assert(asked(s2, g2) =~= Seq::<RestoreStep>::empty());
    }
    assert(seq![first] + (seq![second] + asked(s2, g2)) =~= seq![first, second] + asked(s2, g2));
}

/// A role that is gone does not stop a restoration: where the member is
/// there and the guild refuses nothing, the restoration ends as `Restored`,
/// and the member then holds what was held before without the role of the
/// suspended, and every remembered role that the guild still has.
pub proof fn lemma_gone_roles_are_passed_over(
    guild_id: int,
    user_id: int,
    suspended_role: u64,
    roles: Seq<u64>,
    g: GuildModel,
)
    requires
        g.member_present,
        g.refused == Set::<u64>::empty(),
    ensures
        ({
            let (end, after) = run(
                start_of_restoration(guild_id, user_id, suspended_role, roles),
                g,
            );
            &&& outcome_of(end) == Some(RestoreOutcomeView::Restored)
            &&& forall|role: u64|
                after.held.contains(role) <==> (g.held.contains(role) && role != suspended_role)
                    || (roles.contains(role) && g.existing.contains(role))
        }),
{
    lemma_restoration_ends(guild_id, user_id, suspended_role, roles, g);
    let failed = roles.filter(cannot_be_given(g));
    if failed.len() > 0 {
        roles.lemma_filter_pred(cannot_be_given(g), 0);
    }
}

/// A restoration undoes a suspension: where the member holds the role of
/// the suspended and nothing else, every remembered role still exists and
/// the guild refuses nothing, the member ends up holding exactly the
/// remembered roles.
pub proof fn lemma_restoration_undoes_suspension(
    guild_id: int,
    user_id: int,
    suspended_role: u64,
    roles: Seq<u64>,
    g: GuildModel,
)
    requires
        g.member_present,
        g.refused == Set::<u64>::empty(),
        g.held == set![suspended_role],
        forall|i: int| 0 <= i < roles.len() ==> g.existing.contains(#[trigger] roles[i]),
    ensures
        ({
            let (end, after) = run(
                start_of_restoration(guild_id, user_id, suspended_role, roles),
                g,
            );
            &&& outcome_of(end) == Some(RestoreOutcomeView::Restored)
            &&& forall|role: u64| after.held.contains(role) <==> roles.contains(role)
        }),
{
    lemma_gone_roles_are_passed_over(guild_id, user_id, suspended_role, roles, g);
}

/// The roles that a suspension remembers read back as they were written:
/// the ids among the decimal texts of `roles` are `roles`.
pub proof fn lemma_remembered_roles_read_back(roles: Seq<u64>)
    ensures
        role_ids(role_texts(roles)) == roles,
    decreases roles.len(),
{
    let written = role_texts(roles);
    if roles.len() == 0 {
        assert(role_ids(written) =~= roles);
    } else {
        lemma_remembered_roles_read_back(roles.drop_last());
        assert(written.drop_last() =~= role_texts(roles.drop_last()));
        let last = roles.last();
        lemma_decimal_text_reads_back(last as nat);
        let digits = decimal_text(last as nat);
        assert(written.last() == digits);
        assert(is_digit(digits[0]));
        assert(unsigned_u64(digits) == Some(last));
        assert(role_ids(written) =~= roles.drop_last().push(last));
        assert(roles.drop_last().push(last) =~= roles);
    }
}

} // verus!
