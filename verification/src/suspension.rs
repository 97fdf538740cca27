//! The suspension record.

use vstd::prelude::*;

verus! {

/// One suspension of one member of one guild.
///
/// Once it is in the table, nothing about a record changes but `active`,
/// which goes from `true` to `false` once and stays there.
#[derive(Debug, PartialEq, Eq)]
pub struct Suspension {
    /// Identity, given by the table.
    pub id: i64,
    pub guild_id: i64,
    /// The suspended member.
    pub user_id: i64,
    /// The moderator who suspended.
    pub moderator_id: i64,
    /// The ids of the roles that the member held just before, as text.
    pub previous_roles: Vec<String>,
    /// When the suspension began, in seconds since the epoch, UTC.
    pub from_timestamp: i64,
    /// When it ends, in seconds since the epoch, UTC.
    pub until_timestamp: i64,
    pub reason: Option<String>,
    /// Whether the restriction is in force.
    pub active: bool,
}

/// A suspension as a mathematical value.
pub struct SuspensionView {
    pub id: int,
    pub guild_id: int,
    pub user_id: int,
    pub moderator_id: int,
    pub previous_roles: Seq<Seq<char>>,
    pub from_timestamp: int,
    pub until_timestamp: int,
    pub reason: Option<Seq<char>>,
    pub active: bool,
}

/// The texts of `strings`, each as a sequence of characters.
pub open spec fn texts(strings: Seq<String>) -> Seq<Seq<char>> {
    strings.map_values(|s: String| s@)
}

/// The text of `string`, if there is one.
pub open spec fn optional_text(string: Option<String>) -> Option<Seq<char>> {
    match string {
        Some(s) => Some(s@),
        None => None,
    }
}

/// The records of `suspensions` as mathematical values.
pub open spec fn views(suspensions: Seq<Suspension>) -> Seq<SuspensionView> {
    suspensions.map_values(|s: Suspension| s@)
}

impl View for Suspension {
    type V = SuspensionView;

    open spec fn view(&self) -> SuspensionView {
        SuspensionView {
            id: self.id as int,
            guild_id: self.guild_id as int,
            user_id: self.user_id as int,
            moderator_id: self.moderator_id as int,
            previous_roles: texts(self.previous_roles@),
            from_timestamp: self.from_timestamp as int,
            until_timestamp: self.until_timestamp as int,
            reason: optional_text(self.reason),
            active: self.active,
        }
    }
}

/// A copy of `strings`.
pub fn copy_strings(strings: &Vec<String>) -> (copy: Vec<String>)
    ensures
        copy@ == strings@,
{
    let mut copy: Vec<String> = Vec::new();
    let mut i: usize = 0;
    while i < strings.len()
        invariant
            i <= strings.len(),
            copy@ == strings@.take(i as int),
        decreases strings.len() - i,
    {
        copy.push(strings[i].clone());
        assert(copy@ =~= strings@.take(i + 1));
        i += 1;
    }
    assert(strings@.take(strings.len() as int) =~= strings@);
    copy
}

/// A copy of `string`.
pub fn copy_optional_string(string: &Option<String>) -> (copy: Option<String>)
    ensures
        copy == *string,
{
    match string {
        Some(s) => Some(s.clone()),
        None => None,
    }
}

impl Clone for Suspension {
    fn clone(&self) -> (copy: Suspension)
        ensures
            copy@ == self@,
    {
        Suspension {
            id: self.id,
            guild_id: self.guild_id,
            user_id: self.user_id,
            moderator_id: self.moderator_id,
            previous_roles: copy_strings(&self.previous_roles),
            from_timestamp: self.from_timestamp,
            until_timestamp: self.until_timestamp,
            reason: copy_optional_string(&self.reason),
            active: self.active,
        }
    }
}

impl Suspension {
    /// This record with the restriction lifted.
    pub fn closed(&self) -> (copy: Suspension)
        ensures
            copy@ == deactivated(self@),
    {
        let mut copy = self.clone();
        copy.active = false;
        copy
    }
}

/// The record `r` with the restriction lifted, all else as it was.
pub open spec fn deactivated(r: SuspensionView) -> SuspensionView {
    SuspensionView { active: false, ..r }
}

/// Whether `r` is in force and its time is up at `now`: the restriction is
/// to be lifted.
pub open spec fn is_due(r: SuspensionView, now: int) -> bool {
    r.active && r.until_timestamp <= now
}

/// Whether `r` is in force and its time is not up at `now`.
pub open spec fn is_current(r: SuspensionView, now: int) -> bool {
    r.active && r.until_timestamp > now
}

/// Whether `r` is about member `user_id` of guild `guild_id`.
pub open spec fn concerns(r: SuspensionView, guild_id: int, user_id: int) -> bool {
    r.guild_id == guild_id && r.user_id == user_id
}

} // verus!
