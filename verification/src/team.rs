//! Who runs the bot: its owner, or the owner and the administrators of the
//! team that owns it.

use vstd::prelude::*;

verus! {

/// One member of the team that owns the bot.
#[derive(Debug)]
pub struct TeamMember {
    pub user: u64,
    /// Whether the member administers the team.
    pub admin: bool,
}

/// The team that owns the bot.
#[derive(Debug)]
pub struct Team {
    pub owner_user_id: u64,
    pub members: Vec<TeamMember>,
}

/// Whether `user` administers the team `team`.
pub open spec fn administers(team: &Team, user: u64) -> bool {
    exists|i: int| 0 <= i < team.members.len() && (#[trigger] team.members[i]).user == user
        && team.members[i].admin
}

/// Whether `user` runs the bot that `owner` or `team` owns.
pub open spec fn runs_bot(owner: Option<u64>, team: Option<&Team>, user: u64) -> bool {
    owner == Some(user) || match team {
        Some(t) => t.owner_user_id == user || administers(t, user),
        None => false,
    }
}

/// Whether `potential_owner` owns the bot, owns the team that owns it, or
/// administers that team.
pub fn is_bot_team_admin_or_owner(owner: Option<u64>, team: Option<&Team>, potential_owner: u64) -> (r:
    bool)
    ensures
        r == runs_bot(owner, team, potential_owner),
{
    match owner {
        Some(user) => {
            if user == potential_owner {
                return true;
            }
        },
        None => {},
    }
    match team {
        Some(t) => {
            if t.owner_user_id == potential_owner {
                return true;
            }
            let mut i: usize = 0;
            while i < t.members.len()
                invariant
                    i <= t.members.len(),
                    team == Some(t),
                    owner != Some(potential_owner),
                    t.owner_user_id != potential_owner,
                    forall|j: int|
                        0 <= j < i ==> !((#[trigger] t.members[j]).user == potential_owner
                            && t.members[j].admin),
                decreases t.members.len() - i,
            {
                if t.members[i].user == potential_owner && t.members[i].admin {
                    proof {
                        assert(t.members[i as int].user == potential_owner);
                    }
                    return true;
                }
                i += 1;
            }
            false
        },
        None => false,
    }
}

} // verus!
