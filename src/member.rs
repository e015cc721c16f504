use vstd::prelude::*;

verus! {

/// A participant: a name, a team tag, and, once the draft is solved, the
/// name of the participant they give to.
#[derive(Debug)]
pub struct Member {
    pub name: String,
    pub team: u32,
    pub ticket: Option<String>,
}

impl Member {
    /// A participant that has no recipient yet.
    pub fn new(name: String, team: u32) -> (m: Member)
        ensures
            m.name@ == name@,
            m.team == team,
            m.ticket is None,
    {
        Member { name, team, ticket: None }
    }
}

/// Some member is called `name`.
pub open spec fn has_name(ms: Seq<Member>, name: Seq<char>) -> bool {
    exists|i: int| 0 <= i < ms.len() && (#[trigger] ms[i]).name@ == name
}

/// `after` is `before` with one more member, called `name`, in team `team`,
/// who holds no ticket yet.
pub open spec fn registered(before: Seq<Member>, after: Seq<Member>, name: Seq<char>, team: u32) -> bool {
    &&& after.len() == before.len() + 1
    &&& after.drop_last() == before
    &&& after.last().name@ == name
    &&& after.last().team == team
    &&& after.last().ticket is None
}

/// The team tags of the members, in order.
pub open spec fn teams_of(ms: Seq<Member>) -> Seq<u32> {
    ms.map_values(|m: Member| m.team)
}

/// Number of tags equal to `t`: the size of team `t`.
pub open spec fn team_size(teams: Seq<u32>, t: u32) -> nat
    decreases teams.len(),
{
    if teams.len() == 0 {
        0
    } else {
        team_size(teams.drop_last(), t) + if teams.last() == t { 1nat } else { 0nat }
    }
}

/// Number of tags other than `t`: the participants who may give to, or
/// receive from, a member of team `t`.
pub open spec fn others(teams: Seq<u32>, t: u32) -> nat
    decreases teams.len(),
{
    if teams.len() == 0 {
        0
    } else {
        others(teams.drop_last(), t) + if teams.last() != t { 1nat } else { 0nat }
    }
}

/// Team `t` has more members than there are participants outside it.
pub open spec fn team_infeasible(teams: Seq<u32>, t: u32) -> bool {
    team_size(teams, t) > others(teams, t)
}

/// No team present among the tags outnumbers the rest.
pub open spec fn feasible(teams: Seq<u32>) -> bool {
    forall|i: int| 0 <= i < teams.len() ==> !team_infeasible(teams, #[trigger] teams[i])
}

/// Every member is named, and no two members share a name.
pub open spec fn names_unique(ms: Seq<Member>) -> bool {
    &&& forall|i: int| 0 <= i < ms.len() ==> (#[trigger] ms[i]).name@.len() > 0
    &&& forall|i: int, j: int|
        0 <= i < ms.len() && 0 <= j < ms.len() && i != j ==> (#[trigger] ms[i]).name@
            != (#[trigger] ms[j]).name@
}

/// The members in and outside a team together make up the whole registry.
pub proof fn lemma_size_plus_others(teams: Seq<u32>, t: u32)
    ensures
        team_size(teams, t) + others(teams, t) == teams.len(),
    decreases teams.len(),
{
    if teams.len() > 0 {
        lemma_size_plus_others(teams.drop_last(), t);
    }
}

} // verus!
