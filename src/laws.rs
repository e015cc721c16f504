use crate::draft::{tickets_match, valid_assignment, Draft};
use crate::member::{feasible, has_name, lemma_size_plus_others, names_unique, registered, teams_of, others, team_infeasible, team_size, Member};
use vstd::prelude::*;
use vstd::relations::injective_on;
use vstd::set_lib::{lemma_int_range, lemma_len_subset, lemma_map_size, lemma_subset_equality, set_int_range};

verus! {

/// The ticket of member `i` names a member of another team.
pub open spec fn gives_outside_team(ms: Seq<Member>, i: int) -> bool {
    exists|j: int| 0 <= j < ms.len() && ms[j].name@ == ms[i].ticket->0@ && ms[j].team != ms[i].team
}

/// Some member's ticket names member `j`.
pub open spec fn receives(ms: Seq<Member>, j: int) -> bool {
    exists|i: int| 0 <= i < ms.len() && ms[i].ticket->0@ == ms[j].name@
}

/// Every participant holds a ticket naming someone else outside their team,
/// no two tickets are the same, and every participant's name is on a ticket:
/// the tickets form a bijection over the names without fixed points.
pub open spec fn is_derangement(ms: Seq<Member>) -> bool {
    &&& forall|i: int|
        0 <= i < ms.len() ==> (#[trigger] ms[i]).ticket is Some && ms[i].ticket->0@ != ms[i].name@
    &&& forall|i: int| 0 <= i < ms.len() ==> #[trigger] gives_outside_team(ms, i)
    &&& forall|i: int, k: int|
        0 <= i < ms.len() && 0 <= k < ms.len() && i != k ==> (#[trigger] ms[i]).ticket->0@
            != (#[trigger] ms[k]).ticket->0@
    &&& forall|j: int| 0 <= j < ms.len() ==> #[trigger] receives(ms, j)
}

/// In a solved draft every participant gives to exactly one other
/// participant, never to themselves nor to their own team, and every
/// participant receives from exactly one giver.
pub proof fn lemma_solved_is_derangement(d: Draft)
    requires
        d.wf(),
        d.is_solved(),
    ensures
        is_derangement(d.members@),
{
    let ms = d.members@;
    let rec = choose|rec: Seq<usize>| valid_assignment(ms, rec) && tickets_match(ms, rec);
    lemma_no_self_no_team(ms, rec);
    lemma_tickets_distinct(ms, rec);
    lemma_everyone_receives(ms, rec);
}

/// Nobody holds their own name or a teammate's.
proof fn lemma_no_self_no_team(ms: Seq<Member>, rec: Seq<usize>)
    requires
        names_unique(ms),
        valid_assignment(ms, rec),
        tickets_match(ms, rec),
    ensures
        forall|i: int|
            0 <= i < ms.len() ==> (#[trigger] ms[i]).ticket is Some && ms[i].ticket->0@ != ms[i].name@,
        forall|i: int| 0 <= i < ms.len() ==> #[trigger] gives_outside_team(ms, i),
{
    assert forall|i: int| 0 <= i < ms.len() implies (#[trigger] ms[i]).ticket is Some && ms[i].ticket->0@
        != ms[i].name@ by {
        let j = rec[i] as int;
        assert(j != i);
        assert(ms[j].name@ != ms[i].name@);
    }
    assert forall|i: int| 0 <= i < ms.len() implies #[trigger] gives_outside_team(ms, i) by {
        let j = rec[i] as int;
        assert(ms[j].name@ == ms[i].ticket->0@);
    }
}

/// No two participants hold the same recipient.
proof fn lemma_tickets_distinct(ms: Seq<Member>, rec: Seq<usize>)
    requires
        names_unique(ms),
        valid_assignment(ms, rec),
        tickets_match(ms, rec),
    ensures
        forall|i: int, k: int|
            0 <= i < ms.len() && 0 <= k < ms.len() && i != k ==> (#[trigger] ms[i]).ticket->0@
                != (#[trigger] ms[k]).ticket->0@,
{
    assert forall|i: int, k: int| 0 <= i < ms.len() && 0 <= k < ms.len() && i != k implies (
    #[trigger] ms[i]).ticket->0@ != (#[trigger] ms[k]).ticket->0@ by {
        let a = rec[i] as int;
        let b = rec[k] as int;
        assert(a != b);
        assert(ms[a].name@ != ms[b].name@);
    }
}

/// Every participant's name is some participant's ticket.
proof fn lemma_everyone_receives(ms: Seq<Member>, rec: Seq<usize>)
    requires
        valid_assignment(ms, rec),
        tickets_match(ms, rec),
    ensures
        forall|j: int| 0 <= j < ms.len() ==> #[trigger] receives(ms, j),
{
    lemma_injective_is_onto(rec);
    assert forall|j: int| 0 <= j < ms.len() implies #[trigger] receives(ms, j) by {
        assert(hit(rec, j));
        let i = choose|i: int| 0 <= i < rec.len() && rec[i] == j;
        assert(ms[i].ticket->0@ == ms[j].name@);
    }
}

/// Some index maps to `j`.
spec fn hit(rec: Seq<usize>, j: int) -> bool {
    exists|i: int| 0 <= i < rec.len() && rec[i] == j
}

/// An injective map from `0..n` into `0..n` reaches every index.
proof fn lemma_injective_is_onto(rec: Seq<usize>)
    requires
        forall|i: int| 0 <= i < rec.len() ==> (#[trigger] rec[i]) < rec.len(),
        forall|i: int, k: int| 0 <= i < rec.len() && 0 <= k < rec.len() && i != k ==> #[trigger] rec[i] != #[trigger] rec[k],
    ensures
        forall|j: int| 0 <= j < rec.len() ==> #[trigger] hit(rec, j),
{
    let n = rec.len();
    let ri = Seq::new(n, |i: int| rec[i] as int);
    assert(ri.no_duplicates()) by {
        assert forall|a: int, b: int| 0 <= a < ri.len() && 0 <= b < ri.len() && a != b implies ri[a] != ri[b] by {
            assert(rec[a] != rec[b]);
        }
    }
    ri.unique_seq_to_set();
    lemma_int_range(0, n as int);
    assert(ri.to_set().subset_of(set_int_range(0, n as int))) by {
        assert forall|x: int| ri.to_set().contains(x) implies set_int_range(0, n as int).contains(x) by {
            let i = choose|i: int| 0 <= i < ri.len() && ri[i] == x;
            assert(rec[i] < n);
        }
    }
    lemma_subset_equality(ri.to_set(), set_int_range(0, n as int));
    assert forall|j: int| 0 <= j < n implies #[trigger] hit(rec, j) by {
        assert(set_int_range(0, n as int).contains(j));
        assert(ri.to_set().contains(j));
        let i = choose|i: int| 0 <= i < ri.len() && ri[i] == j;
        assert(rec[i] == j);
    }
}

/// A name that was just registered is present, so registering it again is
/// refused as a duplicate.
pub proof fn lemma_registered_name_present(before: Draft, after: Draft, name: Seq<char>, team: u32)
    requires
        registered(before.members@, after.members@, name, team),
    ensures
        has_name(after.members@, name),
{
    let last = after.members@.len() - 1;
    assert(after.members@[last].name@ == name);
}

/// The positions whose tag is `t` when `inside`, or is not `t` otherwise.
spec fn tagged(teams: Seq<u32>, t: u32, inside: bool) -> Set<int> {
    Set::new(|i: int| 0 <= i < teams.len() && (teams[i] == t) == inside)
}

/// The positions in and outside a team are as many as the counts say.
proof fn lemma_tagged_len(teams: Seq<u32>, t: u32)
    ensures
        tagged(teams, t, true).finite(),
        tagged(teams, t, true).len() == team_size(teams, t),
        tagged(teams, t, false).finite(),
        tagged(teams, t, false).len() == others(teams, t),
    decreases teams.len(),
{
    if teams.len() == 0 {
        assert(tagged(teams, t, true) =~= Set::empty());
        assert(tagged(teams, t, false) =~= Set::empty());
    } else {
        let p = teams.drop_last();
        let last = teams.len() - 1;
        lemma_tagged_len(p, t);
        if teams.last() == t {
            assert(tagged(teams, t, true) =~= tagged(p, t, true).insert(last));
            assert(tagged(teams, t, false) =~= tagged(p, t, false));
        } else {
            assert(tagged(teams, t, true) =~= tagged(p, t, true));
            assert(tagged(teams, t, false) =~= tagged(p, t, false).insert(last));
        }
    }
}

/// A team that outnumbers the rest rules out every assignment: its members
/// would need as many distinct recipients outside the team, and there are
/// too few. So a registry refused as infeasible has no valid assignment.
pub proof fn lemma_infeasible_has_no_assignment(d: Draft, rec: Seq<usize>)
    requires
        !feasible(teams_of(d.members@)),
    ensures
        !valid_assignment(d.members@, rec),
{
    let ms = d.members@;
    let teams = teams_of(ms);
    if valid_assignment(ms, rec) {
        let i = choose|i: int| 0 <= i < teams.len() && team_infeasible(teams, #[trigger] teams[i]);
        let t = teams[i];
        lemma_tagged_len(teams, t);
        let inside = tagged(teams, t, true);
        let outside = tagged(teams, t, false);
        let f = |k: int| rec[k] as int;
        assert(injective_on(f, inside)) by {
            assert forall|x1: int, x2: int|
                inside.contains(x1) && inside.contains(x2) && #[trigger] f(x1) == #[trigger] f(x2) implies x1 == x2 by {
                if x1 != x2 {
                    assert(rec[x1] != rec[x2]);
                }
            }
        }
        lemma_map_size(inside, inside.map(f), f);
        assert(inside.map(f).subset_of(outside)) by {
            assert forall|y: int| inside.map(f).contains(y) implies outside.contains(y) by {
                let x = choose|x: int| inside.contains(x) && f(x) == y;
                assert(rec[x] < ms.len() && ms[rec[x] as int].team != ms[x].team);
            }
        }
        lemma_len_subset(inside.map(f), outside);
    }
}

/// When everybody shares one team, no assignment is possible.
pub proof fn lemma_single_team_infeasible(teams: Seq<u32>, t: u32)
    requires
        teams.len() > 0,
        forall|i: int| 0 <= i < teams.len() ==> teams[i] == t,
    ensures
        team_infeasible(teams, t),
        !feasible(teams),
    decreases teams.len(),
{
    if teams.len() > 1 {
        lemma_single_team_infeasible(teams.drop_last(), t);
    }
    lemma_size_plus_others(teams, t);
    assert(team_size(teams, t) > others(teams, t));
    assert(!team_infeasible(teams, teams[0]) ==> false);
}

} // verus!
