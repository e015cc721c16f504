use crate::error::DraftError;
use crate::member::{feasible, has_name, names_unique, registered, others, team_infeasible, team_size, teams_of, Member};
use crate::laws::{is_derangement, lemma_solved_is_derangement};
use crate::rng::choose_one;
use rand::rngs::StdRng;
use vstd::prelude::*;

verus! {

/// Member `j` may receive from giver `g` while `used` marks the recipients
/// already taken in the current attempt.
pub open spec fn eligible(ms: Seq<Member>, g: int, used: Seq<bool>, j: int) -> bool {
    &&& 0 <= j < ms.len()
    &&& j != g
    &&& ms[j].team != ms[g].team
    &&& !used[j]
}

/// `rec[i]` is the recipient of member `i`: nobody gives to themselves or to
/// their own team, and nobody receives twice.
pub open spec fn valid_assignment(ms: Seq<Member>, rec: Seq<usize>) -> bool {
    &&& rec.len() == ms.len()
    &&& forall|i: int|
        0 <= i < rec.len() ==> (#[trigger] rec[i]) < ms.len() && rec[i] != i && ms[rec[i] as int].team
            != ms[i].team
    &&& forall|i: int, k: int|
        0 <= i < rec.len() && 0 <= k < rec.len() && i != k ==> #[trigger] rec[i] != #[trigger] rec[k]
}

/// Every member's ticket names the member that `rec` picks for them.
pub open spec fn tickets_match(ms: Seq<Member>, rec: Seq<usize>) -> bool {
    &&& rec.len() == ms.len()
    &&& forall|i: int|
        0 <= i < ms.len() ==> ms[i].ticket is Some && ms[i].ticket->0@ == ms[(#[trigger] rec[i]) as int].name@
}

/// `p` gives the first `p.len()` participants distinct recipients, none of
/// them themselves or in their own team.
pub open spec fn partial_valid(teams: Seq<u32>, p: Seq<usize>) -> bool {
    &&& p.len() <= teams.len()
    &&& forall|i: int|
        0 <= i < p.len() ==> (#[trigger] p[i]) < teams.len() && p[i] != i && teams[p[i] as int] != teams[i]
    &&& forall|i: int, k: int| 0 <= i < p.len() && 0 <= k < p.len() && i != k ==> #[trigger] p[i] != #[trigger] p[k]
}

/// After the draws `p`, participant `j` is still free for giver `g`.
pub open spec fn free_for(teams: Seq<u32>, g: int, p: Seq<usize>, j: int) -> bool {
    &&& 0 <= j < teams.len()
    &&& j != g
    &&& teams[j] != teams[g]
    &&& !p.contains(j as usize)
}

/// Some sequence of draws leaves the next giver with nobody to draw: only
/// then can an attempt fail.
pub open spec fn can_get_stuck(teams: Seq<u32>) -> bool {
    exists|p: Seq<usize>|
        p.len() < teams.len() && partial_valid(teams, p) && forall|j: int| !#[trigger] free_for(teams, p.len() as int, p, j)
}

/// The two lists hold the same participants, in the same order.
pub open spec fn same_registry(a: Seq<Member>, b: Seq<Member>) -> bool {
    &&& a.len() == b.len()
    &&& forall|i: int|
        0 <= i < a.len() ==> (#[trigger] a[i]).name@ == b[i].name@ && a[i].team == b[i].team
}

/// One gift-exchange event: its title and date, and its participants, who
/// carry their recipients once the draft is solved.
#[derive(Debug)]
pub struct Draft {
    pub title: String,
    pub date: String,
    pub members: Vec<Member>,
}

impl Draft {
    /// The participants are named and their names are distinct.
    pub open spec fn wf(&self) -> bool {
        names_unique(self.members@)
    }

    /// Every participant holds a recipient, and the recipients form a
    /// valid assignment.
    pub open spec fn is_solved(&self) -> bool {
        exists|rec: Seq<usize>| valid_assignment(self.members@, rec) && tickets_match(self.members@, rec)
    }

    /// A draft with no participants yet.
    pub fn new(title: String, date: String) -> (d: Draft)
        ensures
            d.title@ == title@,
            d.date@ == date@,
            d.members@.len() == 0,
            d.wf(),
    {
        Draft { title, date, members: Vec::new() }
    }

    /// Whether some participant is called `name`.
    pub fn contains_name(&self, name: &String) -> (r: bool)
        ensures
            r == has_name(self.members@, name@),
    {
        let n = self.members.len();
        let mut i: usize = 0;
        while i < n
            invariant
                n == self.members@.len(),
                i <= n,
                forall|k: int| 0 <= k < i ==> (#[trigger] self.members@[k]).name@ != name@,
            decreases n - i,
        {
            if self.members[i].name == *name {
                return true;
            }
            i += 1;
        }
        false
    }

    /// Adds a participant. An empty name is invalid data; a name already
    /// present is a duplicate. Either way the draft is left unchanged.
    pub fn register(&mut self, name: String, team: u32) -> (r: Result<(), DraftError>)
        requires
            old(self).wf(),
        ensures
            final(self).wf(),
            final(self).title == old(self).title,
            final(self).date == old(self).date,
            name@.len() == 0 ==> r == Err::<(), DraftError>(DraftError::InvalidData),
            name@.len() > 0 && has_name(old(self).members@, name@) ==> r == Err::<(), DraftError>(
                DraftError::DuplicateName,
            ),
            r is Err ==> final(self).members@ == old(self).members@,
            r is Ok ==> registered(old(self).members@, final(self).members@, name@, team),
            r is Ok <==> name@.len() > 0 && !has_name(old(self).members@, name@),
    {
        if name.as_str().is_empty() {
            return Err(DraftError::InvalidData);
        }
        if self.contains_name(&name) {
            return Err(DraftError::DuplicateName);
        }
        let ghost before = self.members@;
        self.members.push(Member::new(name, team));
        assert(self.members@.drop_last() =~= before);
        Ok(())
    }

    /// Number of participants outside `team`.
    pub fn team_possibilities(&self, team: u32) -> (r: u32)
        requires
            self.members@.len() <= u32::MAX,
        ensures
            r == others(teams_of(self.members@), team),
    {
        let n = self.members.len();
        let mut count: u32 = 0;
        let mut i: usize = 0;
        while i < n
            invariant
                n == self.members@.len(),
                n <= u32::MAX,
                i <= n,
                count == others(teams_of(self.members@).subrange(0, i as int), team),
                count <= i,
            decreases n - i,
        {
            assert(teams_of(self.members@).subrange(0, i + 1).drop_last() =~= teams_of(self.members@).subrange(0, i as int));
            if self.members[i].team != team {
                count += 1;
            }
            i += 1;
        }
        assert(teams_of(self.members@).subrange(0, n as int) =~= teams_of(self.members@));
        count
    }

    /// Number of participants in `team`.
    pub fn team_len(&self, team: u32) -> (r: u32)
        requires
            self.members@.len() <= u32::MAX,
        ensures
            r == team_size(teams_of(self.members@), team),
    {
        let n = self.members.len();
        let mut count: u32 = 0;
        let mut i: usize = 0;
        while i < n
            invariant
                n == self.members@.len(),
                n <= u32::MAX,
                i <= n,
                count == team_size(teams_of(self.members@).subrange(0, i as int), team),
                count <= i,
            decreases n - i,
        {
            assert(teams_of(self.members@).subrange(0, i + 1).drop_last() =~= teams_of(self.members@).subrange(0, i as int));
            if self.members[i].team == team {
                count += 1;
            }
            i += 1;
        }
        assert(teams_of(self.members@).subrange(0, n as int) =~= teams_of(self.members@));
        count
    }

    /// Succeeds exactly when no team outnumbers the participants outside it;
    /// otherwise names such a team.
    pub fn check_feasibility(&self) -> (r: Result<(), DraftError>)
        requires
            self.members@.len() <= u32::MAX,
        ensures
            r is Ok <==> feasible(teams_of(self.members@)),
            r matches Err(e) ==> e matches DraftError::Infeasible { team } && team_infeasible(teams_of(self.members@), team) && exists|i: int| 0 <= i < self.members@.len() && (#[trigger] self.members@[i]).team == team,
    {
        let n = self.members.len();
        let mut i: usize = 0;
        while i < n
            invariant
                n == self.members@.len(),
                n <= u32::MAX,
                i <= n,
                forall|k: int| 0 <= k < i ==> !team_infeasible(teams_of(self.members@), #[trigger] self.members@[k].team),
            decreases n - i,
        {
            let team = self.members[i].team;
            if self.team_possibilities(team) < self.team_len(team) {
                assert(self.members@[i as int].team == team);
                assert(teams_of(self.members@)[i as int] == team);
                return Err(DraftError::Infeasible { team });
            }
            i += 1;
        }
        Ok(())
    }

    /// The members that `giver` may draw in an attempt where `used` marks
    /// the recipients already taken, in increasing order.
    pub fn candidates(&self, giver: usize, used: &Vec<bool>) -> (r: Vec<usize>)
        requires
            giver < self.members@.len(),
            used@.len() == self.members@.len(),
        ensures
            forall|j: usize| r@.contains(j) <==> eligible(self.members@, giver as int, used@, j as int),
            forall|a: int, b: int| 0 <= a < b < r@.len() ==> r@[a] < r@[b],
    {
        let n = self.members.len();
        let mut r: Vec<usize> = Vec::new();
        let mut j: usize = 0;
        while j < n
            invariant
                n == self.members@.len(),
                n == used@.len(),
                giver < n,
                j <= n,
                forall|k: int| 0 <= k < r@.len() ==> (#[trigger] r@[k]) < j && eligible(self.members@, giver as int, used@, r@[k] as int),
                forall|x: usize| x < j && eligible(self.members@, giver as int, used@, x as int) ==> r@.contains(x),
                forall|a: int, b: int| 0 <= a < b < r@.len() ==> r@[a] < r@[b],
            decreases n - j,
        {
            let ghost before = r@;
            if j != giver && self.members[j].team != self.members[giver].team && !used[j] {
                r.push(j);
                assert(r@[r@.len() - 1] == j);
                assert forall|x: usize| before.contains(x) implies r@.contains(x) by {
                    let k = choose|k: int| 0 <= k < before.len() && before[k] == x;
                    assert(r@[k] == x);
                }
            }
            assert forall|x: usize| x < j + 1 && eligible(self.members@, giver as int, used@, x as int) implies r@.contains(x) by {
                if x < j {
                    assert(before.contains(x));
                } else {
                    assert(r@[r@.len() - 1] == x);
                }
            }
            j += 1;
        }
        proof {
            assert forall|x: usize| r@.contains(x) implies eligible(self.members@, giver as int, used@, x as int) by {
                let k = choose|k: int| 0 <= k < r@.len() && r@[k] == x;
                assert(eligible(self.members@, giver as int, used@, r@[k] as int));
            }
        }
        r
    }

    /// Draws a recipient for `giver` among the candidates; `None` exactly
    /// when there is none.
    fn find_ticket(&self, giver: usize, used: &Vec<bool>, rng: &mut StdRng) -> (r: Option<usize>)
        requires
            giver < self.members@.len(),
            used@.len() == self.members@.len(),
        ensures
            r is None <==> !exists|j: int| eligible(self.members@, giver as int, used@, j),
            r matches Some(j) ==> eligible(self.members@, giver as int, used@, j as int),
    {
        let n = self.members.len();
        let entries = self.candidates(giver, used);
        let r = choose_one(&entries, rng);
        proof {
            if r is None {
                assert forall|j: int| !eligible(self.members@, giver as int, used@, j) by {
                    if eligible(self.members@, giver as int, used@, j) {
                        assert(j < n);
                        let ju = j as usize;
                        assert(eligible(self.members@, giver as int, used@, ju as int));
                        assert(entries@.contains(ju));
                    }
                }
            } else {
                let j = r->0;
                assert(entries@.contains(j));
                assert(eligible(self.members@, giver as int, used@, j as int));
            }
        }
        r
    }

    /// One pass of the solver: each member in turn draws a recipient among
    /// those still free. `None` when some member is left without one.
    pub fn attempt(&self, rng: &mut StdRng) -> (r: Option<Vec<usize>>)
        ensures
            r matches Some(rec) ==> valid_assignment(self.members@, rec@),
            self.members@.len() == 0 ==> r is Some,
            r is None ==> can_get_stuck(teams_of(self.members@)),
    {
        let n = self.members.len();
        let mut used: Vec<bool> = Vec::new();
        let mut k: usize = 0;
        while k < n
            invariant
                k <= n,
                used@.len() == k,
                forall|x: int| 0 <= x < k ==> !used@[x],
            decreases n - k,
        {
            used.push(false);
            k += 1;
        }
        let mut rec: Vec<usize> = Vec::new();
        while rec.len() < n
            invariant
                n == self.members@.len(),
                used@.len() == n,
                rec@.len() <= n,
                forall|i: int|
                    0 <= i < rec@.len() ==> (#[trigger] rec@[i]) < n && rec@[i] != i
                        && self.members@[rec@[i] as int].team != self.members@[i].team
                        && used@[rec@[i] as int],
                forall|i: int, k: int|
                    0 <= i < rec@.len() && 0 <= k < rec@.len() && i != k ==> #[trigger] rec@[i]
                        != #[trigger] rec@[k],
                forall|x: int| 0 <= x < n ==> #[trigger] used@[x] == rec@.contains(x as usize),
            decreases n - rec@.len(),
        {
            let giver = rec.len();
            match self.find_ticket(giver, &used, rng) {
                None => {
                    proof {
                        let teams = teams_of(self.members@);
                        let p = rec@;
                        assert(partial_valid(teams, p));
                        assert forall|j: int| !#[trigger] free_for(teams, p.len() as int, p, j) by {
                            if free_for(teams, p.len() as int, p, j) {
                                assert(used@[j] == p.contains(j as usize));
                                assert(eligible(self.members@, giver as int, used@, j));
                            }
                        }
                    }
                    return None;
                },
                Some(j) => {
                    let ghost before = rec@;
                    rec.push(j);
                    used.set(j, true);
                    assert forall|x: int| 0 <= x < n implies #[trigger] used@[x] == rec@.contains(x as usize) by {
                        if x == j {
                            assert(rec@[rec@.len() - 1] == j);
                        } else if before.contains(x as usize) {
                            let k = choose|k: int| 0 <= k < before.len() && before[k] == x as usize;
                            assert(rec@[k] == x as usize);
                        } else if rec@.contains(x as usize) {
                            let k = choose|k: int| 0 <= k < rec@.len() && rec@[k] == x as usize;
                            if k < before.len() {
                                assert(before[k] == x as usize);
                            }
                        }
                    }
                },
            }
        }
        Some(rec)
    }

    /// Writes into each member's ticket the name of the member that `rec`
    /// picks for them.
    pub fn apply_tickets(&mut self, rec: &Vec<usize>)
        requires
            valid_assignment(old(self).members@, rec@),
        ensures
            final(self).title == old(self).title,
            final(self).date == old(self).date,
            same_registry(old(self).members@, final(self).members@),
            tickets_match(final(self).members@, rec@),
            final(self).is_solved(),
            old(self).wf() ==> final(self).wf(),
    {
        let n = self.members.len();
        let mut solved: Vec<Member> = Vec::new();
        let mut i: usize = 0;
        while i < n
            invariant
                n == self.members@.len(),
                valid_assignment(self.members@, rec@),
                i <= n,
                solved@.len() == i,
                forall|k: int|
                    0 <= k < i ==> (#[trigger] solved@[k]).name@ == self.members@[k].name@
                        && solved@[k].team == self.members@[k].team && solved@[k].ticket is Some
                        && solved@[k].ticket->0@ == self.members@[rec@[k] as int].name@,
            decreases n - i,
        {
            let giver = &self.members[i];
            let recipient = &self.members[rec[i]];
            solved.push(
                Member {
                    name: giver.name.clone(),
                    team: giver.team,
                    ticket: Some(recipient.name.clone()),
                },
            );
            i += 1;
        }
        let ghost before = self.members@;
        self.members = solved;
        proof {
            assert(valid_assignment(self.members@, rec@));
            assert(tickets_match(self.members@, rec@));
            if names_unique(before) {
                assert forall|a: int, b: int|
                    0 <= a < self.members@.len() && 0 <= b < self.members@.len() && a != b implies (
                    #[trigger] self.members@[a]).name@ != (#[trigger] self.members@[b]).name@ by {
                    assert(before[a].name@ != before[b].name@);
                }
            }
        }
    }

    /// Checks feasibility, then runs up to `max_attempts` attempts and
    /// keeps the first that succeeds. On any error the draft is unchanged.
    ///
    /// Each attempt is greedy: earlier draws narrow the later candidates, so
    /// the result is always valid but not drawn uniformly among all valid
    /// assignments.
    pub fn calculate_tickets(&mut self, rng: &mut StdRng, max_attempts: u32) -> (r: Result<(), DraftError>)
        requires
            old(self).wf(),
            old(self).members@.len() <= u32::MAX,
        ensures
            final(self).wf(),
            final(self).title == old(self).title,
            final(self).date == old(self).date,
            same_registry(old(self).members@, final(self).members@),
            r is Ok ==> final(self).is_solved(),
            r is Ok ==> is_derangement(final(self).members@),
            r is Err ==> final(self).members@ == old(self).members@,
            (r matches Err(DraftError::Infeasible { .. })) <==> !feasible(teams_of(old(self).members@)),
            r matches Err(DraftError::Infeasible { team }) ==> team_infeasible(teams_of(old(self).members@), team)
                && exists|i: int|
                0 <= i < old(self).members@.len() && (#[trigger] old(self).members@[i]).team == team,
            r matches Err(e) ==> e is Infeasible || e is SolveExhausted,
            max_attempts == 0 && feasible(teams_of(old(self).members@)) ==> r == Err::<(), DraftError>(
                DraftError::SolveExhausted,
            ),
            max_attempts > 0 && old(self).members@.len() == 0 ==> r is Ok,
            r == Err::<(), DraftError>(DraftError::SolveExhausted) ==> max_attempts == 0 || can_get_stuck(
                teams_of(old(self).members@),
            ),
    {
        match self.check_feasibility() {
            Err(e) => {
                return Err(e);
            },
            Ok(()) => {},
        }
        let mut tries: u32 = 0;
        while tries < max_attempts
            invariant
                *self == *old(self),
                self.wf(),
                feasible(teams_of(self.members@)),
                self.members@.len() == 0 ==> tries == 0,
                tries > 0 ==> can_get_stuck(teams_of(self.members@)),
            decreases max_attempts - tries,
        {
            match self.attempt(rng) {
                Some(rec) => {
                    self.apply_tickets(&rec);
                    proof {
                        lemma_solved_is_derangement(*self);
                    }
                    return Ok(());
                },
                None => {},
            }
            tries += 1;
        }
        Err(DraftError::SolveExhausted)
    }

    /// The recipient of the first participant called `name`, if there is one
    /// and it holds a ticket.
    pub fn lookup_recipient(&self, name: &String) -> (r: Option<String>)
        ensures
            (forall|i: int| 0 <= i < self.members@.len() ==> (#[trigger] self.members@[i]).name@ != name@)
                ==> r is None,
            forall|i: int|
                0 <= i < self.members@.len() && (#[trigger] self.members@[i]).name@ == name@ && (self.wf()
                    || forall|k: int| 0 <= k < i ==> self.members@[k].name@ != name@) ==> {
                    &&& (r is Some <==> self.members@[i].ticket is Some)
                    &&& r matches Some(t) ==> t@ == self.members@[i].ticket->0@
                },
    {
        let n = self.members.len();
        let mut i: usize = 0;
        while i < n
            invariant
                n == self.members@.len(),
                i <= n,
                forall|k: int| 0 <= k < i ==> (#[trigger] self.members@[k]).name@ != name@,
            decreases n - i,
        {
            if self.members[i].name == *name {
                return match &self.members[i].ticket {
                    Some(t) => Some(t.clone()),
                    None => None,
                };
            }
            i += 1;
        }
        None
    }
}

} // verus!
