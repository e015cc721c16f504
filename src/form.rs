use crate::draft::{can_get_stuck, Draft};
use crate::error::DraftError;
use crate::laws::is_derangement;
use crate::member::{feasible, team_infeasible, teams_of, Member};
use rand::rngs::StdRng;
use vstd::prelude::*;

verus! {

/// `c` is one of the ASCII digits `0` to `9`.
pub open spec fn is_digit(c: char) -> bool {
    '0' <= c && c <= '9'
}

/// The number that a string of decimal digits writes.
pub open spec fn digits_value(s: Seq<char>) -> nat
    decreases s.len(),
{
    if s.len() == 0 {
        0
    } else {
        digits_value(s.drop_last()) * 10 + ((s.last() as u32) - ('0' as u32)) as nat
    }
}

/// A team tag in base ten: an optional `+`, then one or more digits whose
/// value fits in a `u32`.
pub open spec fn decimal_u32(s: Seq<char>) -> Option<u32> {
    let d = if s.len() > 0 && s[0] == '+' {
        s.drop_first()
    } else {
        s
    };
    if d.len() > 0 && (forall|i: int| 0 <= i < d.len() ==> is_digit(#[trigger] d[i])) && digits_value(d)
        <= u32::MAX {
        Some(digits_value(d) as u32)
    } else {
        None
    }
}

/// Relies on std's `u32::from_str_radix` in base 10: it accepts an optional
/// `+` followed by decimal digits whose value fits in a `u32`, and refuses
/// anything else (an empty string, a lone sign, any other character, an
/// overflow).
#[verifier::external_body]
fn parse_team(s: &String) -> (r: Option<u32>)
    ensures
        r == decimal_u32(s@),
{
    u32::from_str_radix(s.as_str(), 10).ok()
}

/// What the fields read so far have set: the title, the date, a name that
/// waits for its team, and the participants as (name, team) pairs.
pub struct FormState {
    pub title: Seq<char>,
    pub date: Seq<char>,
    pub pending: Option<Seq<char>>,
    pub roster: Seq<(Seq<char>, u32)>,
}

/// The participants as (name, team) pairs.
pub open spec fn roster_of(ms: Seq<Member>) -> Seq<(Seq<char>, u32)> {
    ms.map_values(|m: Member| (m.name@, m.team))
}

/// The team tags of a roster, in order.
pub open spec fn roster_teams(roster: Seq<(Seq<char>, u32)>) -> Seq<u32> {
    roster.map_values(|p: (Seq<char>, u32)| p.1)
}

/// The state before any field.
pub open spec fn form_start() -> FormState {
    FormState { title: Seq::empty(), date: Seq::empty(), pending: None, roster: Seq::empty() }
}

/// Reads one field. Every value must be non-empty. `title` and `date` set
/// those; `name` starts a participant, whose `team` must follow; any other
/// key is invalid.
pub open spec fn form_step(s: FormState, key: Seq<char>, value: Seq<char>) -> Result<FormState, DraftError> {
    if value.len() == 0 {
        Err(DraftError::InvalidData)
    } else if key == "title"@ {
        Ok(FormState { title: value, date: s.date, pending: s.pending, roster: s.roster })
    } else if key == "date"@ {
        Ok(FormState { title: s.title, date: value, pending: s.pending, roster: s.roster })
    } else if key == "name"@ {
        Ok(FormState { title: s.title, date: s.date, pending: Some(value), roster: s.roster })
    } else if key == "team"@ {
        match s.pending {
            None => Err(DraftError::InvalidData),
            Some(n) => match decimal_u32(value) {
                None => Err(DraftError::InvalidData),
                Some(t) => if exists|k: int| 0 <= k < s.roster.len() && (#[trigger] s.roster[k]).0 == n {
                    Err(DraftError::DuplicateName)
                } else {
                    Ok(FormState { title: s.title, date: s.date, pending: None, roster: s.roster.push((n, t)) })
                },
            },
        }
    } else {
        Err(DraftError::InvalidData)
    }
}

/// Reads the fields in order; the first field that fails decides the error.
pub open spec fn read_form(fields: Seq<(Seq<char>, Seq<char>)>) -> Result<FormState, DraftError>
    decreases fields.len(),
{
    if fields.len() == 0 {
        Ok(form_start())
    } else {
        match read_form(fields.drop_last()) {
            Err(e) => Err(e),
            Ok(s) => form_step(s, fields.last().0, fields.last().1),
        }
    }
}

/// The fields as pairs of character sequences.
pub open spec fn fields_view(fields: Seq<(String, String)>) -> Seq<(Seq<char>, Seq<char>)> {
    fields.map_values(|f: (String, String)| (f.0@, f.1@))
}

/// A form read without error is complete when it has a title and a date
/// and no name waits for its team.
pub open spec fn form_complete(s: FormState) -> bool {
    s.title.len() > 0 && s.date.len() > 0 && s.pending is None
}

/// What solving a complete form may give: a solved draft with its title,
/// date and participants, an infeasible team exactly when one outnumbers
/// the rest, or exhaustion of the attempts, which needs an attempt allowed
/// to fail.
pub open spec fn solved_from(s: FormState, max_attempts: u32, r: Result<Draft, DraftError>) -> bool {
    &&& r matches Ok(d) ==> {
        &&& d.title@ == s.title
        &&& d.date@ == s.date
        &&& roster_of(d.members@) == s.roster
        &&& d.wf()
        &&& d.is_solved()
        &&& is_derangement(d.members@)
    }
    &&& (r matches Err(DraftError::Infeasible { .. })) <==> !feasible(roster_teams(s.roster))
    &&& r matches Err(DraftError::Infeasible { team }) ==> team_infeasible(roster_teams(s.roster), team)
    &&& r matches Err(e) ==> e is Infeasible || e is SolveExhausted
    &&& r == Err::<Draft, DraftError>(DraftError::SolveExhausted) ==> max_attempts == 0 || can_get_stuck(
        roster_teams(s.roster),
    )
}

/// Once a prefix of the fields fails, the whole form fails the same way.
proof fn lemma_error_stays(fields: Seq<(Seq<char>, Seq<char>)>, i: int)
    requires
        0 <= i <= fields.len(),
        read_form(fields.take(i)) is Err,
    ensures
        read_form(fields) == read_form(fields.take(i)),
    decreases fields.len(),
{
    if i < fields.len() {
        assert(fields.drop_last().take(i) =~= fields.take(i));
        lemma_error_stays(fields.drop_last(), i);
    } else {
        assert(fields.take(i) =~= fields);
    }
}

/// Whether the field's key is `word`.
fn key_is(key: &String, word: &str) -> (r: bool)
    ensures
        r == (key@ == word@),
{
    let w = String::from_str(word);
    *key == w
}

impl Draft {
    /// Builds a draft from submitted (key, value) fields and solves it with
    /// at most `max_attempts` attempts.
    pub fn from_fields(fields: &Vec<(String, String)>, rng: &mut StdRng, max_attempts: u32) -> (r: Result<Draft, DraftError>)
        requires
            fields@.len() <= u32::MAX,
        ensures
            match read_form(fields_view(fields@)) {
                Err(e) => r == Err::<Draft, DraftError>(e),
                Ok(s) => if form_complete(s) {
                    solved_from(s, max_attempts, r)
                } else {
                    r == Err::<Draft, DraftError>(DraftError::InvalidData)
                },
            },
    {
        let mut draft = Draft::new(String::new(), String::new());
        let mut pending: Option<String> = None;
        let n = fields.len();
        let mut i: usize = 0;
        while i < n
            invariant
                n == fields@.len(),
                n <= u32::MAX,
                i <= n,
                draft.wf(),
                draft.members@.len() <= i,
                forall|k: int| 0 <= k < draft.members@.len() ==> (#[trigger] draft.members@[k]).ticket is None,
                read_form(fields_view(fields@).take(i as int)) matches Ok(s) && s.title == draft.title@
                    && s.date == draft.date@ && roster_of(draft.members@) == s.roster && (match pending {
                    Some(p) => s.pending == Some(p@) && p@.len() > 0,
                    None => s.pending is None,
                }),
            decreases n - i,
        {
            let ghost prefix = fields_view(fields@).take(i as int);
            assert(fields_view(fields@).take(i + 1).drop_last() =~= prefix);
            let key = &fields[i].0;
            let value = &fields[i].1;
            let ghost fv = fields_view(fields@);
            assert(fv.take(i + 1).last() == (key@, value@));
            let ghost state = read_form(prefix)->Ok_0;
            assert(read_form(fv.take(i + 1)) == form_step(state, key@, value@));
            if value.as_str().is_empty() {
                proof {
                    lemma_error_stays(fv, i + 1);
                }
                return Err(DraftError::InvalidData);
            }
            if key_is(key, "title") {
                draft.title = value.clone();
            } else if key_is(key, "date") {
                draft.date = value.clone();
            } else if key_is(key, "name") {
                pending = Some(value.clone());
            } else if key_is(key, "team") {
                let name = match pending {
                    None => {
                        proof {
                            lemma_error_stays(fv, i + 1);
                        }
                        return Err(DraftError::InvalidData);
                    },
                    Some(p) => p,
                };
                let team = match parse_team(value) {
                    None => {
                        proof {
                            lemma_error_stays(fv, i + 1);
                        }
                        return Err(DraftError::InvalidData);
                    },
                    Some(t) => t,
                };
                let ghost before = draft.members@;
                let ghost nm = name@;
                assert(forall|k: int| 0 <= k < before.len() ==> roster_of(before)[k].0 == (#[trigger] before[k]).name@);
                match draft.register(name, team) {
                    Err(e) => {
                        proof {
                            if exists|k: int| 0 <= k < before.len() && (#[trigger] before[k]).name@ == nm {
                                let k = choose|k: int| 0 <= k < before.len() && (#[trigger] before[k]).name@ == nm;
                                assert(state.roster[k].0 == nm);
                            }
                            lemma_error_stays(fv, i + 1);
                        }
                        return Err(e);
                    },
                    Ok(()) => {},
                }
                assert(roster_of(draft.members@) =~= roster_of(before).push((nm, team)));
                pending = None;
            } else {
                proof {
                    lemma_error_stays(fv, i + 1);
                }
                return Err(DraftError::InvalidData);
            }
            i += 1;
        }
        assert(fields_view(fields@).take(n as int) =~= fields_view(fields@));
        if draft.title.as_str().is_empty() || draft.date.as_str().is_empty() || pending.is_some() {
            return Err(DraftError::InvalidData);
        }
        let ghost s = read_form(fields_view(fields@))->Ok_0;
        assert(teams_of(draft.members@) =~= roster_teams(s.roster));
        let ghost before = draft.members@;
        let r = draft.calculate_tickets(rng, max_attempts);
        assert(roster_of(draft.members@) =~= roster_of(before));
        match r {
            Ok(()) => Ok(draft),
            Err(e) => Err(e),
        }
    }
}

} // verus!
