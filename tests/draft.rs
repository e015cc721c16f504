use rand::rngs::StdRng;
use rand::Rng;
use rand::SeedableRng;
use secret_santa::draft::Draft;
use secret_santa::error::DraftError;
use secret_santa::member::Member;
use secret_santa::store::DraftStore;

fn fields(pairs: &[(&str, &str)]) -> Vec<(String, String)> {
    pairs.iter().map(|(k, v)| (k.to_string(), v.to_string())).collect()
}

fn form(title: &str, date: &str, members: &[(&str, u32)]) -> Vec<(String, String)> {
    let mut f = vec![("title".to_string(), title.to_string()), ("date".to_string(), date.to_string())];
    for (name, team) in members {
        f.push(("name".to_string(), name.to_string()));
        f.push(("team".to_string(), team.to_string()));
    }
    f
}

fn registry(members: &[(&str, u32)]) -> Draft {
    let mut d = Draft::new("Party".to_string(), "2024-12-24".to_string());
    for (name, team) in members {
        d.register(name.to_string(), *team).unwrap();
    }
    d
}

fn recipient(d: &Draft, name: &str) -> String {
    d.lookup_recipient(&name.to_string()).unwrap()
}

fn team_of(d: &Draft, name: &str) -> u32 {
    d.members.iter().find(|m| m.name == name).unwrap().team
}

/// Every member gives to exactly one other member outside their team, and
/// everyone receives exactly once.
fn assert_valid(d: &Draft) {
    let mut received: Vec<String> = Vec::new();
    for m in &d.members {
        let t = m.ticket.clone().expect("every member holds a ticket");
        assert_ne!(t, m.name);
        assert_ne!(team_of(d, &t), m.team);
        received.push(t);
    }
    received.sort();
    let mut names: Vec<String> = d.members.iter().map(|m| m.name.clone()).collect();
    names.sort();
    assert_eq!(received, names);
}

#[test]
fn two_teams_of_two_route_across() {
    for seed in 0..50 {
        let mut rng = StdRng::seed_from_u64(seed);
        let d = Draft::from_fields(
            &form("Party", "2024-12-24", &[("A", 1), ("B", 1), ("C", 2), ("D", 2)]),
            &mut rng,
            1000,
        )
        .unwrap();
        assert_valid(&d);
        for giver in ["A", "B"] {
            let r = recipient(&d, giver);
            assert!(r == "C" || r == "D");
        }
        for giver in ["C", "D"] {
            let r = recipient(&d, giver);
            assert!(r == "A" || r == "B");
        }
        assert_ne!(recipient(&d, "A"), "B");
        assert_ne!(recipient(&d, "B"), "A");
    }
}

#[test]
fn single_team_is_infeasible() {
    let mut rng = StdRng::seed_from_u64(1);
    let r = Draft::from_fields(&form("Party", "Today", &[("A", 1), ("B", 1), ("C", 1)]), &mut rng, 1000);
    assert_eq!(r.unwrap_err(), DraftError::Infeasible { team: 1 });
    let d = registry(&[("A", 1), ("B", 1), ("C", 1)]);
    assert_eq!(d.team_len(1), 3);
    assert_eq!(d.team_possibilities(1), 0);
    assert_eq!(d.check_feasibility(), Err(DraftError::Infeasible { team: 1 }));
}

#[test]
fn distinct_teams_are_solvable() {
    for seed in 0..50 {
        let mut rng = StdRng::seed_from_u64(seed);
        let d = Draft::from_fields(&form("Party", "Today", &[("A", 1), ("B", 2), ("C", 3)]), &mut rng, 1000)
            .unwrap();
        assert_valid(&d);
    }
}

#[test]
fn duplicate_name_is_rejected() {
    let mut rng = StdRng::seed_from_u64(3);
    let r = Draft::from_fields(&form("Party", "Today", &[("A", 1), ("A", 2), ("B", 3)]), &mut rng, 1000);
    assert_eq!(r.unwrap_err(), DraftError::DuplicateName);
    let mut d = registry(&[("A", 1)]);
    assert_eq!(d.register("A".to_string(), 2), Err(DraftError::DuplicateName));
    assert_eq!(d.members.len(), 1);
    assert_eq!(d.members[0].team, 1);
}

#[test]
fn empty_name_is_rejected() {
    let mut d = registry(&[("A", 1)]);
    assert_eq!(d.register(String::new(), 2), Err(DraftError::InvalidData));
    assert_eq!(d.members.len(), 1);
}

#[test]
fn same_seed_same_assignment() {
    let f = form("Party", "Today", &[("A", 1), ("B", 1), ("C", 2), ("D", 2), ("E", 3), ("F", 3), ("G", 4)]);
    let run = |seed: u64| {
        let mut rng = StdRng::seed_from_u64(seed);
        let d = Draft::from_fields(&f, &mut rng, 1000).unwrap();
        d.members.iter().map(|m| (m.name.clone(), m.ticket.clone())).collect::<Vec<_>>()
    };
    assert_eq!(run(7), run(7));
    assert_eq!(run(99), run(99));
}

#[test]
fn thousand_participants_terminate() {
    let names: Vec<String> = (0..1000).map(|i| format!("P{}", i)).collect();
    let mut d = Draft::new("Big".to_string(), "Today".to_string());
    for (i, n) in names.iter().enumerate() {
        d.register(n.clone(), (i % 10) as u32).unwrap();
    }
    let mut rng = StdRng::seed_from_u64(5);
    assert_eq!(d.calculate_tickets(&mut rng, 10_000), Ok(()));
    assert_valid(&d);
}

#[test]
fn solved_drafts_are_valid_for_many_registries() {
    let mut gen = StdRng::seed_from_u64(11);
    for round in 0..200u64 {

        let size = gen.gen_range(2..30usize);
        let teams = gen.gen_range(2..6u32);
        let mut d = Draft::new("T".to_string(), "D".to_string());
        for i in 0..size {
            d.register(format!("M{}", i), gen.gen_range(0..teams)).unwrap();
        }
        let mut rng = StdRng::seed_from_u64(round);
        match d.calculate_tickets(&mut rng, 10_000) {
            Ok(()) => assert_valid(&d),
            Err(DraftError::Infeasible { team }) => {
                assert!(d.team_len(team) > d.team_possibilities(team));
                assert!(d.members.iter().all(|m| m.ticket.is_none()));
            }
            Err(e) => panic!("unexpected error {:?}", e),
        }
    }
}

#[test]
fn feasibility_matches_team_counts() {
    let d = registry(&[("A", 1), ("B", 1), ("C", 2), ("D", 2), ("E", 1)]);
    assert_eq!(d.team_len(1), 3);
    assert_eq!(d.team_possibilities(1), 2);
    assert_eq!(d.team_len(2), 2);
    assert_eq!(d.team_possibilities(2), 3);
    assert_eq!(d.check_feasibility(), Err(DraftError::Infeasible { team: 1 }));
    let ok = registry(&[("A", 1), ("B", 1), ("C", 2), ("D", 3)]);
    assert_eq!(ok.check_feasibility(), Ok(()));
    let empty = registry(&[]);
    assert_eq!(empty.check_feasibility(), Ok(()));
}

#[test]
fn one_candidate_is_always_drawn() {
    let d = registry(&[("A", 1), ("B", 2)]);
    let mut rng = StdRng::seed_from_u64(0);
    let rec = d.attempt(&mut rng).unwrap();
    assert_eq!(rec, vec![1, 0]);
    let used = vec![false, false];
    assert_eq!(d.candidates(0, &used), vec![1]);
    assert_eq!(d.candidates(1, &vec![true, false]), Vec::<usize>::new());
}

#[test]
fn candidates_exclude_self_team_and_used() {
    let d = registry(&[("A", 1), ("B", 2), ("C", 1), ("D", 3), ("E", 2)]);
    assert_eq!(d.candidates(0, &vec![false; 5]), vec![1, 3, 4]);
    assert_eq!(d.candidates(0, &vec![false, false, false, true, false]), vec![1, 4]);
    assert_eq!(d.candidates(1, &vec![false; 5]), vec![0, 2, 3]);
}

#[test]
fn apply_tickets_writes_names() {
    let mut d = registry(&[("A", 1), ("B", 2), ("C", 3)]);
    d.apply_tickets(&vec![1, 2, 0]);
    assert_eq!(recipient(&d, "A"), "B");
    assert_eq!(recipient(&d, "B"), "C");
    assert_eq!(recipient(&d, "C"), "A");
    assert_eq!(d.lookup_recipient(&"Z".to_string()), None);
}

#[test]
fn no_attempts_means_exhausted() {
    let mut d = registry(&[("A", 1), ("B", 2)]);
    let mut rng = StdRng::seed_from_u64(0);
    assert_eq!(d.calculate_tickets(&mut rng, 0), Err(DraftError::SolveExhausted));
    assert!(d.members.iter().all(|m| m.ticket.is_none()));
}

#[test]
fn unsolved_member_has_no_recipient() {
    let d = registry(&[("A", 1), ("B", 2)]);
    assert_eq!(d.lookup_recipient(&"A".to_string()), None);
    let m = Member::new("X".to_string(), 4);
    assert_eq!(m.name, "X");
    assert_eq!(m.team, 4);
    assert!(m.ticket.is_none());
}

#[test]
fn form_field_errors() {
    let mut rng = StdRng::seed_from_u64(0);
    let bad = [
        fields(&[("title", "T"), ("date", ""), ("name", "A"), ("team", "1")]),
        fields(&[("title", "T"), ("date", "D"), ("team", "1")]),
        fields(&[("title", "T"), ("date", "D"), ("name", "A"), ("team", "x")]),
        fields(&[("title", "T"), ("date", "D"), ("name", "A"), ("team", "-1")]),
        fields(&[("title", "T"), ("date", "D"), ("name", "A"), ("team", "4294967296")]),
        fields(&[("title", "T"), ("date", "D"), ("colour", "red")]),
        fields(&[("date", "D"), ("name", "A"), ("team", "1"), ("name", "B"), ("team", "2")]),
        fields(&[("title", "T"), ("name", "A"), ("team", "1"), ("name", "B"), ("team", "2")]),
        fields(&[("title", "T"), ("date", "D"), ("name", "A"), ("team", "1"), ("name", "B")]),
    ];
    for f in bad.iter() {
        assert_eq!(Draft::from_fields(f, &mut rng, 100).unwrap_err(), DraftError::InvalidData);
    }
}

#[test]
fn form_reads_team_tags() {
    let mut rng = StdRng::seed_from_u64(0);
    let f = fields(&[
        ("title", "Party"),
        ("date", "Friday"),
        ("name", "A"),
        ("team", "+7"),
        ("name", "B"),
        ("team", "0042"),
        ("name", "C"),
        ("team", "4294967295"),
    ]);
    let d = Draft::from_fields(&f, &mut rng, 100).unwrap();
    assert_eq!(d.title, "Party");
    assert_eq!(d.date, "Friday");
    let teams: Vec<(String, u32)> = d.members.iter().map(|m| (m.name.clone(), m.team)).collect();
    assert_eq!(teams, vec![("A".to_string(), 7), ("B".to_string(), 42), ("C".to_string(), 4294967295)]);
    assert_valid(&d);
}

#[test]
fn later_title_replaces_earlier() {
    let mut rng = StdRng::seed_from_u64(0);
    let f = fields(&[("title", "One"), ("date", "D"), ("title", "Two"), ("name", "A"), ("team", "1"), ("name", "B"), ("team", "2")]);
    let d = Draft::from_fields(&f, &mut rng, 100).unwrap();
    assert_eq!(d.title, "Two");
}

#[test]
fn empty_form_of_members_is_solved() {
    let mut rng = StdRng::seed_from_u64(0);
    let d = Draft::from_fields(&fields(&[("title", "T"), ("date", "D")]), &mut rng, 1).unwrap();
    assert!(d.members.is_empty());
}

#[test]
fn error_messages() {
    assert_eq!(DraftError::InvalidData.message(), "Invalid form data");
    assert_eq!(DraftError::DuplicateName.message(), "Member was already defined");
    assert_eq!(DraftError::Infeasible { team: 3 }.message(), "Not enough possibilities");
    assert_eq!(DraftError::SolveExhausted.message(), "No assignment found within the attempt limit");
}

#[test]
fn store_keeps_drafts_by_id() {
    let mut store = DraftStore::new();
    assert_eq!(store.len(), 0);
    let mut rng = StdRng::seed_from_u64(2);
    let d = Draft::from_fields(&form("Party", "Today", &[("A", 1), ("B", 2)]), &mut rng, 10).unwrap();
    assert_eq!(store.insert(d), 0);
    let d2 = Draft::from_fields(&form("Other", "Today", &[("X", 1), ("Y", 2)]), &mut rng, 10).unwrap();
    assert_eq!(store.insert(d2), 1);
    assert_eq!(store.len(), 2);
    assert_eq!(store.get(1).unwrap().title, "Other");
    assert!(store.get(2).is_none());
    assert_eq!(store.recipient(0, &"A".to_string()), Some("B".to_string()));
    assert_eq!(store.recipient(1, &"Y".to_string()), Some("X".to_string()));
    assert_eq!(store.recipient(0, &"X".to_string()), None);
    assert_eq!(store.recipient(5, &"A".to_string()), None);
}

#[test]
fn registries_that_cannot_get_stuck_solve_in_one_attempt() {
    for seed in 0..100 {
        let mut rng = StdRng::seed_from_u64(seed);
        let mut d = registry(&[("A", 1), ("B", 1), ("C", 2), ("D", 2)]);
        assert_eq!(d.calculate_tickets(&mut rng, 1), Ok(()));
        assert_valid(&d);
        let mut pair = registry(&[("A", 1), ("B", 2)]);
        assert_eq!(pair.calculate_tickets(&mut rng, 1), Ok(()));
        assert_eq!(recipient(&pair, "A"), "B");
        assert_eq!(recipient(&pair, "B"), "A");
    }
}
