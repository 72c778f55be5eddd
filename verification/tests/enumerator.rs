//! Tests of the assignment enumerator.

use skinset_finder::lanes::{Lane, LaneSet};
use skinset_finder::roster::{Candidate, Pick, PlayerCandidateSet};
use skinset_finder::enumerate::resolve_all_champ_combinations;

fn lane_set(lanes: &[Lane]) -> LaneSet {
    let mut ls = LaneSet::empty();
    for lane in lanes {
        ls = ls.with(*lane);
    }
    ls
}

fn player(champs: &[(&str, &[Lane])]) -> PlayerCandidateSet {
    let mut p = PlayerCandidateSet::new();
    for (name, lanes) in champs {
        p.push(Candidate::new(name.to_string(), lane_set(lanes)));
    }
    p
}

fn pick(champ: &str, lane: Lane) -> Pick {
    Pick::new(champ.to_string(), lane)
}

#[test]
fn empty_roster_rejected() {
    let roster: Vec<PlayerCandidateSet> = Vec::new();
    let r = resolve_all_champ_combinations(&roster);
    assert!(r.is_err());
}

#[test]
fn duplicate_champion_rejected() {
    let roster = vec![player(&[("Ahri", &[Lane::Mid]), ("Ahri", &[Lane::Top])])];
    let r = resolve_all_champ_combinations(&roster);
    assert!(r.is_err());
}

#[test]
fn single_player_assignments() {
    let roster = vec![player(&[("A", &[Lane::Top, Lane::Mid]), ("B", &[Lane::Jungle])])];
    let r = resolve_all_champ_combinations(&roster).unwrap();
    let expected = vec![
        vec![pick("A", Lane::Top)],
        vec![pick("A", Lane::Mid)],
        vec![pick("B", Lane::Jungle)],
    ];
    assert_eq!(r, expected);
}

#[test]
fn two_player_collisions_pruned() {
    let roster = vec![
        player(&[("A", &[Lane::Top]), ("B", &[Lane::Jungle])]),
        player(&[("A", &[Lane::Top]), ("C", &[Lane::Jungle])]),
    ];
    let r = resolve_all_champ_combinations(&roster).unwrap();
    let expected = vec![
        vec![pick("A", Lane::Top), pick("C", Lane::Jungle)],
        vec![pick("B", Lane::Jungle), pick("A", Lane::Top)],
    ];
    assert_eq!(r, expected);
}

#[test]
fn player_with_no_candidates_empties_enumeration() {
    let roster = vec![player(&[("A", &[Lane::Top])]), player(&[])];
    let r = resolve_all_champ_combinations(&roster).unwrap();
    assert!(r.is_empty());
}

/// Flattens one player's candidates into every (champion, lane) choice.
fn all_choices(p: &PlayerCandidateSet) -> Vec<Pick> {
    let order = [Lane::Top, Lane::Jungle, Lane::Mid, Lane::Bottom, Lane::Support];
    let mut out = Vec::new();
    for c in &p.champs {
        for lane in order {
            if c.lanes.contains(lane) {
                out.push(Pick::new(c.champ.clone(), lane));
            }
        }
    }
    out
}

#[test]
fn exhaustive_matches_brute_force() {
    let roster = vec![
        player(&[("A", &[Lane::Top, Lane::Mid]), ("B", &[Lane::Jungle])]),
        player(&[("A", &[Lane::Top]), ("C", &[Lane::Mid, Lane::Jungle])]),
    ];
    let r = resolve_all_champ_combinations(&roster).unwrap();

    // Independent brute-force reference: every choice pair, filtered for
    // champion and lane uniqueness.
    let mut brute: Vec<Vec<Pick>> = Vec::new();
    for c1 in all_choices(&roster[0]) {
        for c2 in all_choices(&roster[1]) {
            if c1.champ != c2.champ && c1.lane != c2.lane {
                brute.push(vec![c1.clone(), c2.clone()]);
            }
        }
    }
    assert_eq!(r.len(), brute.len());
    assert_eq!(r.len(), 5);
    for row in &brute {
        assert!(r.contains(row));
    }
    // No duplicates in the enumerator's output.
    for i in 0..r.len() {
        for j in (i + 1)..r.len() {
            assert_ne!(r[i], r[j]);
        }
    }
}

#[test]
fn outputs_are_valid_assignments() {
    let roster = vec![
        player(&[("A", &[Lane::Top, Lane::Mid]), ("B", &[Lane::Jungle, Lane::Top])]),
        player(&[("A", &[Lane::Top]), ("C", &[Lane::Mid, Lane::Jungle])]),
        player(&[("D", &[Lane::Support, Lane::Mid]), ("B", &[Lane::Jungle])]),
    ];
    let r = resolve_all_champ_combinations(&roster).unwrap();
    assert!(!r.is_empty());
    for row in &r {
        assert_eq!(row.len(), roster.len());
        for i in 0..row.len() {
            for j in (i + 1)..row.len() {
                assert_ne!(row[i].champ, row[j].champ);
                assert_ne!(row[i].lane, row[j].lane);
            }
            // The pick is drawn from player i's own candidates.
            let allowed = roster[i]
                .champs
                .iter()
                .any(|c| c.champ == row[i].champ && c.lanes.contains(row[i].lane));
            assert!(allowed);
        }
    }
}

#[test]
fn repeated_calls_identical() {
    let roster = vec![
        player(&[("A", &[Lane::Top, Lane::Mid]), ("B", &[Lane::Jungle])]),
        player(&[("A", &[Lane::Top]), ("C", &[Lane::Mid, Lane::Jungle])]),
    ];
    let r1 = resolve_all_champ_combinations(&roster).unwrap();
    let r2 = resolve_all_champ_combinations(&roster).unwrap();
    assert_eq!(r1, r2);
}

#[test]
fn lane_set_membership() {
    let ls = lane_set(&[Lane::Top, Lane::Support]);
    assert!(ls.contains(Lane::Top));
    assert!(ls.contains(Lane::Support));
    assert!(!ls.contains(Lane::Mid));
    assert!(!LaneSet::empty().contains(Lane::Top));
}
