//! Tests of the full pipeline: enumerate, resolve, filter.

use skinset_finder::lanes::{Lane, LaneSet};
use skinset_finder::roster::{Candidate, Pick, PlayerCandidateSet};
use skinset_finder::pipeline::resolve_playable_comps;
use skinset_finder::skinsets::SkinsetIndex;

fn lane_set(lanes: &[Lane]) -> LaneSet {
    let mut ls = LaneSet::empty();
    for lane in lanes {
        ls = ls.with(*lane);
    }
    ls
}

fn player(champs: &[(&str, &[Lane])]) -> PlayerCandidateSet {
    let mut p = PlayerCandidateSet::new();
    for (name, lanes) in champs {
        p.push(Candidate::new(name.to_string(), lane_set(lanes)));
    }
    p
}

fn pick(champ: &str, lane: Lane) -> Pick {
    Pick::new(champ.to_string(), lane)
}

fn strings(names: &[&str]) -> Vec<String> {
    names.iter().map(|s| s.to_string()).collect()
}

#[test]
fn pipeline_rejects_empty_roster() {
    let roster: Vec<PlayerCandidateSet> = Vec::new();
    let idx = SkinsetIndex::new();
    let none_excluded: Vec<String> = Vec::new();
    assert!(resolve_playable_comps(&roster, &idx, &none_excluded).is_err());
}

#[test]
fn pipeline_keeps_only_shared_skinsets() {
    // A and B share S2; A and C share nothing.
    let mut idx = SkinsetIndex::new();
    idx.add_champion("A".to_string(), strings(&["S1", "S2"])).unwrap();
    idx.add_champion("B".to_string(), strings(&["S2", "S3"])).unwrap();
    idx.add_champion("C".to_string(), strings(&["S4"])).unwrap();
    let roster = vec![
        player(&[("A", &[Lane::Top])]),
        player(&[("B", &[Lane::Jungle]), ("C", &[Lane::Jungle])]),
    ];
    let none_excluded: Vec<String> = Vec::new();
    let out = resolve_playable_comps(&roster, &idx, &none_excluded).unwrap();
    assert_eq!(out.len(), 1);
    assert_eq!(out[0].assignment, vec![pick("A", Lane::Top), pick("B", Lane::Jungle)]);
    assert_eq!(out[0].skinsets, strings(&["S2"]));
}

#[test]
fn pipeline_drops_assignment_once_excluded() {
    let mut idx = SkinsetIndex::new();
    idx.add_champion("A".to_string(), strings(&["S1", "S2"])).unwrap();
    idx.add_champion("B".to_string(), strings(&["S2", "S3"])).unwrap();
    let roster = vec![player(&[("A", &[Lane::Top])]), player(&[("B", &[Lane::Jungle])])];
    let none_excluded: Vec<String> = Vec::new();
    let before = resolve_playable_comps(&roster, &idx, &none_excluded).unwrap();
    assert_eq!(before.len(), 1);
    let after = resolve_playable_comps(&roster, &idx, &strings(&["S2"])).unwrap();
    assert!(after.is_empty());
}

#[test]
fn pipeline_drops_champion_missing_from_index() {
    let mut idx = SkinsetIndex::new();
    idx.add_champion("A".to_string(), strings(&["S1"])).unwrap();
    let roster = vec![player(&[("A", &[Lane::Top])]), player(&[("Zed", &[Lane::Mid])])];
    let none_excluded: Vec<String> = Vec::new();
    let out = resolve_playable_comps(&roster, &idx, &none_excluded).unwrap();
    assert!(out.is_empty());
}

#[test]
fn pipeline_rejects_duplicate_candidate() {
    let idx = SkinsetIndex::new();
    let roster = vec![player(&[("A", &[Lane::Top]), ("A", &[Lane::Mid])])];
    let none_excluded: Vec<String> = Vec::new();
    assert!(resolve_playable_comps(&roster, &idx, &none_excluded).is_err());
}

#[test]
fn pipeline_repeated_calls_identical() {
    let mut idx = SkinsetIndex::new();
    idx.add_champion("A".to_string(), strings(&["S1", "S2"])).unwrap();
    idx.add_champion("B".to_string(), strings(&["S2", "S3"])).unwrap();
    idx.add_champion("C".to_string(), strings(&["S2"])).unwrap();
    let roster = vec![
        player(&[("A", &[Lane::Top, Lane::Mid]), ("C", &[Lane::Jungle])]),
        player(&[("B", &[Lane::Jungle, Lane::Top])]),
    ];
    let excluded = strings(&["S3"]);
    let out1 = resolve_playable_comps(&roster, &idx, &excluded).unwrap();
    let out2 = resolve_playable_comps(&roster, &idx, &excluded).unwrap();
    assert_eq!(out1, out2);
    assert!(!out1.is_empty());
}
