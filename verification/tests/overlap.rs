//! Tests of the skinset index and the overlap resolver.

use skinset_finder::lanes::Lane;
use skinset_finder::roster::Pick;
use skinset_finder::skinsets::SkinsetIndex;

fn strings(names: &[&str]) -> Vec<String> {
    names.iter().map(|s| s.to_string()).collect()
}

fn pick(champ: &str, lane: Lane) -> Pick {
    Pick::new(champ.to_string(), lane)
}

fn small_index() -> SkinsetIndex {
    let mut idx = SkinsetIndex::new();
    idx.add_champion("A".to_string(), strings(&["S1", "S2"])).unwrap();
    idx.add_champion("B".to_string(), strings(&["S2", "S3"])).unwrap();
    idx
}

#[test]
fn overlap_intersects_and_excludes() {
    let idx = small_index();
    let assignment = vec![pick("A", Lane::Top), pick("B", Lane::Mid)];
    let none_excluded: Vec<String> = Vec::new();
    assert_eq!(idx.overlap(&assignment, &none_excluded), strings(&["S2"]));
    assert_eq!(idx.overlap(&assignment, &strings(&["S2"])), Vec::<String>::new());
}

#[test]
fn overlap_single_champion_keeps_all() {
    let idx = small_index();
    let assignment = vec![pick("A", Lane::Mid)];
    let none_excluded: Vec<String> = Vec::new();
    assert_eq!(idx.overlap(&assignment, &none_excluded), strings(&["S1", "S2"]));
}

#[test]
fn missing_champion_shares_nothing() {
    let idx = small_index();
    let assignment = vec![pick("A", Lane::Top), pick("Zed", Lane::Mid)];
    let none_excluded: Vec<String> = Vec::new();
    assert_eq!(idx.overlap(&assignment, &none_excluded), Vec::<String>::new());
}

#[test]
fn growing_exclusions_shrinks_overlap() {
    let mut idx = SkinsetIndex::new();
    idx.add_champion("A".to_string(), strings(&["S1", "S2", "S3", "S4"])).unwrap();
    idx.add_champion("B".to_string(), strings(&["S2", "S3", "S4"])).unwrap();
    let assignment = vec![pick("A", Lane::Top), pick("B", Lane::Mid)];
    let excl1 = strings(&["S3"]);
    let excl2 = strings(&["S3", "S4"]);
    let o1 = idx.overlap(&assignment, &excl1);
    let o2 = idx.overlap(&assignment, &excl2);
    for s in &o2 {
        assert!(o1.contains(s));
    }
    assert_eq!(o1, strings(&["S2", "S4"]));
    assert_eq!(o2, strings(&["S2"]));
}

#[test]
fn duplicate_champion_key_rejected() {
    let mut idx = small_index();
    let r = idx.add_champion("A".to_string(), strings(&["S9"]));
    assert!(r.is_err());
    // The index is unchanged: champion A still resolves to its first row.
    let assignment = vec![pick("A", Lane::Top)];
    let none_excluded: Vec<String> = Vec::new();
    assert_eq!(idx.overlap(&assignment, &none_excluded), strings(&["S1", "S2"]));
}

#[test]
fn repeated_skinset_in_row_rejected() {
    let mut idx = SkinsetIndex::new();
    let r = idx.add_champion("A".to_string(), strings(&["S1", "S1"]));
    assert!(r.is_err());
}

#[test]
fn overlap_is_deterministic() {
    let idx = small_index();
    let assignment = vec![pick("A", Lane::Top), pick("B", Lane::Mid)];
    let excluded = strings(&["S3"]);
    assert_eq!(idx.overlap(&assignment, &excluded), idx.overlap(&assignment, &excluded));
}
