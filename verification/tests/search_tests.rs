use lyra::search::search;
use lyra::search::CatalogItem;
use lyra::search::EmptyQueryBehavior;
use lyra::search::MatchQuality;
use lyra::search::SearchConfig;

fn item(id: u64, name: &str, aliases: &[&str]) -> CatalogItem {
    CatalogItem {
        id,
        name: name.as_bytes().to_vec(),
        aliases: aliases.iter().map(|a| a.as_bytes().to_vec()).collect(),
    }
}

fn cfg(cap: usize, empty_query: EmptyQueryBehavior) -> SearchConfig {
    SearchConfig { cap, empty_query }
}

fn sample_catalog() -> Vec<CatalogItem> {
    vec![
        item(1, "Calculator", &[]),
        item(2, "Calendar", &[]),
        item(3, "Terminal", &[]),
    ]
}

#[test]
fn query_cal_returns_both_prefix_matches_above_terminal() {
    let catalog = sample_catalog();
    let r = search(
        &b"cal".to_vec(),
        &catalog,
        &cfg(10, EmptyQueryBehavior::ShowNothing),
    );
    assert_eq!(r.len(), 2);
    assert_eq!(r[0].item_id, 1);
    assert_eq!(r[1].item_id, 2);
    assert!(matches!(r[0].quality, MatchQuality::Prefix));
    assert!(matches!(r[1].quality, MatchQuality::Prefix));
    assert_eq!(r[0].position, 0);
    assert_eq!(r[1].position, 0);
}

#[test]
fn prefix_match_ranks_at_least_as_high_as_scattered_match() {
    // "Cannonball" holds "cal" only as a scattered subsequence; "Calendar" as a prefix.
    let catalog = vec![item(5, "Cannonball", &[]), item(9, "Calendar", &[])];
    let r = search(
        &b"cal".to_vec(),
        &catalog,
        &cfg(10, EmptyQueryBehavior::ShowNothing),
    );
    assert_eq!(r.len(), 2);
    assert_eq!(r[0].item_id, 9);
    assert!(matches!(r[0].quality, MatchQuality::Prefix));
    assert_eq!(r[1].item_id, 5);
    assert!(matches!(r[1].quality, MatchQuality::Subsequence));
    // the greedy scattered match starts at the first 'c' of "cannonball"
    assert_eq!(r[1].position, 0);
}

#[test]
fn empty_query_with_none_behavior_yields_empty_list() {
    let catalog = sample_catalog();
    let r = search(
        &b"".to_vec(),
        &catalog,
        &cfg(10, EmptyQueryBehavior::ShowNothing),
    );
    assert_eq!(r.len(), 0);
}

#[test]
fn empty_query_with_default_list_behavior_yields_catalog_by_id() {
    let catalog = vec![item(7, "Terminal", &[]), item(2, "Calendar", &[])];
    let r = search(
        &b"".to_vec(),
        &catalog,
        &cfg(10, EmptyQueryBehavior::ShowDefaultList),
    );
    assert_eq!(r.len(), 2);
    assert_eq!(r[0].item_id, 2);
    assert_eq!(r[1].item_id, 7);
}

#[test]
fn result_list_is_capped() {
    let catalog = vec![
        item(1, "camera", &[]),
        item(2, "cassette", &[]),
        item(3, "castle", &[]),
        item(4, "catalog", &[]),
        item(5, "category", &[]),
    ];
    let r = search(
        &b"ca".to_vec(),
        &catalog,
        &cfg(3, EmptyQueryBehavior::ShowNothing),
    );
    assert_eq!(r.len(), 3);
    // the best three by the id tie-break survive the cap
    assert_eq!(r[0].item_id, 1);
    assert_eq!(r[1].item_id, 2);
    assert_eq!(r[2].item_id, 3);
}

#[test]
fn matching_is_ascii_case_insensitive() {
    let catalog = vec![item(4, "calculator", &[])];
    let r = search(
        &b"CAL".to_vec(),
        &catalog,
        &cfg(10, EmptyQueryBehavior::ShowNothing),
    );
    assert_eq!(r.len(), 1);
    assert!(matches!(r[0].quality, MatchQuality::Prefix));
}

#[test]
fn alias_match_counts_and_best_target_wins() {
    // name matches only as an inner substring, but the alias is a prefix match
    let catalog = vec![item(8, "xterm", &["terminal"])];
    let r = search(
        &b"term".to_vec(),
        &catalog,
        &cfg(10, EmptyQueryBehavior::ShowNothing),
    );
    assert_eq!(r.len(), 1);
    assert!(matches!(r[0].quality, MatchQuality::Prefix));
    assert_eq!(r[0].position, 0);
}

#[test]
fn substring_match_reports_exact_position() {
    let catalog = vec![item(2, "Calendar", &[])];
    let r = search(
        &b"end".to_vec(),
        &catalog,
        &cfg(10, EmptyQueryBehavior::ShowNothing),
    );
    assert_eq!(r.len(), 1);
    assert!(matches!(r[0].quality, MatchQuality::Substring));
    assert_eq!(r[0].position, 3);
}

#[test]
fn scattered_match_starts_at_first_query_byte() {
    // "cl" is not contiguous in "Calculator"; the first 'c' is at index 0
    let catalog = vec![item(1, "Calculator", &[])];
    let r = search(
        &b"cl".to_vec(),
        &catalog,
        &cfg(10, EmptyQueryBehavior::ShowNothing),
    );
    assert_eq!(r.len(), 1);
    assert!(matches!(r[0].quality, MatchQuality::Subsequence));
    assert_eq!(r[0].position, 0);
}

#[test]
fn non_matching_items_are_excluded() {
    let catalog = sample_catalog();
    let r = search(
        &b"zzz".to_vec(),
        &catalog,
        &cfg(10, EmptyQueryBehavior::ShowNothing),
    );
    assert_eq!(r.len(), 0);
}

#[test]
fn identical_queries_give_identical_results() {
    let catalog = sample_catalog();
    let a = search(
        &b"al".to_vec(),
        &catalog,
        &cfg(10, EmptyQueryBehavior::ShowNothing),
    );
    let b = search(
        &b"al".to_vec(),
        &catalog,
        &cfg(10, EmptyQueryBehavior::ShowNothing),
    );
    assert_eq!(a, b);
}

#[test]
fn equal_scores_break_ties_by_id_then_index() {
    let catalog = vec![item(30, "note", &[]), item(10, "note", &[]), item(20, "note", &[])];
    let r = search(
        &b"note".to_vec(),
        &catalog,
        &cfg(10, EmptyQueryBehavior::ShowNothing),
    );
    assert_eq!(r.len(), 3);
    assert_eq!(r[0].item_id, 10);
    assert_eq!(r[1].item_id, 20);
    assert_eq!(r[2].item_id, 30);
}
