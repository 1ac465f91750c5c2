use boulderboard::discipline::BoulderScore;
use boulderboard::discipline::SpeedScore;
use boulderboard::discipline::TypedScore;
use boulderboard::ranking::assign_ranks;

fn boulder(tops: u64, zones: u64, top_tries: u64, start_order: u64) -> TypedScore {
    TypedScore::Boulder(BoulderScore { tops, zones, top_tries, start_order })
}

fn speed(time_ms: Option<u64>) -> TypedScore {
    TypedScore::Speed(SpeedScore { time_ms })
}

#[test]
fn ranks_are_one_to_n_without_gaps_or_duplicates() {
    let scores = vec![
        boulder(1, 2, 5, 0),
        boulder(3, 3, 3, 0),
        boulder(0, 1, 0, 0),
        boulder(2, 2, 2, 0),
        boulder(3, 4, 9, 0),
    ];
    let ranks = assign_ranks(&scores);
    assert_eq!(ranks.len(), scores.len());
    let mut sorted = ranks.clone();
    sorted.sort();
    assert_eq!(sorted, vec![1, 2, 3, 4, 5]);
}

#[test]
fn best_score_gets_rank_one() {
    let scores = vec![speed(Some(1200)), speed(Some(900)), speed(Some(1500))];
    let ranks = assign_ranks(&scores);
    assert_eq!(ranks, vec![2, 1, 3]);
}

#[test]
fn rerank_unchanged_list_yields_identical_ranks() {
    let scores = vec![boulder(2, 3, 4, 1), boulder(2, 3, 4, 2), boulder(1, 1, 1, 3)];
    let first = assign_ranks(&scores);
    let second = assign_ranks(&scores);
    assert_eq!(first, second);
}

#[test]
fn permuting_input_keeps_identity_to_rank_mapping() {
    // Identities 10, 20, 30, 40 with pairwise distinct scores.
    let ids = [10u64, 20, 30, 40];
    let scores = vec![
        speed(Some(950)),
        speed(Some(800)),
        speed(Some(700)),
        speed(Some(990)),
    ];
    let ranks = assign_ranks(&scores);
    let mut mapping: Vec<(u64, usize)> = ids.iter().copied().zip(ranks).collect();
    mapping.sort();

    // Permute the input, rank again, and map ranks back by identity.
    let perm = [2usize, 0, 3, 1];
    let permuted_ids: Vec<u64> = perm.iter().map(|&k| ids[k]).collect();
    let permuted_scores: Vec<TypedScore> = perm.iter().map(|&k| scores[k]).collect();
    let permuted_ranks = assign_ranks(&permuted_scores);
    let mut permuted_mapping: Vec<(u64, usize)> =
        permuted_ids.into_iter().zip(permuted_ranks).collect();
    permuted_mapping.sort();

    assert_eq!(mapping, permuted_mapping);
}

#[test]
fn empty_input_yields_no_ranks() {
    let ranks = assign_ranks(&Vec::new());
    assert!(ranks.is_empty());
}

#[test]
fn single_item_gets_rank_one() {
    let ranks = assign_ranks(&vec![speed(None)]);
    assert_eq!(ranks, vec![1]);
}

#[test]
fn tied_scores_get_distinct_sequential_ranks_in_list_order() {
    let scores = vec![speed(Some(900)), speed(Some(900)), speed(Some(800))];
    let ranks = assign_ranks(&scores);
    assert_eq!(ranks, vec![2, 3, 1]);
}
