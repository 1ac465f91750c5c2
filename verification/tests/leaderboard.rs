use boulderboard::api;
use boulderboard::api::DisciplineTag;
use boulderboard::api::Status;
use boulderboard::leaderboard::SnapshotError;
use boulderboard::leaderboard::build_leaderboard;

fn raw_boulder(top: bool, top_tries: Option<u64>, zone: bool, zone_tries: Option<u64>) -> api::Ascent {
    api::Ascent {
        status: Status::Confirmed,
        boulder: Some(api::BoulderAscent { top, top_tries, zone, zone_tries }),
        lead: None,
        speed: None,
    }
}

fn athlete(id: u64, first: &str, last: &str, country: &str, ascents: Vec<api::Ascent>) -> api::RankAthlete {
    api::RankAthlete {
        athlete: api::Athlete {
            athlete_id: id,
            firstname: first.to_string(),
            lastname: last.to_string(),
            country: api::Country { country: country.to_string() },
        },
        ascents,
        active: false,
    }
}

fn boulder_round(ranking: Vec<api::RankAthlete>) -> api::Results {
    api::Results {
        discipline: DisciplineTag::Boulder,
        event: Some("Test Event".to_string()),
        category: "Men".to_string(),
        round: "Final".to_string(),
        ranking,
    }
}

#[test]
fn end_to_end_boulder_round_ranks_fewer_tries_first() {
    // A: 1 top in 1 try, 1 zone; B: 1 top in 3 tries, 1 zone.
    let a = athlete(1, "Alice", "Azure", "AAA", vec![raw_boulder(true, Some(1), true, Some(1))]);
    let b = athlete(2, "Bob", "Blue", "BBB", vec![raw_boulder(true, Some(3), true, Some(1))]);
    let round = boulder_round(vec![a, b]);
    let rows = build_leaderboard(&round).unwrap();
    assert_eq!(rows.len(), 2);
    // Input order untouched; ranks recomputed.
    assert_eq!(rows[0].athlete_id, 1);
    assert_eq!(rows[0].rank, 1);
    assert_eq!(rows[1].athlete_id, 2);
    assert_eq!(rows[1].rank, 2);
}

#[test]
fn end_to_end_keeps_identity_fields() {
    let a = athlete(7, "Cara", "Cyan", "CCC", vec![raw_boulder(false, None, true, Some(2))]);
    let round = boulder_round(vec![a]);
    let rows = build_leaderboard(&round).unwrap();
    assert_eq!(rows[0].firstname, "Cara");
    assert_eq!(rows[0].lastname, "Cyan");
    assert_eq!(rows[0].country, "CCC");
    assert!(!rows[0].active);
    assert_eq!(rows[0].rank, 1);
}

#[test]
fn one_mismatched_ascent_discards_the_whole_round() {
    let good = athlete(1, "Dana", "Drab", "DDD", vec![raw_boulder(true, Some(2), true, Some(1))]);
    let bad = athlete(
        2,
        "Eve",
        "Ecru",
        "EEE",
        vec![api::Ascent {
            status: Status::Confirmed,
            boulder: None,
            lead: None,
            speed: Some(api::SpeedAscent { time_ms: 900 }),
        }],
    );
    let round = boulder_round(vec![good, bad]);
    assert!(build_leaderboard(&round).is_err());
}

#[test]
fn upstream_order_is_not_disturbed_by_ranking() {
    // Worst athlete listed first: order of rows stays, ranks differ.
    let worst = athlete(1, "F", "First", "FFF", vec![raw_boulder(false, None, false, None)]);
    let best = athlete(2, "S", "Second", "SSS", vec![raw_boulder(true, Some(1), true, Some(1))]);
    let round = boulder_round(vec![worst, best]);
    let rows = build_leaderboard(&round).unwrap();
    assert_eq!(rows[0].athlete_id, 1);
    assert_eq!(rows[1].athlete_id, 2);
    assert_eq!(rows[0].rank, 2);
    assert_eq!(rows[1].rank, 1);
}

#[test]
fn empty_round_builds_empty_leaderboard() {
    let round = boulder_round(Vec::new());
    let rows = build_leaderboard(&round).unwrap();
    assert!(rows.is_empty());
}

#[test]
fn snapshot_error_descriptions() {
    assert_eq!(SnapshotError::Transport.describe(), "transport failed");
    assert_eq!(SnapshotError::Decode.describe(), "decode failed");
    assert_eq!(
        SnapshotError::Conversion(boulderboard::discipline::ConversionError).describe(),
        "ascent does not match round discipline"
    );
}
