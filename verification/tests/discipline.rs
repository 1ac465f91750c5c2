use boulderboard::api;
use boulderboard::api::DisciplineTag;
use boulderboard::api::Status;
use boulderboard::discipline::BoulderAscent;
use boulderboard::discipline::BoulderScore;
use boulderboard::discipline::LeadAscent;
use boulderboard::discipline::LeadScore;
use boulderboard::discipline::SpeedAscent;
use boulderboard::discipline::SpeedScore;
use boulderboard::discipline::TypedScore;
use boulderboard::discipline::convert_ascents;
use boulderboard::discipline::ranks_before;
use boulderboard::ranking::assign_ranks;

fn raw_boulder(top: bool, top_tries: Option<u64>, zone: bool, zone_tries: Option<u64>) -> api::Ascent {
    api::Ascent {
        status: Status::Confirmed,
        boulder: Some(api::BoulderAscent { top, top_tries, zone, zone_tries }),
        lead: None,
        speed: None,
    }
}

fn raw_speed(time_ms: u64) -> api::Ascent {
    api::Ascent {
        status: Status::Confirmed,
        boulder: None,
        lead: None,
        speed: Some(api::SpeedAscent { time_ms }),
    }
}

fn raw_lead(score: &str) -> api::Ascent {
    api::Ascent {
        status: Status::Confirmed,
        boulder: None,
        lead: Some(api::LeadAscent { score: score.to_string() }),
        speed: None,
    }
}

#[test]
fn boulder_tie_break_fewer_top_tries_ranks_higher() {
    let a = TypedScore::Boulder(BoulderScore { tops: 2, zones: 3, top_tries: 2, start_order: 5 });
    let b = TypedScore::Boulder(BoulderScore { tops: 2, zones: 3, top_tries: 4, start_order: 1 });
    assert!(ranks_before(&a, &b));
    assert!(!ranks_before(&b, &a));
    let ranks = assign_ranks(&vec![b, a]);
    assert_eq!(ranks, vec![2, 1]);
}

#[test]
fn boulder_tie_break_lower_start_order_ranks_higher() {
    let a = TypedScore::Boulder(BoulderScore { tops: 2, zones: 3, top_tries: 4, start_order: 1 });
    let b = TypedScore::Boulder(BoulderScore { tops: 2, zones: 3, top_tries: 4, start_order: 2 });
    assert!(ranks_before(&a, &b));
    assert!(!ranks_before(&b, &a));
}

#[test]
fn boulder_more_tops_beats_everything_else() {
    let a = TypedScore::Boulder(BoulderScore { tops: 3, zones: 0, top_tries: 99, start_order: 9 });
    let b = TypedScore::Boulder(BoulderScore { tops: 2, zones: 5, top_tries: 2, start_order: 1 });
    assert!(ranks_before(&a, &b));
}

#[test]
fn boulder_score_exact_aggregate() {
    let ascents = vec![
        BoulderAscent { top: true, top_tries: 2, zone: true, zone_tries: 1, status: Status::Confirmed },
        BoulderAscent { top: false, top_tries: 7, zone: true, zone_tries: 3, status: Status::Confirmed },
        BoulderAscent { top: true, top_tries: 1, zone: false, zone_tries: 0, status: Status::Confirmed },
    ];
    let s = BoulderScore::calculate(4, &ascents);
    assert_eq!(s.tops, 2);
    assert_eq!(s.zones, 2);
    // Tries on untopped boulders do not count toward the total.
    assert_eq!(s.top_tries, 3);
    assert_eq!(s.start_order, 4);
}

#[test]
fn speed_score_is_minimum_time() {
    let ascents = vec![SpeedAscent { time_ms: 1200 }, SpeedAscent { time_ms: 900 }];
    let s = SpeedScore::calculate(0, &ascents);
    assert_eq!(s.time_ms, Some(900));
}

#[test]
fn speed_without_ascents_ranks_below_any_time() {
    let none = SpeedScore::calculate(0, &Vec::new());
    assert_eq!(none.time_ms, None);
    let timed = TypedScore::Speed(SpeedScore { time_ms: Some(999_999) });
    let no_time = TypedScore::Speed(none);
    assert!(ranks_before(&timed, &no_time));
    assert!(!ranks_before(&no_time, &timed));
}

#[test]
fn lead_score_is_placeholder_zero() {
    let ascents = vec![LeadAscent { score: "45+".to_string() }];
    let s = LeadScore::calculate(3, &ascents);
    assert_eq!(s.0, 0);
}

#[test]
fn boulder_conversion_defaults_missing_tries_to_zero() {
    let raw = raw_boulder(true, None, true, None);
    let t = BoulderAscent::try_from_raw(&raw).unwrap();
    assert!(t.top);
    assert_eq!(t.top_tries, 0);
    assert!(t.zone);
    assert_eq!(t.zone_tries, 0);
    assert_eq!(t.status, Status::Confirmed);
}

#[test]
fn boulder_conversion_fails_without_boulder_payload() {
    let raw = raw_speed(1000);
    assert!(BoulderAscent::try_from_raw(&raw).is_err());
}

#[test]
fn lead_conversion_keeps_score_text() {
    let raw = raw_lead("32+");
    let t = LeadAscent::try_from_raw(&raw).unwrap();
    assert_eq!(t.score, "32+");
}

#[test]
fn lead_conversion_fails_without_lead_payload() {
    let raw = raw_boulder(false, None, false, None);
    assert!(LeadAscent::try_from_raw(&raw).is_err());
}

#[test]
fn speed_conversion_keeps_time() {
    let raw = raw_speed(5123);
    let t = SpeedAscent::try_from_raw(&raw).unwrap();
    assert_eq!(t.time_ms, 5123);
}

#[test]
fn speed_conversion_fails_without_speed_payload() {
    let raw = raw_lead("top");
    assert!(SpeedAscent::try_from_raw(&raw).is_err());
}

#[test]
fn convert_ascents_fails_on_single_mismatch() {
    let raw = vec![raw_boulder(true, Some(1), true, Some(1)), raw_speed(1000)];
    assert!(convert_ascents(DisciplineTag::Boulder, &raw).is_err());
}

#[test]
fn convert_ascents_converts_whole_list() {
    let raw = vec![raw_speed(1000), raw_speed(900)];
    let t = convert_ascents(DisciplineTag::Speed, &raw).unwrap();
    match t {
        boulderboard::discipline::TypedAscents::Speed(v) => {
            assert_eq!(v.len(), 2);
            assert_eq!(v[0].time_ms, 1000);
            assert_eq!(v[1].time_ms, 900);
        }
        _ => panic!("expected speed ascents"),
    }
}

#[test]
fn ascent_cell_fill_classes() {
    let flash = BoulderAscent { top: true, top_tries: 1, zone: true, zone_tries: 1, status: Status::Confirmed };
    let full = BoulderAscent { top: true, top_tries: 2, zone: true, zone_tries: 1, status: Status::Confirmed };
    let half = BoulderAscent { top: false, top_tries: 0, zone: true, zone_tries: 2, status: Status::Confirmed };
    let empty = BoulderAscent { top: false, top_tries: 0, zone: false, zone_tries: 0, status: Status::Confirmed };
    assert_eq!(flash.fill_class(), "ascent-flash");
    assert_eq!(full.fill_class(), "ascent-full");
    assert_eq!(half.fill_class(), "ascent-half");
    assert_eq!(empty.fill_class(), "ascent-empty");
}

#[test]
fn ascent_cell_status_classes() {
    let active = BoulderAscent { top: false, top_tries: 0, zone: false, zone_tries: 0, status: Status::Active };
    let pending = BoulderAscent { top: false, top_tries: 0, zone: false, zone_tries: 0, status: Status::Pending };
    let locked = BoulderAscent { top: false, top_tries: 0, zone: false, zone_tries: 0, status: Status::Locked };
    assert_eq!(active.status_class(), "ascent-active");
    assert_eq!(pending.status_class(), "ascent-pending");
    assert_eq!(locked.status_class(), "");
}

#[test]
fn discipline_names() {
    assert_eq!(DisciplineTag::Lead.name(), "Lead");
    assert_eq!(DisciplineTag::Boulder.name(), "Boulder");
    assert_eq!(DisciplineTag::Speed.name(), "Speed");
}
