use boulderboard::seasons::EventFilter;
use boulderboard::seasons::EventState;
use boulderboard::seasons::ShortEvent;
use boulderboard::seasons::filter_events;
use boulderboard::seasons::sorted_by_start;

fn event(name: &str, starts_at: i64, ends_at: i64) -> ShortEvent {
    ShortEvent { event: name.to_string(), event_id: 0, starts_at, ends_at }
}

#[test]
fn event_state_classification() {
    let e = event("e", 100, 200);
    assert_eq!(e.state(50), EventState::Upcoming);
    assert_eq!(e.state(100), EventState::Started);
    assert_eq!(e.state(150), EventState::Started);
    assert_eq!(e.state(200), EventState::Finished);
    assert_eq!(e.state(250), EventState::Finished);
}

#[test]
fn current_filter_selects_running_events() {
    let events = vec![event("past", 0, 10), event("now", 0, 100), event("later", 60, 100)];
    let r = filter_events(&events, EventFilter::Current, 50, None);
    assert_eq!(r.len(), 1);
    assert_eq!(r[0].event, "now");
}

#[test]
fn recent_filter_selects_ended_events() {
    let events = vec![event("past", 0, 10), event("now", 0, 100), event("later", 60, 100)];
    let r = filter_events(&events, EventFilter::Recent, 50, None);
    assert_eq!(r.len(), 1);
    assert_eq!(r[0].event, "past");
}

#[test]
fn upcoming_filter_selects_future_events() {
    let events = vec![event("past", 0, 10), event("now", 0, 100), event("later", 60, 100)];
    let r = filter_events(&events, EventFilter::Upcoming, 50, None);
    assert_eq!(r.len(), 1);
    assert_eq!(r[0].event, "later");
}

#[test]
fn filter_limit_truncates_in_order() {
    let events = vec![event("a", 0, 1), event("b", 0, 2), event("c", 0, 3), event("d", 0, 4)];
    let r = filter_events(&events, EventFilter::Recent, 50, Some(2));
    assert_eq!(r.len(), 2);
    assert_eq!(r[0].event, "a");
    assert_eq!(r[1].event, "b");
}

#[test]
fn filter_limit_larger_than_matches_keeps_all() {
    let events = vec![event("a", 0, 1), event("b", 0, 2)];
    let r = filter_events(&events, EventFilter::Recent, 50, Some(5));
    assert_eq!(r.len(), 2);
}

#[test]
fn events_sorted_by_start_instant() {
    let events = vec![event("c", 30, 40), event("a", 10, 20), event("b", 20, 30)];
    let r = sorted_by_start(&events);
    assert_eq!(r.len(), 3);
    assert_eq!(r[0].event, "a");
    assert_eq!(r[1].event, "b");
    assert_eq!(r[2].event, "c");
}
