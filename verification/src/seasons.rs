//! Season/event/category browsing model: the shapes upstream's navigation
//! endpoints report, with event instants held as plain Unix timestamps in
//! milliseconds, plus the event classification and selection rules the home
//! view applies to them.

use vstd::prelude::*;
use vstd::seq_lib::lemma_multiset_commutative;

verus! {

broadcast use vstd::seq_lib::group_to_multiset_ensures;

/// The list of seasons upstream offers.
#[derive(Clone, Debug)]
pub struct SeasonsResponse {
    pub seasons: Vec<ShortSeason>,
}

/// One season as listed in the seasons index.
#[derive(Clone, Debug)]
pub struct ShortSeason {
    pub id: u64,
    pub name: String,
}

/// One season with its events.
#[derive(Clone, Debug)]
pub struct Season {
    pub name: String,
    pub events: Vec<ShortEvent>,
}

/// One event of a season. The start and end instants are Unix timestamps in
/// milliseconds.
#[derive(Debug)]
pub struct ShortEvent {
    pub event: String,
    pub event_id: u64,
    pub starts_at: i64,
    pub ends_at: i64,
}

impl Clone for ShortEvent {
    /// A clone is equal to the original, field for field.
    fn clone(&self) -> (r: Self)
        ensures
            r == *self,
    {
        ShortEvent {
            event: self.event.clone(),
            event_id: self.event_id,
            starts_at: self.starts_at,
            ends_at: self.ends_at,
        }
    }
}

/// One event with its discipline categories.
#[derive(Clone, Debug)]
pub struct Event {
    pub dcats: Vec<ShortCategory>,
}

/// One discipline category of an event.
#[derive(Clone, Debug)]
pub struct ShortCategory {
    pub dcat_name: String,
    pub category_name: String,
    pub category_rounds: Vec<CategoryRound>,
}

/// One round of a category.
#[derive(Clone, Debug)]
pub struct CategoryRound {
    pub category_round_id: u64,
    pub name: String,
}

/// Where an event stands relative to some instant.
#[derive(Clone, Copy, PartialEq, Eq, Structural, Debug)]
pub enum EventState {
    Upcoming,
    Started,
    Finished,
}

impl ShortEvent {
    /// Classifies the event against the instant `now`: not yet started,
    /// started but not yet ended, or ended.
    pub fn state(&self, now: i64) -> (s: EventState)
        ensures
            self.starts_at > now ==> s is Upcoming,
            self.starts_at <= now && self.ends_at > now ==> s is Started,
            self.starts_at <= now && self.ends_at <= now ==> s is Finished,
    {
        if self.starts_at > now {
            EventState::Upcoming
        } else if self.ends_at > now {
            EventState::Started
        } else {
            EventState::Finished
        }
    }
}

/// The three event selections the home view shows.
#[derive(Clone, Copy, PartialEq, Eq, Structural, Debug)]
pub enum EventFilter {
    Current,
    Recent,
    Upcoming,
}

/// Whether an event passes a selection at the instant `now`: running right
/// now, already ended, or not yet started.
pub open spec fn passes_filter(e: ShortEvent, f: EventFilter, now: i64) -> bool {
    match f {
        EventFilter::Current => e.starts_at < now && e.ends_at > now,
        EventFilter::Recent => e.ends_at < now,
        EventFilter::Upcoming => e.starts_at > now,
    }
}

/// The subsequence of events passing a selection, in their original order.
pub open spec fn filtered_events(s: Seq<ShortEvent>, f: EventFilter, now: i64) -> Seq<ShortEvent>
    decreases s.len(),
{
    if s.len() == 0 {
        Seq::empty()
    } else {
        let rest = filtered_events(s.drop_last(), f, now);
        if passes_filter(s.last(), f, now) {
            rest.push(s.last())
        } else {
            rest
        }
    }
}

/// Selects the events passing a filter at the instant `now`, keeping their
/// order, cut to the first `limit` matches when a limit is given.
pub fn filter_events(
    events: &Vec<ShortEvent>,
    f: EventFilter,
    now: i64,
    limit: Option<usize>,
) -> (r: Vec<ShortEvent>)
    ensures
        ({
            let all = filtered_events(events@, f, now);
            match limit {
                None => r@ == all,
                Some(l) => if l < all.len() {
                    r@ == all.take(l as int)
                } else {
                    r@ == all
                },
            }
        }),
{
    let n = events.len();
    let mut r: Vec<ShortEvent> = Vec::new();
    let mut i: usize = 0;
    proof {
        assert(events@.take(0) =~= Seq::<ShortEvent>::empty());
    }
    while i < n
        invariant
            i <= n,
            n == events@.len(),
            r@ == filtered_events(events@.take(i as int), f, now),
        decreases n - i,
    {
        proof {
            assert(events@.take(i + 1).drop_last() =~= events@.take(i as int));
            assert(events@.take(i + 1).last() == events@[i as int]);
        }
        let e = &events[i];
        let keep = match f {
            EventFilter::Current => e.starts_at < now && e.ends_at > now,
            EventFilter::Recent => e.ends_at < now,
            EventFilter::Upcoming => e.starts_at > now,
        };
        if keep {
            r.push(e.clone());
        }
        i = i + 1;
    }
    proof {
        assert(events@.take(n as int) =~= events@);
    }
    match limit {
        Some(l) => {
            r.truncate(l);
        },
        None => {},
    }
    r
}

/// Whether a list of events is ordered by start instant.
pub open spec fn ordered_by_start(s: Seq<ShortEvent>) -> bool {
    forall|a: int, b: int| 0 <= a < b < s.len() ==> s[a].starts_at <= s[b].starts_at
}

/// Orders a season's events by start instant: the result holds exactly the
/// given events and lists them earliest first.
pub fn sorted_by_start(events: &Vec<ShortEvent>) -> (r: Vec<ShortEvent>)
    ensures
        r@.len() == events@.len(),
        ordered_by_start(r@),
        r@.to_multiset() == events@.to_multiset(),
{
    let n = events.len();
    let mut r: Vec<ShortEvent> = Vec::new();
    let mut i: usize = 0;
    proof {
        assert(events@.take(0) =~= Seq::<ShortEvent>::empty());
        assert(events@.take(0).to_multiset() =~= Seq::<ShortEvent>::empty().to_multiset());
    }
    while i < n
        invariant
            i <= n,
            n == events@.len(),
            r@.len() == i,
            ordered_by_start(r@),
            r@.to_multiset() == events@.take(i as int).to_multiset(),
        decreases n - i,
    {
        let e = events[i].clone();
        let mut j: usize = r.len();
        while j > 0 && r[j - 1].starts_at > e.starts_at
            invariant
                j <= r@.len(),
                forall|m: int| j <= m < r@.len() ==> r@[m].starts_at > e.starts_at,
            decreases j,
        {
            j = j - 1;
        }
        let ghost old_r = r@;
        r.insert(j, e);
        proof {
            old_r.insert_ensures(j as int, e);
            assert(ordered_by_start(r@)) by {
                assert(forall|m: int| 0 <= m < j ==> r@[m] == old_r[m]);
                assert(forall|m: int| j < m < r@.len() ==> r@[m] == old_r[m - 1]);
                assert(r@[j as int] == e);
            }
            assert(r@.to_multiset() =~= old_r.to_multiset().insert(e)) by {
                assert(r@ == old_r.subrange(0, j as int).push(e) + old_r.subrange(
                    j as int,
                    old_r.len() as int,
                ));
                lemma_multiset_commutative(
                    old_r.subrange(0, j as int).push(e),
                    old_r.subrange(j as int, old_r.len() as int),
                );
                lemma_multiset_commutative(
                    old_r.subrange(0, j as int),
                    old_r.subrange(j as int, old_r.len() as int),
                );
                assert(old_r.subrange(0, j as int) + old_r.subrange(j as int, old_r.len() as int)
                    =~= old_r);
            }
            assert(events@.take(i + 1).drop_last() =~= events@.take(i as int));
            assert(events@.take(i + 1) =~= events@.take(i as int).push(events@[i as int]));
        }
        i = i + 1;
    }
    proof {
        assert(events@.take(n as int) =~= events@);
    }
    r
}

} // verus!
