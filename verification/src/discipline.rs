//! Typed per-discipline models: conversion of raw ascents into typed ascents
//! and computation of totally ordered scores, one variant per discipline
//! selected by exhaustive match.

use vstd::prelude::*;

use crate::api;
use crate::api::DisciplineTag;

verus! {

/// A raw ascent did not carry the payload tagged for the round's declared
/// discipline. This is a data-integrity error for the whole round: the
/// snapshot must be discarded, never partially rendered.
#[derive(Clone, Copy, PartialEq, Eq, Structural, Debug)]
pub struct ConversionError;

// ---------------------------------------------------------------------------
// Lead
// ---------------------------------------------------------------------------

/// One lead attempt: the upstream textual score, kept verbatim.
#[derive(Clone, Debug)]
pub struct LeadAscent {
    pub score: String,
}

/// A lead athlete's aggregate score.
///
/// Placeholder: the upstream textual score is not yet parsed into a
/// comparable value, so the aggregate is a constant and ties between lead
/// athletes stay unresolved by any secondary key.
#[derive(Clone, Copy, PartialEq, Eq, Structural, Debug)]
pub struct LeadScore(pub u64);

/// Whether a raw ascent carries a lead payload.
pub open spec fn can_convert_lead(a: api::Ascent) -> bool {
    a.lead is Some
}

/// The typed lead ascent a raw ascent converts to (meaningful only when
/// `can_convert_lead` holds).
pub open spec fn lead_typed(a: api::Ascent) -> LeadAscent {
    LeadAscent { score: a.lead->0.score }
}

impl LeadAscent {
    /// Converts a raw ascent; fails unless it carries a lead payload.
    pub fn try_from_raw(a: &api::Ascent) -> (r: Result<LeadAscent, ConversionError>)
        ensures
            r is Ok <==> can_convert_lead(*a),
            r is Ok ==> r->Ok_0 == lead_typed(*a),
    {
        match &a.lead {
            Some(l) => Ok(LeadAscent { score: l.score.clone() }),
            None => Err(ConversionError),
        }
    }
}

impl LeadScore {
    /// Aggregates a lead athlete's ascents.
    ///
    /// Placeholder formula: every athlete scores zero, whatever the ascents
    /// say, until the textual score field gains a parsed, comparable form.
    pub fn calculate(_start_order: u64, _ascents: &Vec<LeadAscent>) -> (s: LeadScore)
        ensures
            s.0 == 0,
    {
        LeadScore(0)
    }
}

/// Strict order on lead scores: more points rank first.
pub open spec fn lead_better(a: LeadScore, b: LeadScore) -> bool {
    a.0 > b.0
}

// ---------------------------------------------------------------------------
// Boulder
// ---------------------------------------------------------------------------

/// One boulder attempt: whether top and zone were reached, in how many tries,
/// and the record's status. A missing try count normalizes to zero tries.
#[derive(Clone, Copy, PartialEq, Eq, Structural, Debug)]
pub struct BoulderAscent {
    pub top: bool,
    pub top_tries: u64,
    pub zone: bool,
    pub zone_tries: u64,
    pub status: api::Status,
}

/// A boulder athlete's aggregate score: tops, zones, total tries over topped
/// boulders, and the athlete's start order as the final tie-break.
#[derive(Clone, Copy, PartialEq, Eq, Structural, Debug)]
pub struct BoulderScore {
    pub tops: u64,
    pub zones: u64,
    pub top_tries: u64,
    pub start_order: u64,
}

/// Whether a raw ascent carries a boulder payload.
pub open spec fn can_convert_boulder(a: api::Ascent) -> bool {
    a.boulder is Some
}

/// The typed boulder ascent a raw ascent converts to (meaningful only when
/// `can_convert_boulder` holds).
pub open spec fn boulder_typed(a: api::Ascent) -> BoulderAscent {
    BoulderAscent {
        top: a.boulder->0.top,
        top_tries: if a.boulder->0.top_tries is Some {
            a.boulder->0.top_tries->0
        } else {
            0
        },
        zone: a.boulder->0.zone,
        zone_tries: if a.boulder->0.zone_tries is Some {
            a.boulder->0.zone_tries->0
        } else {
            0
        },
        status: a.status,
    }
}

impl BoulderAscent {
    /// Converts a raw ascent; fails unless it carries a boulder payload.
    /// Missing try counts default to zero.
    pub fn try_from_raw(a: &api::Ascent) -> (r: Result<BoulderAscent, ConversionError>)
        ensures
            r is Ok <==> can_convert_boulder(*a),
            r is Ok ==> r->Ok_0 == boulder_typed(*a),
    {
        match &a.boulder {
            Some(b) => Ok(
                BoulderAscent {
                    top: b.top,
                    top_tries: match b.top_tries {
                        Some(t) => t,
                        None => 0,
                    },
                    zone: b.zone,
                    zone_tries: match b.zone_tries {
                        Some(t) => t,
                        None => 0,
                    },
                    status: a.status,
                },
            ),
            None => Err(ConversionError),
        }
    }

    /// Which fill a rendered ascent cell gets: flashed top, top, zone only,
    /// or nothing.
    pub fn fill_class(&self) -> (r: &'static str)
        ensures
            self.top && self.top_tries == 1 ==> r@ == "ascent-flash"@,
            self.top && self.top_tries != 1 ==> r@ == "ascent-full"@,
            !self.top && self.zone ==> r@ == "ascent-half"@,
            !self.top && !self.zone ==> r@ == "ascent-empty"@,
    {
        if self.top && self.top_tries == 1 {
            "ascent-flash"
        } else if self.top {
            "ascent-full"
        } else if self.zone {
            "ascent-half"
        } else {
            "ascent-empty"
        }
    }

    /// Which liveness marker a rendered ascent cell gets.
    pub fn status_class(&self) -> (r: &'static str)
        ensures
            self.status is Active ==> r@ == "ascent-active"@,
            self.status is Pending ==> r@ == "ascent-pending"@,
            !(self.status is Active) && !(self.status is Pending) ==> r@ == ""@,
    {
        if self.status == api::Status::Active {
            "ascent-active"
        } else if self.status == api::Status::Pending {
            "ascent-pending"
        } else {
            ""
        }
    }
}

/// How many ascents of the list reached the top.
pub open spec fn count_tops(s: Seq<BoulderAscent>) -> int
    decreases s.len(),
{
    if s.len() == 0 {
        0
    } else {
        count_tops(s.drop_last()) + if s.last().top {
            1int
        } else {
            0int
        }
    }
}

/// How many ascents of the list reached the zone.
pub open spec fn count_zones(s: Seq<BoulderAscent>) -> int
    decreases s.len(),
{
    if s.len() == 0 {
        0
    } else {
        count_zones(s.drop_last()) + if s.last().zone {
            1int
        } else {
            0int
        }
    }
}

/// Total tries spent on boulders whose top was reached.
pub open spec fn sum_top_tries(s: Seq<BoulderAscent>) -> int
    decreases s.len(),
{
    if s.len() == 0 {
        0
    } else {
        sum_top_tries(s.drop_last()) + if s.last().top {
            s.last().top_tries as int
        } else {
            0int
        }
    }
}

/// Clamps a non-negative total into the `u64` range.
pub open spec fn clamp_u64(x: int) -> int {
    if x <= u64::MAX {
        x
    } else {
        u64::MAX as int
    }
}

pub proof fn lemma_count_tops_bound(s: Seq<BoulderAscent>)
    ensures
        0 <= count_tops(s) <= s.len(),
    decreases s.len(),
{
    if s.len() > 0 {
        lemma_count_tops_bound(s.drop_last());
    }
}

pub proof fn lemma_count_zones_bound(s: Seq<BoulderAscent>)
    ensures
        0 <= count_zones(s) <= s.len(),
    decreases s.len(),
{
    if s.len() > 0 {
        lemma_count_zones_bound(s.drop_last());
    }
}

pub proof fn lemma_sum_top_tries_nonneg(s: Seq<BoulderAscent>)
    ensures
        0 <= sum_top_tries(s),
    decreases s.len(),
{
    if s.len() > 0 {
        lemma_sum_top_tries_nonneg(s.drop_last());
    }
}

/// The boulder score the discipline rules assign to a list of typed ascents
/// and a start order. The try total saturates at the `u64` ceiling.
pub open spec fn boulder_score_of(start_order: u64, v: Seq<BoulderAscent>) -> BoulderScore {
    BoulderScore {
        tops: count_tops(v) as u64,
        zones: count_zones(v) as u64,
        top_tries: clamp_u64(sum_top_tries(v)) as u64,
        start_order,
    }
}

impl BoulderScore {
    /// Aggregates a boulder athlete's ascents: tops and zones reached, total
    /// tries over topped boulders (saturating), and the start order.
    pub fn calculate(start_order: u64, ascents: &Vec<BoulderAscent>) -> (s: BoulderScore)
        ensures
            s == boulder_score_of(start_order, ascents@),
    {
        let n = ascents.len();
        let mut tops: u64 = 0;
        let mut zones: u64 = 0;
        let mut top_tries: u64 = 0;
        let mut i: usize = 0;
        proof {
            assert(ascents@.take(0) =~= Seq::<BoulderAscent>::empty());
        }
        while i < n
            invariant
                i <= n,
                n == ascents@.len(),
                tops == count_tops(ascents@.take(i as int)),
                zones == count_zones(ascents@.take(i as int)),
                top_tries == clamp_u64(sum_top_tries(ascents@.take(i as int))),
            decreases n - i,
        {
            proof {
                assert(ascents@.take(i + 1).drop_last() =~= ascents@.take(i as int));
                assert(ascents@.take(i + 1).last() == ascents@[i as int]);
                lemma_count_tops_bound(ascents@.take(i as int));
                lemma_count_zones_bound(ascents@.take(i as int));
                lemma_sum_top_tries_nonneg(ascents@.take(i as int));
            }
            let a = &ascents[i];
            if a.top {
                tops = tops + 1;
                top_tries = if top_tries > u64::MAX - a.top_tries {
                    u64::MAX
                } else {
                    top_tries + a.top_tries
                };
            }
            if a.zone {
                zones = zones + 1;
            }
            i = i + 1;
        }
        proof {
            assert(ascents@.take(n as int) =~= ascents@);
        }
        BoulderScore { tops, zones, top_tries, start_order }
    }
}

/// Strict order on boulder scores: more tops rank first; then more zones;
/// then fewer tries over topped boulders; then the lower start order.
pub open spec fn boulder_better(a: BoulderScore, b: BoulderScore) -> bool {
    ||| a.tops > b.tops
    ||| (a.tops == b.tops && a.zones > b.zones)
    ||| (a.tops == b.tops && a.zones == b.zones && a.top_tries < b.top_tries)
    ||| (a.tops == b.tops && a.zones == b.zones && a.top_tries == b.top_tries
        && a.start_order < b.start_order)
}

// ---------------------------------------------------------------------------
// Speed
// ---------------------------------------------------------------------------

/// One speed attempt: the elapsed time in milliseconds.
#[derive(Clone, Copy, PartialEq, Eq, Structural, Debug)]
pub struct SpeedAscent {
    pub time_ms: u64,
}

/// A speed athlete's aggregate score: the best (lowest) elapsed time of the
/// round, or no time at all, which ranks below every recorded time.
#[derive(Clone, Copy, PartialEq, Eq, Structural, Debug)]
pub struct SpeedScore {
    pub time_ms: Option<u64>,
}

/// Whether a raw ascent carries a speed payload.
pub open spec fn can_convert_speed(a: api::Ascent) -> bool {
    a.speed is Some
}

/// The typed speed ascent a raw ascent converts to (meaningful only when
/// `can_convert_speed` holds).
pub open spec fn speed_typed(a: api::Ascent) -> SpeedAscent {
    SpeedAscent { time_ms: a.speed->0.time_ms }
}

impl SpeedAscent {
    /// Converts a raw ascent; fails unless it carries a speed payload.
    pub fn try_from_raw(a: &api::Ascent) -> (r: Result<SpeedAscent, ConversionError>)
        ensures
            r is Ok <==> can_convert_speed(*a),
            r is Ok ==> r->Ok_0 == speed_typed(*a),
    {
        match &a.speed {
            Some(s) => Ok(SpeedAscent { time_ms: s.time_ms }),
            None => Err(ConversionError),
        }
    }
}

/// The lowest elapsed time of the list, or none when the list is empty.
pub open spec fn speed_best(s: Seq<SpeedAscent>) -> Option<u64>
    decreases s.len(),
{
    if s.len() == 0 {
        None
    } else {
        match speed_best(s.drop_last()) {
            None => Some(s.last().time_ms),
            Some(m) => if s.last().time_ms < m {
                Some(s.last().time_ms)
            } else {
                Some(m)
            },
        }
    }
}

/// `speed_best` is the minimum of the recorded times: it is absent exactly on
/// an empty list, is one of the times, and is below or equal to all of them.
pub proof fn lemma_speed_best_is_min(s: Seq<SpeedAscent>)
    ensures
        speed_best(s) is None <==> s.len() == 0,
        speed_best(s) is Some ==> exists|i: int| 0 <= i < s.len() && s[i].time_ms == speed_best(s)->0,
        speed_best(s) is Some ==> forall|i: int| 0 <= i < s.len() ==> speed_best(s)->0 <= s[i].time_ms,
    decreases s.len(),
{
    if s.len() > 0 {
        lemma_speed_best_is_min(s.drop_last());
        let m = speed_best(s)->0;
        if speed_best(s.drop_last()) is Some {
            let m0 = speed_best(s.drop_last())->0;
            if m == m0 {
                let w = choose|i: int| 0 <= i < s.drop_last().len() && s.drop_last()[i].time_ms == m0;
                assert(s[w].time_ms == m);
            }
        }
        assert(forall|i: int| 0 <= i < s.len() - 1 ==> s[i] == s.drop_last()[i]);
    }
}

impl SpeedScore {
    /// Aggregates a speed athlete's ascents: the minimum elapsed time, or no
    /// time when the athlete has no ascents.
    pub fn calculate(_start_order: u64, ascents: &Vec<SpeedAscent>) -> (s: SpeedScore)
        ensures
            s.time_ms == speed_best(ascents@),
    {
        let n = ascents.len();
        let mut best: Option<u64> = None;
        let mut i: usize = 0;
        proof {
            assert(ascents@.take(0) =~= Seq::<SpeedAscent>::empty());
        }
        while i < n
            invariant
                i <= n,
                n == ascents@.len(),
                best == speed_best(ascents@.take(i as int)),
            decreases n - i,
        {
            proof {
                assert(ascents@.take(i + 1).drop_last() =~= ascents@.take(i as int));
                assert(ascents@.take(i + 1).last() == ascents@[i as int]);
            }
            let t = ascents[i].time_ms;
            best = match best {
                None => Some(t),
                Some(m) => if t < m {
                    Some(t)
                } else {
                    Some(m)
                },
            };
            i = i + 1;
        }
        proof {
            assert(ascents@.take(n as int) =~= ascents@);
        }
        SpeedScore { time_ms: best }
    }
}

/// Boulder tie-break: with equal tops and zones, the athlete with fewer
/// tries over topped boulders ranks first; with tries also equal, the lower
/// start order does.
pub proof fn lemma_boulder_tie_break(a: BoulderScore, b: BoulderScore)
    requires
        a.tops == b.tops,
        a.zones == b.zones,
    ensures
        a.top_tries < b.top_tries ==> boulder_better(a, b) && !boulder_better(b, a),
        a.top_tries == b.top_tries && a.start_order < b.start_order ==> boulder_better(a, b)
            && !boulder_better(b, a),
{
}

/// Strict order on speed scores: a lower time ranks first, and any recorded
/// time ranks before no time at all.
pub open spec fn speed_better(a: SpeedScore, b: SpeedScore) -> bool {
    match (a.time_ms, b.time_ms) {
        (Some(x), Some(y)) => x < y,
        (Some(_), None) => true,
        _ => false,
    }
}

/// A speed athlete with a recorded time ranks before any athlete with none:
/// the "no time" sentinel ranks last.
pub proof fn lemma_speed_no_time_ranks_last(a: SpeedScore, b: SpeedScore)
    requires
        a.time_ms is Some,
        b.time_ms is None,
    ensures
        speed_better(a, b),
        !speed_better(b, a),
{
}

// ---------------------------------------------------------------------------
// Discipline-tagged dispatch
// ---------------------------------------------------------------------------

/// The typed ascents of one athlete, tagged by discipline.
#[derive(Clone, Debug)]
pub enum TypedAscents {
    Lead(Vec<LeadAscent>),
    Boulder(Vec<BoulderAscent>),
    Speed(Vec<SpeedAscent>),
}

/// The typed score of one athlete, tagged by discipline.
#[derive(Clone, Copy, Debug)]
pub enum TypedScore {
    Lead(LeadScore),
    Boulder(BoulderScore),
    Speed(SpeedScore),
}

/// Whether a raw ascent carries the payload the round's discipline demands.
pub open spec fn can_convert(tag: DisciplineTag, a: api::Ascent) -> bool {
    match tag {
        DisciplineTag::Lead => can_convert_lead(a),
        DisciplineTag::Boulder => can_convert_boulder(a),
        DisciplineTag::Speed => can_convert_speed(a),
    }
}

/// Which discipline a score belongs to.
pub open spec fn score_tag(s: TypedScore) -> DisciplineTag {
    match s {
        TypedScore::Lead(_) => DisciplineTag::Lead,
        TypedScore::Boulder(_) => DisciplineTag::Boulder,
        TypedScore::Speed(_) => DisciplineTag::Speed,
    }
}

/// Which discipline a list of typed ascents belongs to.
pub open spec fn ascents_tag(a: TypedAscents) -> DisciplineTag {
    match a {
        TypedAscents::Lead(_) => DisciplineTag::Lead,
        TypedAscents::Boulder(_) => DisciplineTag::Boulder,
        TypedAscents::Speed(_) => DisciplineTag::Speed,
    }
}

/// A fixed order on the discipline tags, used only to keep the score order
/// total when scores of different disciplines meet (which no single round
/// produces).
pub open spec fn tag_index(t: DisciplineTag) -> int {
    match t {
        DisciplineTag::Lead => 0,
        DisciplineTag::Boulder => 1,
        DisciplineTag::Speed => 2,
    }
}

/// Strict order on typed scores: within one discipline, that discipline's
/// rules; across disciplines, the fixed tag order.
pub open spec fn score_better(a: TypedScore, b: TypedScore) -> bool {
    match (a, b) {
        (TypedScore::Lead(x), TypedScore::Lead(y)) => lead_better(x, y),
        (TypedScore::Boulder(x), TypedScore::Boulder(y)) => boulder_better(x, y),
        (TypedScore::Speed(x), TypedScore::Speed(y)) => speed_better(x, y),
        _ => tag_index(score_tag(a)) < tag_index(score_tag(b)),
    }
}

/// Equivalence of typed scores: same discipline and equal on every field the
/// discipline's order compares.
pub open spec fn score_equiv(a: TypedScore, b: TypedScore) -> bool {
    match (a, b) {
        (TypedScore::Lead(x), TypedScore::Lead(y)) => x.0 == y.0,
        (TypedScore::Boulder(x), TypedScore::Boulder(y)) => x == y,
        (TypedScore::Speed(x), TypedScore::Speed(y)) => x.time_ms == y.time_ms,
        _ => false,
    }
}

/// Decides the strict score order at run time.
pub fn ranks_before(a: &TypedScore, b: &TypedScore) -> (r: bool)
    ensures
        r == score_better(*a, *b),
{
    match (a, b) {
        (TypedScore::Lead(x), TypedScore::Lead(y)) => x.0 > y.0,
        (TypedScore::Boulder(x), TypedScore::Boulder(y)) => {
            if x.tops != y.tops {
                x.tops > y.tops
            } else if x.zones != y.zones {
                x.zones > y.zones
            } else if x.top_tries != y.top_tries {
                x.top_tries < y.top_tries
            } else {
                x.start_order < y.start_order
            }
        },
        (TypedScore::Speed(x), TypedScore::Speed(y)) => {
            match (x.time_ms, y.time_ms) {
                (Some(p), Some(q)) => p < q,
                (Some(_), None) => true,
                _ => false,
            }
        },
        _ => {
            let ai = match a {
                TypedScore::Lead(_) => 0u8,
                TypedScore::Boulder(_) => 1u8,
                TypedScore::Speed(_) => 2u8,
            };
            let bi = match b {
                TypedScore::Lead(_) => 0u8,
                TypedScore::Boulder(_) => 1u8,
                TypedScore::Speed(_) => 2u8,
            };
            ai < bi
        },
    }
}

/// Decides score equivalence at run time.
pub fn ties_with(a: &TypedScore, b: &TypedScore) -> (r: bool)
    ensures
        r == score_equiv(*a, *b),
{
    match (a, b) {
        (TypedScore::Lead(x), TypedScore::Lead(y)) => x.0 == y.0,
        (TypedScore::Boulder(x), TypedScore::Boulder(y)) => {
            x.tops == y.tops && x.zones == y.zones && x.top_tries == y.top_tries
                && x.start_order == y.start_order
        },
        (TypedScore::Speed(x), TypedScore::Speed(y)) => {
            match (x.time_ms, y.time_ms) {
                (Some(p), Some(q)) => p == q,
                (None, None) => true,
                _ => false,
            }
        },
        _ => false,
    }
}

/// The score order is a strict total order modulo equivalence: of two scores,
/// exactly one of "a ranks before b", "b ranks before a", "a ties b" holds.
pub proof fn lemma_score_trichotomy(a: TypedScore, b: TypedScore)
    ensures
        score_better(a, b) || score_better(b, a) || score_equiv(a, b),
        score_better(a, b) ==> !score_better(b, a) && !score_equiv(a, b),
        score_equiv(a, b) ==> !score_better(a, b) && !score_better(b, a),
{
}

/// The strict score order is transitive.
pub proof fn lemma_score_transitive(a: TypedScore, b: TypedScore, c: TypedScore)
    ensures
        score_better(a, b) && score_better(b, c) ==> score_better(a, c),
        score_equiv(a, b) && score_better(b, c) ==> score_better(a, c),
        score_better(a, b) && score_equiv(b, c) ==> score_better(a, c),
        score_equiv(a, b) && score_equiv(b, c) ==> score_equiv(a, c),
{
}

/// The typed ascents of one athlete, converted from the raw records under the
/// round's declared discipline. Fails if any single raw ascent lacks the
/// payload that discipline demands.
pub fn convert_ascents(tag: DisciplineTag, raw: &Vec<api::Ascent>) -> (r: Result<
    TypedAscents,
    ConversionError,
>)
    ensures
        r is Ok <==> (forall|i: int| 0 <= i < raw@.len() ==> can_convert(tag, raw@[i])),
        r is Ok ==> ascents_tag(r->Ok_0) == tag,
        r is Ok && tag is Lead ==> r->Ok_0->Lead_0@ == raw@.map_values(|a: api::Ascent| lead_typed(a)),
        r is Ok && tag is Boulder ==> r->Ok_0->Boulder_0@ == raw@.map_values(
            |a: api::Ascent| boulder_typed(a),
        ),
        r is Ok && tag is Speed ==> r->Ok_0->Speed_0@ == raw@.map_values(
            |a: api::Ascent| speed_typed(a),
        ),
{
    let n = raw.len();
    match tag {
        DisciplineTag::Lead => {
            let mut v: Vec<LeadAscent> = Vec::new();
            let mut i: usize = 0;
            while i < n
                invariant
                    tag is Lead,
                    i <= n,
                    n == raw@.len(),
                    forall|j: int| 0 <= j < i ==> can_convert_lead(raw@[j]),
                    v@ == raw@.take(i as int).map_values(|a: api::Ascent| lead_typed(a)),
                decreases n - i,
            {
                match LeadAscent::try_from_raw(&raw[i]) {
                    Ok(t) => {
                        v.push(t);
                        proof {
                            assert(raw@.take(i + 1).map_values(|a: api::Ascent| lead_typed(a))
                                =~= raw@.take(i as int).map_values(|a: api::Ascent| lead_typed(a)).push(
                                lead_typed(raw@[i as int]),
                            ));
                        }
                    },
                    Err(e) => {
                        proof {
                            assert(!can_convert(tag, raw@[i as int]));
                        }
                        return Err(e);
                    },
                }
                i = i + 1;
            }
            proof {
                assert(raw@.take(n as int) =~= raw@);
            }
            Ok(TypedAscents::Lead(v))
        },
        DisciplineTag::Boulder => {
            let mut v: Vec<BoulderAscent> = Vec::new();
            let mut i: usize = 0;
            while i < n
                invariant
                    tag is Boulder,
                    i <= n,
                    n == raw@.len(),
                    forall|j: int| 0 <= j < i ==> can_convert_boulder(raw@[j]),
                    v@ == raw@.take(i as int).map_values(|a: api::Ascent| boulder_typed(a)),
                decreases n - i,
            {
                match BoulderAscent::try_from_raw(&raw[i]) {
                    Ok(t) => {
                        v.push(t);
                        proof {
                            assert(raw@.take(i + 1).map_values(|a: api::Ascent| boulder_typed(a))
                                =~= raw@.take(i as int).map_values(
                                |a: api::Ascent| boulder_typed(a),
                            ).push(boulder_typed(raw@[i as int])));
                        }
                    },
                    Err(e) => {
                        proof {
                            assert(!can_convert(tag, raw@[i as int]));
                        }
                        return Err(e);
                    },
                }
                i = i + 1;
            }
            proof {
                assert(raw@.take(n as int) =~= raw@);
            }
            Ok(TypedAscents::Boulder(v))
        },
        DisciplineTag::Speed => {
            let mut v: Vec<SpeedAscent> = Vec::new();
            let mut i: usize = 0;
            while i < n
                invariant
                    tag is Speed,
                    i <= n,
                    n == raw@.len(),
                    forall|j: int| 0 <= j < i ==> can_convert_speed(raw@[j]),
                    v@ == raw@.take(i as int).map_values(|a: api::Ascent| speed_typed(a)),
                decreases n - i,
            {
                match SpeedAscent::try_from_raw(&raw[i]) {
                    Ok(t) => {
                        v.push(t);
                        proof {
                            assert(raw@.take(i + 1).map_values(|a: api::Ascent| speed_typed(a))
                                =~= raw@.take(i as int).map_values(|a: api::Ascent| speed_typed(a)).push(
                                speed_typed(raw@[i as int]),
                            ));
                        }
                    },
                    Err(e) => {
                        proof {
                            assert(!can_convert(tag, raw@[i as int]));
                        }
                        return Err(e);
                    },
                }
                i = i + 1;
            }
            proof {
                assert(raw@.take(n as int) =~= raw@);
            }
            Ok(TypedAscents::Speed(v))
        },
    }
}

/// The score the discipline rules assign to one athlete's typed ascents and
/// start order.
pub open spec fn score_spec(start_order: u64, a: TypedAscents) -> TypedScore {
    match a {
        TypedAscents::Lead(_) => TypedScore::Lead(LeadScore(0)),
        TypedAscents::Boulder(v) => TypedScore::Boulder(boulder_score_of(start_order, v@)),
        TypedAscents::Speed(v) => TypedScore::Speed(SpeedScore { time_ms: speed_best(v@) }),
    }
}

/// Computes one athlete's score from their typed ascents and start order,
/// selecting the discipline's rule by exhaustive match.
pub fn calculate_score(start_order: u64, ascents: &TypedAscents) -> (s: TypedScore)
    ensures
        s == score_spec(start_order, *ascents),
        score_tag(s) == ascents_tag(*ascents),
{
    match ascents {
        TypedAscents::Lead(v) => TypedScore::Lead(LeadScore::calculate(start_order, v)),
        TypedAscents::Boulder(v) => TypedScore::Boulder(BoulderScore::calculate(start_order, v)),
        TypedAscents::Speed(v) => TypedScore::Speed(SpeedScore::calculate(start_order, v)),
    }
}

} // verus!
