//! End-to-end leaderboard construction: converts a raw round snapshot into
//! typed ascents and scores under the round's declared discipline, and
//! assigns every athlete a dense 1-based rank without disturbing the
//! upstream order (the order the view keys its rows by).

use vstd::prelude::*;

use crate::api;
use crate::api::DisciplineTag;
use crate::api::Results;
use crate::discipline::ConversionError;
use crate::discipline::TypedAscents;
use crate::discipline::TypedScore;
use crate::discipline::LeadScore;
use crate::discipline::SpeedScore;
use crate::discipline::boulder_score_of;
use crate::discipline::boulder_typed;
use crate::discipline::can_convert;
use crate::discipline::calculate_score;
use crate::discipline::convert_ascents;
use crate::discipline::lead_typed;
use crate::discipline::speed_best;
use crate::discipline::speed_typed;
use crate::ranking::assign_ranks;
use crate::ranking::rank_of;

verus! {

/// Why one poll cycle produced no snapshot: the upstream could not be
/// reached, its payload did not decode, or an ascent did not match the
/// round's declared discipline.
#[derive(Clone, Copy, PartialEq, Eq, Structural, Debug)]
pub enum SnapshotError {
    Transport,
    Decode,
    Conversion(ConversionError),
}

impl SnapshotError {
    /// A short diagnostic for the consumer.
    pub fn describe(&self) -> (r: &'static str)
        ensures
            *self is Transport ==> r@ == "transport failed"@,
            *self is Decode ==> r@ == "decode failed"@,
            *self is Conversion ==> r@ == "ascent does not match round discipline"@,
    {
        match self {
            SnapshotError::Transport => "transport failed",
            SnapshotError::Decode => "decode failed",
            SnapshotError::Conversion(_) => "ascent does not match round discipline",
        }
    }
}

/// One display-ready leaderboard row: identity, liveness, typed ascents,
/// typed score, and the recomputed 1-based rank.
#[derive(Debug)]
pub struct RankedEntry {
    pub athlete_id: u64,
    pub firstname: String,
    pub lastname: String,
    pub country: String,
    pub active: bool,
    pub ascents: TypedAscents,
    pub score: TypedScore,
    pub rank: usize,
}

/// Whether every ascent of every entry of the round carries the payload the
/// round's declared discipline demands.
pub open spec fn round_converts(r: Results) -> bool {
    forall|i: int, j: int|
        0 <= i < r.ranking@.len() && 0 <= j < r.ranking@[i].ascents@.len() ==> can_convert(
            r.discipline,
            #[trigger] r.ranking@[i].ascents@[j],
        )
}

/// Whether `t` holds exactly the typed forms of the raw ascents `raw` under
/// discipline `tag`.
pub open spec fn typed_ascents_match(tag: DisciplineTag, raw: Seq<api::Ascent>, t: TypedAscents) -> bool {
    &&& crate::discipline::ascents_tag(t) == tag
    &&& (t is Lead ==> t->Lead_0@ == raw.map_values(|a: api::Ascent| lead_typed(a)))
    &&& (t is Boulder ==> t->Boulder_0@ == raw.map_values(|a: api::Ascent| boulder_typed(a)))
    &&& (t is Speed ==> t->Speed_0@ == raw.map_values(|a: api::Ascent| speed_typed(a)))
}

/// The score the round's discipline assigns to the athlete at position `i`.
/// Start order is not delivered by the upstream ranking payload, so every
/// athlete scores with start order zero, as the snapshot pipeline computes
/// it.
pub open spec fn athlete_score(r: Results, i: int) -> TypedScore {
    match r.discipline {
        DisciplineTag::Lead => TypedScore::Lead(LeadScore(0)),
        DisciplineTag::Boulder => TypedScore::Boulder(
            boulder_score_of(0, r.ranking@[i].ascents@.map_values(|a: api::Ascent| boulder_typed(a))),
        ),
        DisciplineTag::Speed => TypedScore::Speed(
            SpeedScore {
                time_ms: speed_best(r.ranking@[i].ascents@.map_values(|a: api::Ascent| speed_typed(a))),
            },
        ),
    }
}

/// The scores of the whole round, in upstream entry order.
pub open spec fn round_scores(r: Results) -> Seq<TypedScore> {
    Seq::new(r.ranking@.len(), |i: int| athlete_score(r, i))
}

/// The rank of the athlete at position `i` within the round.
pub open spec fn athlete_rank(r: Results, i: int) -> int {
    rank_of(round_scores(r), i)
}

/// Converts every athlete of the round and computes every score. Succeeds
/// exactly when every ascent of every athlete converts under the round's
/// declared discipline; a single mismatch discards the whole round.
pub fn extract_athletes(results: &Results) -> (r: Result<
    Vec<(TypedAscents, TypedScore)>,
    ConversionError,
>)
    ensures
        r is Ok <==> round_converts(*results),
        r is Ok ==> r->Ok_0@.len() == results.ranking@.len(),
        r is Ok ==> forall|i: int|
            0 <= i < results.ranking@.len() ==> typed_ascents_match(
                results.discipline,
                results.ranking@[i].ascents@,
                (#[trigger] r->Ok_0@[i]).0,
            ) && r->Ok_0@[i].1 == athlete_score(*results, i),
{
    let n = results.ranking.len();
    let mut out: Vec<(TypedAscents, TypedScore)> = Vec::new();
    let mut i: usize = 0;
    while i < n
        invariant
            i <= n,
            n == results.ranking@.len(),
            out@.len() == i,
            forall|k: int, j: int|
                0 <= k < i && 0 <= j < results.ranking@[k].ascents@.len() ==> can_convert(
                    results.discipline,
                    #[trigger] results.ranking@[k].ascents@[j],
                ),
            forall|k: int|
                0 <= k < i ==> typed_ascents_match(
                    results.discipline,
                    results.ranking@[k].ascents@,
                    (#[trigger] out@[k]).0,
                ) && out@[k].1 == athlete_score(*results, k),
        decreases n - i,
    {
        match convert_ascents(results.discipline, &results.ranking[i].ascents) {
            Ok(ta) => {
                let score = calculate_score(0, &ta);
                out.push((ta, score));
            },
            Err(e) => {
                proof {
                    let j = choose|j: int|
                        0 <= j < results.ranking@[i as int].ascents@.len() && !can_convert(
                            results.discipline,
                            results.ranking@[i as int].ascents@[j],
                        );
                    assert(!can_convert(results.discipline, results.ranking@[i as int].ascents@[j]));
                }
                return Err(e);
            },
        }
        i = i + 1;
    }
    Ok(out)
}

/// Builds the display-ready leaderboard for one raw round snapshot: typed
/// ascents, typed scores, and a recomputed dense 1-based rank per athlete,
/// all in the upstream entry order. Fails, discarding the whole round, as
/// soon as any single ascent does not match the round's declared discipline.
pub fn build_leaderboard(results: &Results) -> (r: Result<Vec<RankedEntry>, ConversionError>)
    ensures
        r is Ok <==> round_converts(*results),
        r is Ok ==> r->Ok_0@.len() == results.ranking@.len(),
        r is Ok ==> forall|i: int|
            0 <= i < results.ranking@.len() ==> entry_matches(*results, i, #[trigger] r->Ok_0@[i]),
{
    let mut converted = match extract_athletes(results) {
        Ok(c) => c,
        Err(e) => {
            return Err(e);
        },
    };
    let n = results.ranking.len();
    let mut scores: Vec<TypedScore> = Vec::new();
    let mut i: usize = 0;
    while i < n
        invariant
            i <= n,
            n == results.ranking@.len(),
            converted@.len() == n,
            scores@.len() == i,
            forall|k: int| 0 <= k < i ==> scores@[k] == athlete_score(*results, k),
            forall|k: int|
                0 <= k < n ==> typed_ascents_match(
                    results.discipline,
                    results.ranking@[k].ascents@,
                    (#[trigger] converted@[k]).0,
                ) && converted@[k].1 == athlete_score(*results, k),
        decreases n - i,
    {
        scores.push(converted[i].1);
        i = i + 1;
    }
    proof {
        assert(scores@ =~= round_scores(*results));
    }
    let ranks = assign_ranks(&scores);
    let mut entries: Vec<RankedEntry> = Vec::new();
    let ghost conv0 = converted@;
    let mut i: usize = 0;
    while i < n
        invariant
            i <= n,
            n == results.ranking@.len(),
            n == conv0.len(),
            converted@ == conv0.skip(i as int),
            entries@.len() == i,
            ranks@.len() == n,
            forall|k: int| 0 <= k < n ==> ranks@[k] as int == athlete_rank(*results, k),
            forall|k: int|
                0 <= k < n ==> typed_ascents_match(
                    results.discipline,
                    results.ranking@[k].ascents@,
                    (#[trigger] conv0[k]).0,
                ) && conv0[k].1 == athlete_score(*results, k),
            forall|k: int| 0 <= k < i ==> entry_matches(*results, k, #[trigger] entries@[k]),
        decreases n - i,
    {
        proof {
            assert(converted@[0] == conv0[i as int]);
        }
        let (ta, sc) = converted.remove(0);
        let rank = ranks[i];
        let entry = RankedEntry {
            athlete_id: results.ranking[i].athlete.athlete_id,
            firstname: results.ranking[i].athlete.firstname.clone(),
            lastname: results.ranking[i].athlete.lastname.clone(),
            country: results.ranking[i].athlete.country.country.clone(),
            active: results.ranking[i].active,
            ascents: ta,
            score: sc,
            rank,
        };
        entries.push(entry);
        proof {
            assert(conv0.skip(i as int).remove(0) =~= conv0.skip(i + 1));
        }
        i = i + 1;
    }
    Ok(entries)
}

/// Whether leaderboard row `e` is the correct row for the athlete at
/// position `i` of the round: same identity and liveness, the typed forms of
/// that athlete's raw ascents, the discipline's score for them, and the
/// recomputed rank.
pub open spec fn entry_matches(res: Results, i: int, e: RankedEntry) -> bool {
    &&& e.athlete_id == res.ranking@[i].athlete.athlete_id
    &&& e.firstname == res.ranking@[i].athlete.firstname
    &&& e.lastname == res.ranking@[i].athlete.lastname
    &&& e.country == res.ranking@[i].athlete.country.country
    &&& e.active == res.ranking@[i].active
    &&& typed_ascents_match(res.discipline, res.ranking@[i].ascents@, e.ascents)
    &&& e.score == athlete_score(res, i)
    &&& e.rank as int == athlete_rank(res, i)
}

} // verus!
