//! Raw result model: the loosely typed shape of one scoring round as the
//! upstream service reports it, plus the repair step applied to its payloads
//! before decoding.

use vstd::prelude::*;

verus! {

/// Which discipline a round belongs to. The tag decides which ascent payload
/// is valid for every entry of the round.
#[derive(Clone, Copy, PartialEq, Eq, Structural, Debug)]
pub enum DisciplineTag {
    Lead,
    Boulder,
    Speed,
}

impl DisciplineTag {
    /// The display name of the discipline.
    pub fn name(&self) -> (r: &'static str)
        ensures
            *self is Lead ==> r@ == "Lead"@,
            *self is Boulder ==> r@ == "Boulder"@,
            *self is Speed ==> r@ == "Speed"@,
    {
        match self {
            DisciplineTag::Lead => "Lead",
            DisciplineTag::Boulder => "Boulder",
            DisciplineTag::Speed => "Speed",
        }
    }
}

/// Whether an attempt's record is finalized upstream.
#[derive(Clone, Copy, PartialEq, Eq, Structural, Debug)]
pub enum Status {
    Active,
    Pending,
    Locked,
    Confirmed,
}

/// An athlete's country, as upstream reports it.
#[derive(Clone, Debug)]
pub struct Country {
    pub country: String,
}

/// An athlete's identity.
#[derive(Clone, Debug)]
pub struct Athlete {
    pub athlete_id: u64,
    pub firstname: String,
    pub lastname: String,
    pub country: Country,
}

/// The raw boulder payload of one ascent. Try counts may be missing; a
/// missing count normalizes to zero on conversion.
#[derive(Clone, Copy, Debug)]
pub struct BoulderAscent {
    pub top: bool,
    pub top_tries: Option<u64>,
    pub zone: bool,
    pub zone_tries: Option<u64>,
}

/// The raw lead payload of one ascent: an unparsed textual score.
#[derive(Clone, Debug)]
pub struct LeadAscent {
    pub score: String,
}

/// The raw speed payload of one ascent: the elapsed time in milliseconds.
#[derive(Clone, Copy, Debug)]
pub struct SpeedAscent {
    pub time_ms: u64,
}

/// One raw ascent record: a status plus at most one discipline-specific
/// payload. An ascent with no payload matching the round's discipline is a
/// data error, never silently defaulted.
#[derive(Clone, Debug)]
pub struct Ascent {
    pub status: Status,
    pub boulder: Option<BoulderAscent>,
    pub lead: Option<LeadAscent>,
    pub speed: Option<SpeedAscent>,
}

/// One entry of a round's ranking: identity, liveness, and the raw ascents.
/// Upstream also reports a rank and score here; those are untrustworthy and
/// deliberately not modelled — the engine recomputes ranks itself.
#[derive(Clone, Debug)]
pub struct RankAthlete {
    pub athlete: Athlete,
    pub ascents: Vec<Ascent>,
    pub active: bool,
}

/// One raw scoring round as received from upstream.
#[derive(Clone, Debug)]
pub struct Results {
    pub discipline: DisciplineTag,
    pub event: Option<String>,
    pub category: String,
    pub round: String,
    pub ranking: Vec<RankAthlete>,
}

// ---------------------------------------------------------------------------
// Repair step
// ---------------------------------------------------------------------------
//
// The upstream service intersperses raw diagnostic lines into its JSON
// payloads. Every such line starts with the marker character `<`. Before
// decoding, the payload is repaired: each marked line is dropped whole,
// terminator included, and every other line is kept verbatim.

/// Index just past the first line of `s`: past its terminating newline, or
/// the text's end when no newline remains.
pub open spec fn line_end(s: Seq<char>) -> int
    decreases s.len(),
{
    if s.len() == 0 {
        0
    } else if s[0] == '\n' {
        1
    } else {
        1 + line_end(s.drop_first())
    }
}

/// The first line of a non-empty text is non-empty, ends at or before the
/// text's end, contains no newline before its last position, and ends with a
/// newline unless it reaches the text's end.
pub proof fn lemma_line_end_props(s: Seq<char>)
    requires
        s.len() > 0,
    ensures
        1 <= line_end(s) <= s.len(),
        forall|m: int| 0 <= m < line_end(s) - 1 ==> s[m] != '\n',
        line_end(s) < s.len() ==> s[line_end(s) - 1] == '\n',
    decreases s.len(),
{
    if s[0] == '\n' {
    } else if s.len() == 1 {
        assert(line_end(s.drop_first()) == 0);
    } else {
        let d = s.drop_first();
        lemma_line_end_props(d);
        assert forall|m: int| 0 <= m < line_end(s) - 1 implies s[m] != '\n' by {
            if m >= 1 {
                assert(d[m - 1] == s[m]);
            }
        }
        if line_end(s) < s.len() {
            assert(d[line_end(s) - 2] == s[line_end(s) - 1]);
        }
    }
}

/// Any index with the first line's characteristic properties is the first
/// line's end.
pub proof fn lemma_line_end_agrees(s: Seq<char>, e: int)
    requires
        1 <= e <= s.len(),
        forall|m: int| 0 <= m < e - 1 ==> s[m] != '\n',
        e < s.len() ==> s[e - 1] == '\n',
    ensures
        line_end(s) == e,
    decreases s.len(),
{
    if s[0] == '\n' {
        if e >= 2 {
            assert(s[0] != '\n');
        }
    } else if e == 1 {
        assert(e == s.len());
        assert(line_end(s.drop_first()) == 0);
    } else {
        let d = s.drop_first();
        assert forall|m: int| 0 <= m < e - 2 implies d[m] != '\n' by {
            assert(d[m] == s[m + 1]);
        }
        if e - 1 < d.len() {
            assert(d[e - 2] == s[e - 1]);
        }
        lemma_line_end_agrees(d, e - 1);
    }
}

/// The repaired text: line by line, a line whose first character is the
/// marker `<` is dropped whole, terminator included; every other line is
/// kept verbatim, terminator included.
pub open spec fn clean_text(s: Seq<char>) -> Seq<char>
    decreases s.len(),
    via clean_text_decreases
{
    if s.len() == 0 {
        Seq::empty()
    } else {
        let k = line_end(s);
        if s[0] == '<' {
            clean_text(s.skip(k))
        } else {
            s.take(k) + clean_text(s.skip(k))
        }
    }
}

#[via_fn]
proof fn clean_text_decreases(s: Seq<char>) {
    if s.len() > 0 {
        lemma_line_end_props(s);
    }
}

/// Whether some line of `s` starts with the marker `<`: a marker at the very
/// start, or right after a newline.
pub open spec fn has_marked_line(s: Seq<char>) -> bool {
    exists|i: int| 0 <= i < s.len() && #[trigger] s[i] == '<' && (i == 0 || s[i - 1] == '\n')
}

/// Repair leaves a text without marked lines untouched.
pub proof fn lemma_clean_text_identity(s: Seq<char>)
    requires
        !has_marked_line(s),
    ensures
        clean_text(s) == s,
    decreases s.len(),
{
    if s.len() > 0 {
        lemma_line_end_props(s);
        let k = line_end(s);
        assert(s[0] != '<');
        let t = s.skip(k);
        assert forall|i: int| 0 <= i < t.len() && #[trigger] t[i] == '<' implies !(i == 0 || t[i
            - 1] == '\n') by {
            assert(t[i] == s[k + i]);
            if i == 0 || t[i - 1] == '\n' {
                if i > 0 {
                    assert(t[i - 1] == s[k + i - 1]);
                }
                assert(0 <= k + i < s.len() && s[k + i] == '<' && (s[k + i - 1] == '\n'));
                assert(has_marked_line(s));
                assert(false);
            }
        }
        lemma_clean_text_identity(t);
        assert(s.take(k) + s.skip(k) =~= s);
    }
}

/// Repair of a text consisting of clean lines, one whole marked line, and
/// clean lines again removes exactly the marked line and keeps every other
/// line, line breaks included.
pub proof fn lemma_clean_text_removes_marked_line(pre: Seq<char>, bad: Seq<char>, post: Seq<char>)
    requires
        !has_marked_line(pre),
        !has_marked_line(post),
        pre.len() > 0 ==> pre.last() == '\n',
        bad.len() > 0,
        bad[0] == '<',
        forall|m: int| 0 <= m < bad.len() - 1 ==> bad[m] != '\n',
        post.len() > 0 ==> bad.last() == '\n',
    ensures
        clean_text(pre + bad + post) == pre + post,
    decreases pre.len(),
{
    let s = pre + bad + post;
    if pre.len() == 0 {
        assert(s =~= bad + post);
        assert(s[0] == '<');
        assert forall|m: int| 0 <= m < bad.len() - 1 implies s[m] != '\n' by {}
        lemma_line_end_agrees(s, bad.len() as int);
        assert(s.skip(bad.len() as int) =~= post);
        lemma_clean_text_identity(post);
        assert(clean_text(s) =~= pre + post);
    } else {
        lemma_line_end_props(pre);
        let k = line_end(pre);
        assert(s[0] == pre[0]);
        assert(pre[0] != '<');
        assert(pre[k - 1] == '\n');
        assert forall|m: int| 0 <= m < k - 1 implies s[m] != '\n' by {}
        assert(s[k - 1] == '\n');
        lemma_line_end_agrees(s, k);
        let tail = pre.skip(k);
        assert(s.skip(k) =~= tail + bad + post);
        assert forall|i: int| 0 <= i < tail.len() && #[trigger] tail[i] == '<' implies !(i == 0
            || tail[i - 1] == '\n') by {
            assert(tail[i] == pre[k + i]);
            if i == 0 || tail[i - 1] == '\n' {
                if i > 0 {
                    assert(tail[i - 1] == pre[k + i - 1]);
                }
                assert(0 <= k + i < pre.len() && pre[k + i] == '<' && (pre[k + i - 1] == '\n'));
                assert(has_marked_line(pre));
                assert(false);
            }
        }
        if tail.len() > 0 {
            assert(tail.last() == pre.last());
        }
        lemma_clean_text_removes_marked_line(tail, bad, post);
        assert(s.take(k) =~= pre.take(k));
        assert(pre.take(k) + (tail + post) =~= pre + post);
    }
}

/// Relies on `str::chars`: iterating a string slice yields exactly the
/// characters of its view, in order.
#[verifier::external_body]
fn chars_vec(s: &str) -> (v: Vec<char>)
    ensures
        v@ == s@,
{
    s.chars().collect()
}

/// Relies on `String`'s `FromIterator<char>`: collecting characters builds
/// the string whose view is exactly those characters.
#[verifier::external_body]
fn string_from_chars(v: &Vec<char>) -> (r: String)
    ensures
        r@ == v@,
{
    v.iter().collect()
}

/// Removes each line that starts with the marker `<`, keeping every other
/// character of the payload.
fn clean_chars(v: &Vec<char>) -> (out: Vec<char>)
    ensures
        out@ == clean_text(v@),
{
    let n = v.len();
    let mut out: Vec<char> = Vec::new();
    let mut i: usize = 0;
    proof {
        assert(v@.skip(0) =~= v@);
    }
    while i < n
        invariant
            i <= n,
            n == v@.len(),
            clean_text(v@) == out@ + clean_text(v@.skip(i as int)),
        decreases n - i,
    {
        let ghost t = v@.skip(i as int);
        let mut j: usize = i;
        while j < n && v[j] != '\n'
            invariant
                i <= j <= n,
                n == v@.len(),
                forall|m: int| i <= m < j ==> v@[m] != '\n',
            decreases n - j,
        {
            j = j + 1;
        }
        let k = if j < n {
            j + 1
        } else {
            n
        };
        proof {
            assert(forall|m: int| 0 <= m < t.len() ==> t[m] == v@[i + m]);
            lemma_line_end_agrees(t, k - i);
            assert(t.skip(k - i) =~= v@.skip(k as int));
            assert(t.take(k - i) =~= v@.subrange(i as int, k as int));
        }
        if v[i] != '<' {
            let ghost out0 = out@;
            let mut m: usize = i;
            while m < k
                invariant
                    i <= m <= k <= n,
                    n == v@.len(),
                    out@ == out0 + v@.subrange(i as int, m as int),
                decreases k - m,
            {
                out.push(v[m]);
                proof {
                    assert(v@.subrange(i as int, m + 1) =~= v@.subrange(i as int, m as int).push(
                        v@[m as int],
                    ));
                }
                m = m + 1;
            }
            proof {
                assert(out@ + clean_text(v@.skip(k as int)) =~= out0 + clean_text(t));
            }
        }
        i = k;
    }
    proof {
        assert(v@.skip(n as int) =~= Seq::<char>::empty());
        assert(out@ + Seq::<char>::empty() =~= out@);
    }
    out
}

/// Repairs one raw upstream payload: strips every diagnostic line (each
/// starts with the marker `<`), preserving all other lines verbatim,
/// embedded line breaks included.
pub fn clean_api_output(x: String) -> (r: String)
    ensures
        r@ == clean_text(x@),
{
    let v = chars_vec(x.as_str());
    let cleaned = clean_chars(&v);
    string_from_chars(&cleaned)
}

} // verus!
