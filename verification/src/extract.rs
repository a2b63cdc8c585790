//! Record extraction. A record arrives as seven extracted fields: the two
//! ratings (slots 0 and 3), the two team blobs (slots 1 and 4), the two
//! player names (slots 2 and 5) and the winner (slot 6), each optional. A
//! record whose ratings do not both reach the threshold yields nothing; a
//! present team blob is split into its per-creature JSON objects, and each
//! object's species field becomes one game outcome for that side.
use crate::numbers::rating_floor;
use crate::numbers::rating_at_least;
use crate::numbers::valid_rating;
use crate::outside::bytes_to_string;
use crate::outside::extract_species;
use crate::outside::lossy_decoded;
use crate::outside::species_extract;
use crate::normalize::normalize_species;
use crate::normalize::normalize_spec;
use crate::stats::GameResult;
use crate::stats::StatsError;
use vstd::prelude::*;
use vstd::string::StringExecFns;

verus! {

/// A rating field that is present, well formed and at or above the threshold.
pub open spec fn rating_pass(f: Option<Seq<u8>>, min: u64) -> bool {
    match f {
        Some(b) => valid_rating(b) && rating_floor(b) >= min,
        None => false,
    }
}

/// Both rating fields of a record reach the threshold.
pub open spec fn ratings_pass(j: Seq<Option<Seq<u8>>>, min: u64) -> bool {
    rating_pass(j[0], min) && rating_pass(j[3], min)
}

/// A team blob of the expected shape: `[{` ... `}]`.
pub open spec fn team_shaped(t: Seq<u8>) -> bool {
    t.len() >= 4 && t[0] == 0x5b && t[1] == 0x7b && t[t.len() - 2] == 0x7d && t[t.len() - 1]
        == 0x5d
}

/// The blob without its `[{` head and `}]` tail.
pub open spec fn inner_of(t: Seq<u8>) -> Seq<u8> {
    t.subrange(2, t.len() - 2)
}

/// One per-creature chunk with its braces put back.
pub open spec fn braced(c: Seq<u8>) -> Seq<u8> {
    seq![0x7bu8] + c + seq![0x7du8]
}

/// The separator `},{` sits at position `i`.
pub open spec fn is_sep_at(s: Seq<u8>, i: int) -> bool {
    i + 3 <= s.len() && s[i] == 0x7d && s[i + 1] == 0x2c && s[i + 2] == 0x7b
}

/// The first separator position at or after `i`, or -1 when none is left.
pub open spec fn first_sep(s: Seq<u8>, i: int) -> int
    decreases s.len() - i,
{
    if i < 0 || i + 3 > s.len() {
        -1
    } else if is_sep_at(s, i) {
        i
    } else {
        first_sep(s, i + 1)
    }
}

/// The chunks from position `i` on: split at each separator, left to right.
pub open spec fn chunks_from(s: Seq<u8>, i: int) -> Seq<Seq<u8>>
    decreases s.len() - i,
{
    let f = first_sep(s, i);
    if 0 <= i <= s.len() {
        if f < 0 {
            seq![s.subrange(i, s.len() as int)]
        } else if i <= f && f + 3 <= s.len() {
            seq![s.subrange(i, f)] + chunks_from(s, f + 3)
        } else {
            Seq::empty()
        }
    } else {
        Seq::empty()
    }
}

/// A separator found at or after `i` lies between `i` and the end.
proof fn lemma_first_sep_bounds(s: Seq<u8>, i: int)
    requires
        0 <= i,
    ensures
        first_sep(s, i) == -1 || (i <= first_sep(s, i) && first_sep(s, i) + 3 <= s.len()),
    decreases s.len() - i,
{
    if i + 3 <= s.len() && !is_sep_at(s, i) {
        lemma_first_sep_bounds(s, i + 1);
    }
}

/// The per-creature chunks of a team blob.
pub open spec fn split_chunks(s: Seq<u8>) -> Seq<Seq<u8>> {
    chunks_from(s, 0)
}

/// Every chunk's species extraction succeeds (no JSON parse error).
pub open spec fn chunks_ok(cs: Seq<Seq<u8>>) -> bool
    decreases cs.len(),
{
    if cs.len() == 0 {
        true
    } else {
        species_extract(braced(cs[0])) is Some && chunks_ok(cs.drop_first())
    }
}

/// The outcomes of some chunks: one per chunk with a species field, with the
/// species canonicalized; chunks without one contribute nothing.
pub open spec fn chunks_results(cs: Seq<Seq<u8>>, won: bool) -> Seq<(Seq<char>, bool)>
    decreases cs.len(),
{
    if cs.len() == 0 {
        Seq::empty()
    } else {
        (match species_extract(braced(cs[0])) {
            Some(Some(b)) => seq![(normalize_spec(lossy_decoded(b)), won)],
            _ => Seq::empty(),
        }) + chunks_results(cs.drop_first(), won)
    }
}

/// All of a present team blob decodes; an absent one is fine.
pub open spec fn team_passes(f: Option<Seq<u8>>) -> bool {
    match f {
        None => true,
        Some(t) => team_shaped(t) && chunks_ok(split_chunks(inner_of(t))),
    }
}

/// The outcomes a team field contributes.
pub open spec fn team_res_opt(f: Option<Seq<u8>>, won: bool) -> Seq<(Seq<char>, bool)> {
    match f {
        None => Seq::empty(),
        Some(t) => chunks_results(split_chunks(inner_of(t)), won),
    }
}

/// Extraction succeeds: the record is filtered out by its ratings, or both
/// team fields decode in full.
pub open spec fn extract_ok(min: u64, j: Seq<Option<Seq<u8>>>) -> bool {
    !ratings_pass(j, min) || (team_passes(j[1]) && team_passes(j[4]))
}

/// The first extraction failure is a malformed blob shape rather than a
/// chunk the JSON extractor refuses.
pub open spec fn first_error_is_shape(j: Seq<Option<Seq<u8>>>) -> bool {
    if j[1] matches Some(t1) && !team_shaped(t1) {
        true
    } else if !team_passes(j[1]) {
        false
    } else {
        j[4] matches Some(t4) && !team_shaped(t4)
    }
}

/// Everything a kept record contributes: the first team's outcomes, won when
/// the winner field equals the first player field, then the second team's.
pub open spec fn extract_results(min: u64, j: Seq<Option<Seq<u8>>>) -> Seq<(Seq<char>, bool)> {
    if !ratings_pass(j, min) {
        Seq::empty()
    } else {
        team_res_opt(j[1], j[6] == j[2]) + team_res_opt(j[4], j[6] == j[5])
    }
}

/// Whether two byte slices hold the same bytes.
fn bytes_eq(a: &[u8], b: &[u8]) -> (r: bool)
    ensures
        r == (a@ == b@),
{
    if a.len() != b.len() {
        proof {
            assert(a@ != b@);
        }
        return false;
    }
    let n = a.len();
    let mut i: usize = 0;
    while i < n
        invariant
            i <= n,
            n == a@.len() == b@.len(),
            forall|k: int| 0 <= k < i ==> a@[k] == b@[k],
        decreases n - i,
    {
        if a[i] != b[i] {
            return false;
        }
        i += 1;
    }
    proof {
        assert(a@ =~= b@);
    }
    true
}

/// Whether two optional byte fields hold the same value.
fn opt_bytes_eq(a: Option<&[u8]>, b: Option<&[u8]>) -> (r: bool)
    ensures
        r == (a.deep_view() == b.deep_view()),
{
    match (a, b) {
        (None, None) => true,
        (Some(x), Some(y)) => {
            let r = bytes_eq(x, y);
            proof {
                assert(x.deep_view() =~= x@);
                assert(y.deep_view() =~= y@);
            }
            r
        },
        _ => false,
    }
}

/// The first separator position in `s` at or after `from`.
fn find_sep(s: &Vec<u8>, from: usize) -> (r: Option<usize>)
    requires
        from <= s@.len(),
    ensures
        match r {
            Some(p) => p == first_sep(s@, from as int),
            None => first_sep(s@, from as int) == -1,
        },
{
    let n = s.len();
    let mut p = from;
    while p < n && n - p >= 3
        invariant
            from <= p,
            n == s@.len(),
            first_sep(s@, from as int) == first_sep(s@, p as int),
        decreases n - p,
    {
        if s[p] == 0x7d && s[p + 1] == 0x2c && s[p + 2] == 0x7b {
            return Some(p);
        }
        p += 1;
    }
    None
}

/// Splits one present team blob and appends its outcomes to `results`. The
/// blob must have the `[{`...`}]` shape; each chunk is rebraced and handed to
/// the JSON field extractor, and the first chunk it refuses aborts the
/// record.
fn extract_team(team: &[u8], won: bool, results: &mut Vec<GameResult>) -> (r: Result<
    (),
    StatsError,
>)
    ensures
        match r {
            Ok(_) => team_shaped(team@) && chunks_ok(split_chunks(inner_of(team@))) && final(
                results
            ).deep_view() == old(results).deep_view() + chunks_results(
                split_chunks(inner_of(team@)),
                won,
            ),
            Err(e) => !(team_shaped(team@) && chunks_ok(split_chunks(inner_of(team@)))) && ((
            e is Team) <==> !team_shaped(team@)) && ((e is JSON) <==> team_shaped(team@)),
        },
{
    let n = team.len();
    if n < 4 || team[0] != 0x5b || team[1] != 0x7b || team[n - 2] != 0x7d || team[n - 1] != 0x5d {
        return Err(StatsError::Team(String::from_str("malformed team blob")));
    }
    let mut inner: Vec<u8> = Vec::new();
    let mut i: usize = 2;
    proof {
        assert(inner@ =~= team@.subrange(2, 2));
    }
    while i < n - 2
        invariant
            2 <= i <= n - 2,
            n == team@.len(),
            n >= 4,
            inner@ == team@.subrange(2, i as int),
        decreases n - 2 - i,
    {
        let b = team[i];
        inner.push(b);
        proof {
            assert(team@.subrange(2, i + 1) =~= team@.subrange(2, i as int).push(team@[i as int]));
        }
        i += 1;
    }
    proof {
        assert(inner@ =~= inner_of(team@));
    }
    let ghost iv = inner@;
    let il = inner.len();
    let ghost base = results.deep_view();
    let mut cur: usize = 0;
    loop
        invariant
            cur <= iv.len(),
            inner@ == iv,
            iv.len() == il as int,
            team_shaped(team@),
            iv == inner_of(team@),
            base == old(results).deep_view(),
            chunks_ok(split_chunks(iv)) == chunks_ok(chunks_from(iv, cur as int)),
            chunks_ok(chunks_from(iv, cur as int)) ==> base + chunks_results(split_chunks(iv), won)
                =~= results.deep_view() + chunks_results(chunks_from(iv, cur as int), won),
        decreases iv.len() - cur,
    {
        let sep = find_sep(&inner, cur);
        proof {
            lemma_first_sep_bounds(iv, cur as int);
        }
        let end = match sep {
            Some(p) => p,
            None => inner.len(),
        };
        let ghost chunk = iv.subrange(cur as int, end as int);
        let mut entry: Vec<u8> = Vec::new();
        entry.push(0x7b);
        let mut k = cur;
        proof {
            assert(entry@ =~= seq![0x7bu8] + iv.subrange(cur as int, cur as int));
        }
        while k < end
            invariant
                cur <= k <= end <= iv.len(),
                inner@ == iv,
                entry@ == seq![0x7bu8] + iv.subrange(cur as int, k as int),
            decreases end - k,
        {
            let b = inner[k];
            entry.push(b);
            proof {
                assert(iv.subrange(cur as int, k + 1) =~= iv.subrange(cur as int, k as int).push(
                    iv[k as int],
                ));
                assert(entry@ =~= seq![0x7bu8] + iv.subrange(cur as int, k + 1));
            }
            k += 1;
        }
        entry.push(0x7d);
        proof {
            assert(entry@ =~= braced(chunk));
        }
        let ghost rest = chunks_from(iv, cur as int);
        proof {
            // the current chunk heads the remaining decomposition
            if first_sep(iv, cur as int) < 0 {
                assert(rest == seq![chunk]);
            } else {
                assert(rest == seq![chunk] + chunks_from(iv, first_sep(iv, cur as int) + 3));
            }
            assert(rest[0] == chunk);
        }
        match extract_species(&entry) {
            Err(e) => {
                proof {
                    assert(species_extract(braced(chunk)) is None);
                    assert(!chunks_ok(rest));
                }
                return Err(StatsError::JSON(e));
            },
            Ok(found) => {
                match found {
                    Some(bytes) => {
                        let ghost pre = results.deep_view();
                        let sp = bytes_to_string(&bytes);
                        let norm = normalize_species(sp.as_str());
                        let gr = GameResult::new(norm, won);
                        results.push(gr);
                        proof {
                            assert(bytes.deep_view() =~= bytes@);
                            assert(species_extract(braced(chunk)) == Some(Some(bytes@)));
                            assert(results.deep_view() =~= pre.push(
                                (normalize_spec(lossy_decoded(bytes@)), won),
                            ));
                        }
                    },
                    None => {},
                }
            },
        }
        match sep {
            Some(p) => {
                proof {
                    lemma_first_sep_bounds(iv, cur as int);
                    assert(p + 3 <= iv.len());
                    let nx = first_sep(iv, cur as int) + 3;
                    assert(rest.drop_first() =~= chunks_from(iv, nx));
                    assert(chunks_results(rest, won) == (match species_extract(braced(chunk)) {
                        Some(Some(b)) => seq![(normalize_spec(lossy_decoded(b)), won)],
                        _ => Seq::<(Seq<char>, bool)>::empty(),
                    }) + chunks_results(rest.drop_first(), won));
                }
                cur = p + 3;
            },
            None => {
                proof {
                    assert(rest.drop_first() =~= Seq::<Seq<u8>>::empty());
                    assert(chunks_ok(rest.drop_first()));
                    assert(chunks_results(rest.drop_first(), won) =~= Seq::<(Seq<char>,
                        bool,
                    )>::empty());
                    assert(chunks_results(rest, won) == (match species_extract(braced(chunk)) {
                        Some(Some(b)) => seq![(normalize_spec(lossy_decoded(b)), won)],
                        _ => Seq::<(Seq<char>, bool)>::empty(),
                    }) + chunks_results(rest.drop_first(), won));
                }
                return Ok(());
            },
        }
    }
}

impl crate::stats::Stats {
    /// Extracts one record's game outcomes from its seven fields. A record
    /// whose ratings are not both present, well formed and at or above
    /// `min_elo` yields no outcomes at all, whichever side falls short. A
    /// missing team field is skipped; a present one must have the expected
    /// blob shape (else the record fails with a team error) and every one of
    /// its per-creature entries must decode (else it fails with the JSON
    /// extractor's error). Each decoded species is canonicalized, and its
    /// side counts as the winner exactly when the winner field equals that
    /// side's player field.
    pub fn process_json(min_elo: u64, json: &Vec<Option<&[u8]>>) -> (r: Result<
        Vec<GameResult>,
        StatsError,
    >)
        requires
            json@.len() >= 7,
        ensures
            match r {
                Ok(v) => extract_ok(min_elo, json.deep_view()) && v.deep_view() == extract_results(
                    min_elo,
                    json.deep_view(),
                ),
                Err(e) => ratings_pass(json.deep_view(), min_elo) && !extract_ok(
                    min_elo,
                    json.deep_view(),
                ) && ((e is Team) <==> first_error_is_shape(json.deep_view())) && ((e is JSON)
                    <==> !first_error_is_shape(json.deep_view())),
            },
            !ratings_pass(json.deep_view(), min_elo) ==> r is Ok && extract_results(
                min_elo,
                json.deep_view(),
            ) == Seq::<(Seq<char>, bool)>::empty(),
    {
        let ghost j = json.deep_view();
        proof {
            assert forall|i: int| 0 <= i < j.len() implies #[trigger] j[i] == json@[i].deep_view()
                by {}
        }
        match json[0] {
            Some(b) => {
                proof {
                    assert(b.deep_view() =~= b@);
                }
                if !rating_at_least(b, min_elo) {
                    let empty: Vec<GameResult> = Vec::new();
                    proof {
                        assert(empty.deep_view() =~= Seq::<(Seq<char>, bool)>::empty());
                    }
                    return Ok(empty);
                }
            },
            None => {
                let empty: Vec<GameResult> = Vec::new();
                proof {
                    assert(empty.deep_view() =~= Seq::<(Seq<char>, bool)>::empty());
                }
                return Ok(empty);
            },
        }
        match json[3] {
            Some(b) => {
                proof {
                    assert(b.deep_view() =~= b@);
                }
                if !rating_at_least(b, min_elo) {
                    let empty: Vec<GameResult> = Vec::new();
                    proof {
                        assert(empty.deep_view() =~= Seq::<(Seq<char>, bool)>::empty());
                    }
                    return Ok(empty);
                }
            },
            None => {
                let empty: Vec<GameResult> = Vec::new();
                proof {
                    assert(empty.deep_view() =~= Seq::<(Seq<char>, bool)>::empty());
                }
                return Ok(empty);
            },
        }
        assert(ratings_pass(j, min_elo));
        let mut results: Vec<GameResult> = Vec::new();
        proof {
            assert(results.deep_view() =~= Seq::<(Seq<char>, bool)>::empty());
        }
        let won1 = opt_bytes_eq(json[6], json[2]);
        match json[1] {
            Some(t) => {
                proof {
                    assert(t.deep_view() =~= t@);
                }
                match extract_team(t, won1, &mut results) {
                    Ok(_) => {},
                    Err(e) => {
                        return Err(e);
                    },
                }
            },
            None => {},
        }
        let ghost after_one = results.deep_view();
        assert(team_passes(j[1]));
        assert(after_one =~= team_res_opt(j[1], j[6] == j[2]));
        let won2 = opt_bytes_eq(json[6], json[5]);
        match json[4] {
            Some(t) => {
                proof {
                    assert(t.deep_view() =~= t@);
                }
                match extract_team(t, won2, &mut results) {
                    Ok(_) => {},
                    Err(e) => {
                        return Err(e);
                    },
                }
            },
            None => {},
        }
        assert(team_passes(j[4]));
        assert(results.deep_view() =~= extract_results(min_elo, j));
        Ok(results)
    }
}

/// How many outcomes a team field can at most contribute.
pub open spec fn team_budget(f: Option<Seq<u8>>) -> int {
    match f {
        None => 0,
        Some(t) => t.len() as int + 1,
    }
}

/// How many outcomes one record can at most contribute.
pub open spec fn record_budget(j: Seq<Option<Seq<u8>>>) -> int {
    team_budget(j[1]) + team_budget(j[4])
}

/// How many outcomes a whole corpus can at most contribute.
pub open spec fn total_budget(rds: Seq<Seq<Option<Seq<u8>>>>) -> int
    decreases rds.len(),
{
    if rds.len() == 0 {
        0
    } else {
        total_budget(rds.drop_last()) + record_budget(rds.last())
    }
}

/// Chunks yield at most one outcome each.
proof fn lemma_chunks_results_len(cs: Seq<Seq<u8>>, won: bool)
    ensures
        chunks_results(cs, won).len() <= cs.len(),
    decreases cs.len(),
{
    if cs.len() > 0 {
        lemma_chunks_results_len(cs.drop_first(), won);
    }
}

/// Splitting yields at most one chunk per remaining byte, plus one.
proof fn lemma_chunks_from_len(s: Seq<u8>, i: int)
    requires
        0 <= i <= s.len(),
    ensures
        chunks_from(s, i).len() <= s.len() - i + 1,
    decreases s.len() - i,
{
    lemma_first_sep_bounds(s, i);
    let f = first_sep(s, i);
    if f >= 0 {
        lemma_chunks_from_len(s, f + 3);
    }
}

/// Team budgets are never negative.
proof fn lemma_team_budget_nonneg(f: Option<Seq<u8>>)
    ensures
        0 <= team_budget(f),
{
}

/// A present team that decodes yields at most its budget of outcomes.
proof fn lemma_team_res_len(f: Option<Seq<u8>>, won: bool)
    requires
        team_passes(f),
    ensures
        team_res_opt(f, won).len() <= team_budget(f),
        0 <= team_budget(f),
{
    match f {
        Some(t) => {
            lemma_chunks_results_len(split_chunks(inner_of(t)), won);
            lemma_chunks_from_len(inner_of(t), 0);
        },
        None => {},
    }
}

/// A record that extracts cleanly yields at most its budget of outcomes.
proof fn lemma_extract_results_len(min: u64, j: Seq<Option<Seq<u8>>>)
    requires
        extract_ok(min, j),
    ensures
        extract_results(min, j).len() <= record_budget(j),
        0 <= record_budget(j),
{
    if ratings_pass(j, min) {
        lemma_team_res_len(j[1], j[6] == j[2]);
        lemma_team_res_len(j[4], j[6] == j[5]);
    } else {
        lemma_team_budget_nonneg(j[1]);
        lemma_team_budget_nonneg(j[4]);
    }
}

/// The corpus' first record that fails extraction: everything before it
/// extracts cleanly.
pub open spec fn fails_first_at(min: u64, rds: Seq<Seq<Option<Seq<u8>>>>, i: int) -> bool {
    &&& 0 <= i < rds.len()
    &&& !extract_ok(min, rds[i])
    &&& forall|m: int| 0 <= m < i ==> extract_ok(min, #[trigger] rds[m])
}

/// The entries after merging a whole corpus, record by record.
pub open spec fn agg_entries(min: u64, rds: Seq<Seq<Option<Seq<u8>>>>) -> Seq<
    (Seq<char>, (u32, u32)),
>
    decreases rds.len(),
{
    if rds.len() == 0 {
        Seq::empty()
    } else {
        crate::stats::merged(
            agg_entries(min, rds.drop_last()),
            extract_results(min, rds.last()),
        )
    }
}


/// A corpus budget is never negative.
proof fn lemma_total_budget_nonneg(rds: Seq<Seq<Option<Seq<u8>>>>)
    requires
        forall|m: int| 0 <= m < rds.len() ==> 0 <= record_budget(#[trigger] rds[m]),
    ensures
        0 <= total_budget(rds),
    decreases rds.len(),
{
    if rds.len() > 0 {
        assert forall|m: int|
            0 <= m < rds.drop_last().len() implies 0 <= record_budget(
            #[trigger] rds.drop_last()[m],
        ) by {
            assert(rds.drop_last()[m] == rds[m]);
        }
        lemma_total_budget_nonneg(rds.drop_last());
    }
}

/// A prefix of the corpus never exceeds the whole corpus' budget.
proof fn lemma_budget_take(rds: Seq<Seq<Option<Seq<u8>>>>, i: int)
    requires
        0 <= i < rds.len(),
    ensures
        total_budget(rds.take(i + 1)) == total_budget(rds.take(i)) + record_budget(rds[i]),
{
    assert(rds.take(i + 1).drop_last() =~= rds.take(i));
    assert(rds.take(i + 1).last() == rds[i]);
}

/// Record budgets only add up.
proof fn lemma_budget_monotone(rds: Seq<Seq<Option<Seq<u8>>>>, i: int)
    requires
        0 <= i <= rds.len(),
        forall|m: int| 0 <= m < rds.len() ==> 0 <= record_budget(#[trigger] rds[m]),
    ensures
        total_budget(rds.take(i)) <= total_budget(rds),
    decreases rds.len() - i,
{
    if i < rds.len() {
        lemma_budget_take(rds, i);
        lemma_budget_monotone(rds, i + 1);
    } else {
        assert(rds.take(i) =~= rds);
    }
}

impl crate::stats::Stats {
    /// Builds the aggregate statistics for a whole corpus: each record is
    /// extracted under the threshold and its outcomes merged, first record to
    /// last. Fail-fast: the first record that cannot be extracted aborts the
    /// run with its error, and no store is produced. Succeeds exactly when
    /// every record extracts cleanly.
    pub fn aggregate(min_elo: u64, records: &Vec<Vec<Option<&[u8]>>>) -> (r: Result<
        crate::stats::Stats,
        StatsError,
    >)
        requires
            forall|i: int|
                0 <= i < records.deep_view().len() ==> (#[trigger] records.deep_view()[i]).len()
                    >= 7,
            total_budget(records.deep_view()) <= u32::MAX,
            forall|i: int|
                0 <= i < records.deep_view().len() ==> 0 <= record_budget(
                    #[trigger] records.deep_view()[i],
                ),
        ensures
            match r {
                Ok(s) => s.wf() && !s.sorted_flag() && s.entries() == agg_entries(
                    min_elo,
                    records.deep_view(),
                ) && (forall|i: int|
                    0 <= i < records.deep_view().len() ==> extract_ok(
                        min_elo,
                        #[trigger] records.deep_view()[i],
                    )),
                Err(e) => exists|i: int|
                    {
                        &&& #[trigger] fails_first_at(min_elo, records.deep_view(), i)
                        &&& ((e is Team) <==> first_error_is_shape(records.deep_view()[i]))
                        &&& ((e is JSON) <==> !first_error_is_shape(records.deep_view()[i]))
                    },
            },
    {
        let ghost rds = records.deep_view();
        proof {
            assert forall|i: int|
                0 <= i < rds.len() implies #[trigger] rds[i] == records@[i].deep_view() by {}
        }
        let mut stats = crate::stats::Stats::new();
        proof {
            assert(agg_entries(min_elo, rds.take(0)) =~= Seq::<(Seq<char>, (u32, u32))>::empty());
        }
        let n = records.len();
        let mut idx: usize = 0;
        while idx < n
            invariant
                idx <= n,
                n == rds.len(),
                rds == records.deep_view(),
                forall|i: int| 0 <= i < rds.len() ==> (#[trigger] rds[i]).len() >= 7,
                total_budget(rds) <= u32::MAX,
                forall|i: int| 0 <= i < rds.len() ==> 0 <= record_budget(#[trigger] rds[i]),
                forall|i: int| 0 <= i < rds.len() ==> rds[i] == records@[i].deep_view(),
                stats.wf(),
                !stats.sorted_flag(),
                stats.entries() == agg_entries(min_elo, rds.take(idx as int)),
                forall|m: int| 0 <= m < idx ==> extract_ok(min_elo, #[trigger] rds[m]),
                forall|e: int|
                    0 <= e < stats.entries().len() ==> (#[trigger] stats.entries()[e]).1.0
                        <= total_budget(rds.take(idx as int)),
            decreases n - idx,
        {
            let rec = &records[idx];
            proof {
                assert(rec.deep_view() == rds[idx as int]);
                assert(rec@.len() == rds[idx as int].len());
            }
            let res = match crate::stats::Stats::process_json(min_elo, rec) {
                Ok(v) => v,
                Err(e) => {
                    proof {
                        assert(fails_first_at(min_elo, rds, idx as int));
                    }
                    return Err(e);
                },
            };
            let ghost pre = stats.entries();
            let ghost rs = res.deep_view();
            proof {
                lemma_extract_results_len(min_elo, rds[idx as int]);
                lemma_budget_take(rds, idx as int);
                lemma_budget_monotone(rds, idx as int + 1);
                assert forall|m: int|
                    0 <= m < rds.take(idx as int).len() implies 0 <= record_budget(
                    #[trigger] rds.take(idx as int)[m],
                ) by {
                    assert(rds.take(idx as int)[m] == rds[m]);
                }
                lemma_total_budget_nonneg(rds.take(idx as int));
                assert(rs.len() == res@.len());
                assert(rs.len() <= record_budget(rds[idx as int]));
                assert(total_budget(rds.take(idx as int + 1)) <= u32::MAX);
                assert(rs.len() <= u32::MAX);
            }
            stats.add_game_results(res);
            proof {
                assert(stats.entries() == crate::stats::merged(pre, rs));
                assert(rds.take(idx as int + 1).drop_last() =~= rds.take(idx as int));
                assert(rds.take(idx as int + 1).last() == rds[idx as int]);
                crate::stats::lemma_merged_counts(pre, rs);
                let post = stats.entries();
                assert forall|e: int|
                    0 <= e < post.len() implies (#[trigger] post[e]).1.0 <= total_budget(
                    rds.take(idx as int + 1),
                ) by {
                    crate::stats::lemma_val_at(post, e);
                    crate::stats::lemma_counts_bounds(rs, post[e].0);
                    if crate::ranking::has_key(pre, post[e].0) {
                        let m = choose|m: int|
                            0 <= m < pre.len() && (#[trigger] pre[m]).0 == post[e].0;
                        crate::stats::lemma_val_at(pre, m);
                    } else {
                        assert(crate::ranking::has_key(post, post[e].0));
                        assert(crate::stats::count_games(rs, post[e].0) > 0);
                    }
                }
            }
            idx += 1;
        }
        proof {
            assert(rds.take(n as int) =~= rds);
        }
        Ok(stats)
    }
}

} // verus!
