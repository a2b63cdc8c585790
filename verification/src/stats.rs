//! The aggregate store: insertion-ordered win/game counters per canonical
//! species, grown one record's results at a time by `add_game_results`.
use crate::outside::imap_get;
use crate::outside::imap_get_index;
use crate::outside::imap_insert;
use crate::outside::imap_sort_by_deviations;
use crate::outside::imap_len;
use crate::outside::imap_new;
use crate::outside::map_entries;
use vstd::prelude::*;

verus! {

/// Win/loss counters for one canonical species.
#[derive(Clone, Copy, Debug, PartialEq, Eq, Structural)]
pub struct PokemonStats {
    pub games: u32,
    pub wins: u32,
}

/// One game outcome: a canonical species and whether its side won.
#[derive(Debug)]
pub struct GameResult {
    species: String,
    won: bool,
}

impl View for GameResult {
    type V = (Seq<char>, bool);

    closed spec fn view(&self) -> (Seq<char>, bool) {
        (self.species@, self.won)
    }
}

impl DeepView for GameResult {
    type V = (Seq<char>, bool);

    open spec fn deep_view(&self) -> (Seq<char>, bool) {
        self@
    }
}

impl GameResult {
    pub fn new(species: String, won: bool) -> (r: GameResult)
        ensures
            r@ == (species@, won),
    {
        GameResult { species, won }
    }

    pub fn species(&self) -> (r: &String)
        ensures
            r@ == self@.0,
    {
        &self.species
    }

    pub fn won(&self) -> (r: bool)
        ensures
            r == self@.1,
    {
        self.won
    }
}

/// A failure of record extraction: a malformed team blob, or a per-creature
/// entry that the JSON field extractor refuses.
#[derive(Debug)]
pub enum StatsError {
    Team(String),
    JSON(pikkr_annika::Error),
}

/// Valid counters: a stored species has played at least one game and cannot
/// have won more games than it has played.
pub open spec fn counters_wf(c: (u32, u32)) -> bool {
    0 < c.0 && c.1 <= c.0
}

/// Counters after recording one more game for an existing entry.
pub open spec fn bumped(c: (u32, u32), won: bool) -> (u32, u32) {
    (((c.0 + 1) as u32), ((c.1 + if won {
        1int
    } else {
        0int
    }) as u32))
}

/// The store entries after recording one game outcome: an existing species
/// keeps its place and its counters grow, a new one is appended with one game.
pub open spec fn bump(
    es: Seq<(Seq<char>, (u32, u32))>,
    sp: Seq<char>,
    won: bool,
) -> Seq<(Seq<char>, (u32, u32))> {
    if exists|i: int| 0 <= i < es.len() && (#[trigger] es[i]).0 == sp {
        let i = choose|i: int| 0 <= i < es.len() && (#[trigger] es[i]).0 == sp;
        es.update(i, (sp, bumped(es[i].1, won)))
    } else {
        es.push((sp, (1u32, if won {
            1u32
        } else {
            0u32
        })))
    }
}

/// The store entries after merging a whole result sequence, first to last.
pub open spec fn merged(
    es: Seq<(Seq<char>, (u32, u32))>,
    rs: Seq<(Seq<char>, bool)>,
) -> Seq<(Seq<char>, (u32, u32))>
    decreases rs.len(),
{
    if rs.len() == 0 {
        es
    } else {
        merged(bump(es, rs[0].0, rs[0].1), rs.drop_first())
    }
}

/// The species names of some entries are pairwise distinct.
pub open spec fn distinct_keys(es: Seq<(Seq<char>, (u32, u32))>) -> bool {
    forall|i: int, j: int| 0 <= i < j < es.len() ==> es[i].0 != es[j].0
}

/// Every counter pair of some entries is valid.
pub open spec fn all_counters_wf(es: Seq<(Seq<char>, (u32, u32))>) -> bool {
    forall|i: int| 0 <= i < es.len() ==> counters_wf((#[trigger] es[i]).1)
}

/// The aggregate statistics store.
#[derive(Debug)]
pub struct Stats {
    pokemon: indexmap::IndexMap<String, (u32, u32)>,
    is_sorted: bool,
}

impl Stats {
    /// The stored entries, in order: species name and `(games, wins)`.
    pub closed spec fn entries(&self) -> Seq<(Seq<char>, (u32, u32))> {
        map_entries(self.pokemon)
    }

    /// Whether the store remembers that its entries are already ranked.
    pub closed spec fn sorted_flag(&self) -> bool {
        self.is_sorted
    }

    /// The store invariant: distinct species, valid counters, and a raised
    /// sorted flag only on a store in ranked order.
    pub open spec fn wf(&self) -> bool {
        &&& distinct_keys(self.entries())
        &&& all_counters_wf(self.entries())
        &&& (self.sorted_flag() ==> self.entries() == crate::ranking::sort_by_deviations(
            self.entries(),
        ))
    }

    /// Creates an empty store.
    pub fn new() -> (r: Stats)
        ensures
            r.wf(),
            r.entries() == Seq::<(Seq<char>, (u32, u32))>::empty(),
            !r.sorted_flag(),
    {
        Stats { pokemon: imap_new(), is_sorted: false }
    }

    /// The number of distinct species in the store.
    pub fn len(&self) -> (n: usize)
        ensures
            n == self.entries().len(),
    {
        imap_len(&self.pokemon)
    }

    /// Merges one record's results into the store: each outcome increments
    /// its species' game counter and, on a win, its win counter; a species
    /// not seen before is appended with one game. An empty result sequence
    /// leaves the store unchanged, sorted flag included.
    pub fn add_game_results(&mut self, results: Vec<GameResult>)
        requires
            old(self).wf(),
            results@.len() <= u32::MAX,
            forall|i: int|
                0 <= i < old(self).entries().len() ==> (#[trigger] old(self).entries()[i]).1.0
                    + results@.len() <= u32::MAX,
        ensures
            final(self).wf(),
            final(self).entries() == merged(old(self).entries(), results.deep_view()),
            final(self).sorted_flag() == (old(self).sorted_flag() && results@.len() == 0),
    {
        if results.is_empty() {
            assert(results.deep_view() =~= Seq::<(Seq<char>, bool)>::empty());
            return ;
        }
        self.is_sorted = false;
        let ghost rs = results.deep_view();
        let ghost all = results@.len() as int;
        let mut idx: usize = 0;
        while idx < results.len()
            invariant
                idx <= results.len(),
                results@.len() == all,
                all <= u32::MAX,
                rs == results.deep_view(),
                rs.len() == all,
                self.entries() == merged(old(self).entries(), rs.take(idx as int)),
                distinct_keys(self.entries()),
                all_counters_wf(self.entries()),
                forall|i: int|
                    0 <= i < self.entries().len() ==> (#[trigger] self.entries()[i]).1.0 + (all
                        - idx) <= u32::MAX,
                !self.is_sorted,
            decreases results.len() - idx,
        {
            let r = &results[idx];
            let ghost pre = self.entries();
            let won: u32 = if r.won {
                1
            } else {
                0
            };
            match imap_get(&self.pokemon, &r.species) {
                Some(c) => {
                    let ghost i = choose|i: int|
                        0 <= i < pre.len() && (#[trigger] pre[i]).0 == r.species@;
                    assert(pre[i] == (r.species@, c));
                    imap_insert(&mut self.pokemon, r.species.clone(), (c.0 + 1, c.1 + won));
                    proof {
                        assert(self.entries() =~= bump(pre, rs[idx as int].0, rs[idx as int].1));
                    }
                },
                None => {
                    imap_insert(&mut self.pokemon, r.species.clone(), (1, won));
                    proof {
                        assert(self.entries() =~= bump(pre, rs[idx as int].0, rs[idx as int].1));
                    }
                },
            }
            proof {
                lemma_merged_take_step(old(self).entries(), rs, idx as int);
                assert(rs.take(idx as int + 1) == rs.take(idx as int).push(rs[idx as int]));
                let post = self.entries();
                let sp = rs[idx as int].0;
                assert forall|i: int|
                    0 <= i < post.len() implies (#[trigger] post[i]).1.0 + (all - idx - 1)
                    <= u32::MAX by {
                    if exists|j: int| 0 <= j < pre.len() && (#[trigger] pre[j]).0 == sp {
                        let j = choose|j: int| 0 <= j < pre.len() && (#[trigger] pre[j]).0 == sp;
                        assert(post == pre.update(j, (sp, bumped(pre[j].1, rs[idx as int].1))));
                        if i != j {
                            assert(post[i] == pre[i]);
                        }
                    } else {
                        if i < pre.len() {
                            assert(post[i] == pre[i]);
                        }
                    }
                };
            }
            idx += 1;
        }
        proof {
            assert(rs.take(all) =~= rs);
        }
    }
}

impl Stats {
    /// Ranks the store: a stable sort, descending by deviations. A store that
    /// is already ranked is left untouched.
    pub fn sort(&mut self)
        requires
            old(self).wf(),
        ensures
            final(self).wf(),
            final(self).entries() == crate::ranking::sort_by_deviations(old(self).entries()),
            final(self).sorted_flag(),
    {
        if !self.is_sorted {
            imap_sort_by_deviations(&mut self.pokemon);
            self.is_sorted = true;
            proof {
                crate::ranking::lemma_sort_props(old(self).entries());
                crate::ranking::lemma_sort_of_sorted(self.entries());
            }
        }
    }

    /// Whether the store is known to be in ranked order already.
    pub fn sorted(&self) -> (r: bool)
        ensures
            r == self.sorted_flag(),
    {
        self.is_sorted
    }

    /// Reads the entry at one rank slot: the species name and its counters.
    pub fn get_entry(&self, i: usize) -> (r: (String, PokemonStats))
        requires
            i < self.entries().len(),
        ensures
            r.0@ == self.entries()[i as int].0,
            r.1.games == self.entries()[i as int].1.0,
            r.1.wins == self.entries()[i as int].1.1,
    {
        match imap_get_index(&self.pokemon, i) {
            Some(p) => (p.0, PokemonStats { games: p.1.0, wins: p.1.1 }),
            None => vstd::pervasive::unreached(),
        }
    }
}

/// How often a species occurs in a result sequence.
pub open spec fn count_games(rs: Seq<(Seq<char>, bool)>, k: Seq<char>) -> nat
    decreases rs.len(),
{
    if rs.len() == 0 {
        0
    } else {
        (if rs[0].0 == k {
            1nat
        } else {
            0nat
        }) + count_games(rs.drop_first(), k)
    }
}

/// How often a species occurs winning in a result sequence.
pub open spec fn count_wins(rs: Seq<(Seq<char>, bool)>, k: Seq<char>) -> nat
    decreases rs.len(),
{
    if rs.len() == 0 {
        0
    } else {
        (if rs[0].0 == k && rs[0].1 {
            1nat
        } else {
            0nat
        }) + count_wins(rs.drop_first(), k)
    }
}

/// The counters stored for a species.
pub open spec fn val_of(es: Seq<(Seq<char>, (u32, u32))>, k: Seq<char>) -> (u32, u32) {
    es[choose|i: int| 0 <= i < es.len() && (#[trigger] es[i]).0 == k].1
}

/// The store read as a map from species to counters, forgetting the order.
pub open spec fn entry_map(es: Seq<(Seq<char>, (u32, u32))>) -> Map<Seq<char>, (u32, u32)> {
    Map::new(|k: Seq<char>| crate::ranking::has_key(es, k), |k: Seq<char>| val_of(es, k))
}

/// Occurrence counts never exceed the sequence length, and wins never exceed
/// occurrences.
pub proof fn lemma_counts_bounds(rs: Seq<(Seq<char>, bool)>, k: Seq<char>)
    ensures
        count_wins(rs, k) <= count_games(rs, k) <= rs.len(),
    decreases rs.len(),
{
    if rs.len() > 0 {
        lemma_counts_bounds(rs.drop_first(), k);
    }
}

/// With distinct keys, the stored value of a present key is the value at its
/// single slot.
pub proof fn lemma_val_at(es: Seq<(Seq<char>, (u32, u32))>, i: int)
    requires
        distinct_keys(es),
        0 <= i < es.len(),
    ensures
        val_of(es, es[i].0) == es[i].1,
{
    let j = choose|j: int| 0 <= j < es.len() && (#[trigger] es[j]).0 == es[i].0;
    assert(j == i);
}

/// What one bump does to the store read as a map.
proof fn lemma_bump_facts(es: Seq<(Seq<char>, (u32, u32))>, sp: Seq<char>, won: bool)
    requires
        distinct_keys(es),
    ensures
        distinct_keys(bump(es, sp, won)),
        forall|k: Seq<char>| #[trigger]
            crate::ranking::has_key(bump(es, sp, won), k) == (crate::ranking::has_key(es, k) || k
                == sp),
        crate::ranking::has_key(es, sp) ==> val_of(bump(es, sp, won), sp) == bumped(
            val_of(es, sp),
            won,
        ),
        !crate::ranking::has_key(es, sp) ==> val_of(bump(es, sp, won), sp) == (1u32, if won {
            1u32
        } else {
            0u32
        }),
        forall|k: Seq<char>|
            k != sp && #[trigger] crate::ranking::has_key(es, k) ==> val_of(bump(es, sp, won), k)
                == val_of(es, k),
        bump(es, sp, won).len() == es.len() + (if crate::ranking::has_key(es, sp) {
            0int
        } else {
            1int
        }),
{
    let b = bump(es, sp, won);
    if exists|i: int| 0 <= i < es.len() && (#[trigger] es[i]).0 == sp {
        let i = choose|i: int| 0 <= i < es.len() && (#[trigger] es[i]).0 == sp;
        assert(b == es.update(i, (sp, bumped(es[i].1, won))));
        assert(crate::ranking::has_key(es, sp));
        assert forall|k: Seq<char>| #[trigger]
            crate::ranking::has_key(b, k) == (crate::ranking::has_key(es, k) || k == sp) by {
            if crate::ranking::has_key(b, k) {
                let m = choose|m: int| 0 <= m < b.len() && (#[trigger] b[m]).0 == k;
                if m != i {
                    assert(es[m].0 == k);
                }
            }
            if crate::ranking::has_key(es, k) {
                let m = choose|m: int| 0 <= m < es.len() && (#[trigger] es[m]).0 == k;
                if m != i {
                    assert(b[m].0 == k);
                } else {
                    assert(b[i].0 == sp);
                }
            }
            if k == sp {
                assert(b[i].0 == k);
            }
        }
        assert forall|a: int, c: int| 0 <= a < c < b.len() implies b[a].0 != b[c].0 by {
            assert(b[a].0 == es[a].0 && b[c].0 == es[c].0);
        }
        assert(val_of(b, sp) == bumped(val_of(es, sp), won)) by {
            lemma_val_at(es, i);
            assert(b[i].0 == sp);
            lemma_val_at(b, i);
        }
        assert forall|k: Seq<char>|
            k != sp && #[trigger] crate::ranking::has_key(es, k) implies val_of(b, k) == val_of(
            es,
            k,
        ) by {
            let m = choose|m: int| 0 <= m < es.len() && (#[trigger] es[m]).0 == k;
            lemma_val_at(es, m);
            assert(b[m] == es[m]);
            lemma_val_at(b, m);
        }
    } else {
        assert(b == es.push((sp, (1u32, if won {
            1u32
        } else {
            0u32
        }))));
        assert(!crate::ranking::has_key(es, sp));
        assert forall|k: Seq<char>| #[trigger]
            crate::ranking::has_key(b, k) == (crate::ranking::has_key(es, k) || k == sp) by {
            if crate::ranking::has_key(b, k) {
                let m = choose|m: int| 0 <= m < b.len() && (#[trigger] b[m]).0 == k;
                if m < es.len() {
                    assert(es[m].0 == k);
                }
            }
            if crate::ranking::has_key(es, k) {
                let m = choose|m: int| 0 <= m < es.len() && (#[trigger] es[m]).0 == k;
                assert(b[m].0 == k);
            }
            if k == sp {
                assert(b[es.len() as int].0 == k);
            }
        }
        assert forall|a: int, c: int| 0 <= a < c < b.len() implies b[a].0 != b[c].0 by {
            if c < es.len() {
                assert(b[a].0 == es[a].0 && b[c].0 == es[c].0);
            } else {
                assert(b[c].0 == sp && b[a].0 == es[a].0);
            }
        }
        assert(val_of(b, sp) == (1u32, if won {
            1u32
        } else {
            0u32
        })) by {
            assert(b[es.len() as int].0 == sp);
            lemma_val_at(b, es.len() as int);
        }
        assert forall|k: Seq<char>|
            k != sp && #[trigger] crate::ranking::has_key(es, k) implies val_of(b, k) == val_of(
            es,
            k,
        ) by {
            let m = choose|m: int| 0 <= m < es.len() && (#[trigger] es[m]).0 == k;
            lemma_val_at(es, m);
            assert(b[m] == es[m]);
            lemma_val_at(b, m);
        }
    }
}

/// The merged store, key by key: games grow by the occurrence count, wins by
/// the win count, and a fresh species starts from those counts.
pub proof fn lemma_merged_counts(es: Seq<(Seq<char>, (u32, u32))>, rs: Seq<(Seq<char>, bool)>)
    requires
        distinct_keys(es),
        forall|i: int|
            0 <= i < es.len() ==> (#[trigger] es[i]).1.0 + rs.len() <= u32::MAX && es[i].1.1
                + rs.len() <= u32::MAX,
        rs.len() <= u32::MAX,
    ensures
        distinct_keys(merged(es, rs)),
        forall|k: Seq<char>| #[trigger]
            crate::ranking::has_key(merged(es, rs), k) == (crate::ranking::has_key(es, k)
                || count_games(rs, k) > 0),
        forall|k: Seq<char>| #[trigger]
            crate::ranking::has_key(es, k) ==> val_of(merged(es, rs), k).0 == val_of(es, k).0
                + count_games(rs, k) && val_of(merged(es, rs), k).1 == val_of(es, k).1
                + count_wins(rs, k),
        forall|k: Seq<char>|
            !crate::ranking::has_key(es, k) && #[trigger] count_games(rs, k) > 0 ==> val_of(
                merged(es, rs),
                k,
            ).0 == count_games(rs, k) && val_of(merged(es, rs), k).1 == count_wins(rs, k),
    decreases rs.len(),
{
    if rs.len() > 0 {
        let sp = rs[0].0;
        let won = rs[0].1;
        let b = bump(es, sp, won);
        let rest = rs.drop_first();
        lemma_bump_facts(es, sp, won);
        assert forall|i: int|
            0 <= i < b.len() implies (#[trigger] b[i]).1.0 + rest.len() <= u32::MAX && b[i].1.1
            + rest.len() <= u32::MAX by {
            lemma_val_at(b, i);
            if crate::ranking::has_key(es, b[i].0) {
                let m = choose|m: int| 0 <= m < es.len() && (#[trigger] es[m]).0 == b[i].0;
                lemma_val_at(es, m);
                if b[i].0 == sp {
                    assert(val_of(b, b[i].0) == bumped(es[m].1, won));
                } else {
                    assert(val_of(b, b[i].0) == es[m].1);
                }
            } else {
                assert(b[i].0 == sp);
            }
        }
        lemma_merged_counts(b, rest);
        assert(merged(es, rs) == merged(b, rest));
        assert forall|k: Seq<char>| #[trigger]
            crate::ranking::has_key(merged(es, rs), k) == (crate::ranking::has_key(es, k)
                || count_games(rs, k) > 0) by {
            lemma_counts_bounds(rest, k);
            if k == sp {
                assert(count_games(rs, k) > 0);
                assert(crate::ranking::has_key(b, k));
            }
        }
        assert forall|k: Seq<char>| #[trigger]
            crate::ranking::has_key(es, k) implies val_of(merged(es, rs), k).0 == val_of(es, k).0
            + count_games(rs, k) && val_of(merged(es, rs), k).1 == val_of(es, k).1 + count_wins(
            rs,
            k,
        ) by {
            lemma_counts_bounds(rest, k);
            assert(crate::ranking::has_key(b, k));
            let m = choose|m: int| 0 <= m < es.len() && (#[trigger] es[m]).0 == k;
            lemma_val_at(es, m);
            if k == sp {
                assert(val_of(b, k) == bumped(val_of(es, k), won));
            } else {
                assert(val_of(b, k) == val_of(es, k));
            }
        }
        assert forall|k: Seq<char>|
            !crate::ranking::has_key(es, k) && #[trigger] count_games(rs, k) > 0 implies val_of(
            merged(es, rs),
            k,
        ).0 == count_games(rs, k) && val_of(merged(es, rs), k).1 == count_wins(rs, k) by {
            lemma_counts_bounds(rest, k);
            if k == sp {
                assert(crate::ranking::has_key(b, k));
                assert(val_of(b, k) == (1u32, if won {
                    1u32
                } else {
                    0u32
                }));
            } else {
                assert(!crate::ranking::has_key(b, k));
            }
        }
    }
}

/// Merging an empty result sequence is a no-op.
pub proof fn lemma_merged_empty(es: Seq<(Seq<char>, (u32, u32))>)
    ensures
        merged(es, Seq::empty()) == es,
{
}

/// Merging a concatenation of result batches equals merging them in turn.
pub proof fn lemma_merged_concat(
    es: Seq<(Seq<char>, (u32, u32))>,
    rs1: Seq<(Seq<char>, bool)>,
    rs2: Seq<(Seq<char>, bool)>,
)
    ensures
        merged(es, rs1 + rs2) == merged(merged(es, rs1), rs2),
    decreases rs1.len(),
{
    if rs1.len() == 0 {
        assert(rs1 + rs2 =~= rs2);
    } else {
        assert((rs1 + rs2)[0] == rs1[0]);
        assert((rs1 + rs2).drop_first() =~= rs1.drop_first() + rs2);
        lemma_merged_concat(bump(es, rs1[0].0, rs1[0].1), rs1.drop_first(), rs2);
        assert(merged(es, rs1 + rs2) == merged(bump(es, rs1[0].0, rs1[0].1), (rs1
            + rs2).drop_first()));
    }
}

/// Merging is order-independent: two result batches merged one way or the
/// other leave the same species-to-counters map, whatever their order or
/// split; only the insertion order of first encounters may differ.
pub proof fn lemma_merge_order_independent(
    es: Seq<(Seq<char>, (u32, u32))>,
    rs1: Seq<(Seq<char>, bool)>,
    rs2: Seq<(Seq<char>, bool)>,
)
    requires
        distinct_keys(es),
        forall|i: int|
            0 <= i < es.len() ==> (#[trigger] es[i]).1.0 + rs1.len() + rs2.len() <= u32::MAX && es[i].1.1
                + rs1.len() + rs2.len() <= u32::MAX,
        rs1.len() + rs2.len() <= u32::MAX,
    ensures
        entry_map(merged(merged(es, rs1), rs2)) == entry_map(merged(merged(es, rs2), rs1)),
{
    lemma_merge_side(es, rs1, rs2);
    lemma_merge_side(es, rs2, rs1);
    let a = merged(merged(es, rs1), rs2);
    let b = merged(merged(es, rs2), rs1);
    assert forall|k: Seq<char>| #[trigger]
        crate::ranking::has_key(a, k) == crate::ranking::has_key(b, k) by {}
    assert(entry_map(a) =~= entry_map(b)) by {
        assert forall|k: Seq<char>| #[trigger]
            entry_map(a).dom().contains(k) == entry_map(b).dom().contains(k) by {}
        assert forall|k: Seq<char>| entry_map(a).dom().contains(k) implies #[trigger] entry_map(
            a,
        )[k] == entry_map(b)[k] by {
            lemma_counts_bounds(rs1, k);
            lemma_counts_bounds(rs2, k);
        }
    }
}

/// One side of the order-independence argument: two batches merged in turn
/// count like their concatenation.
proof fn lemma_merge_side(
    es: Seq<(Seq<char>, (u32, u32))>,
    rs1: Seq<(Seq<char>, bool)>,
    rs2: Seq<(Seq<char>, bool)>,
)
    requires
        distinct_keys(es),
        forall|i: int|
            0 <= i < es.len() ==> (#[trigger] es[i]).1.0 + rs1.len() + rs2.len() <= u32::MAX && es[i].1.1
                + rs1.len() + rs2.len() <= u32::MAX,
        rs1.len() + rs2.len() <= u32::MAX,
    ensures
        distinct_keys(merged(merged(es, rs1), rs2)),
        forall|k: Seq<char>| #[trigger]
            crate::ranking::has_key(merged(merged(es, rs1), rs2), k) == (crate::ranking::has_key(
                es,
                k,
            ) || count_games(rs1, k) > 0 || count_games(rs2, k) > 0),
        forall|k: Seq<char>| #[trigger]
            crate::ranking::has_key(es, k) ==> val_of(merged(merged(es, rs1), rs2), k).0 == val_of(
                es,
                k,
            ).0 + count_games(rs1, k) + count_games(rs2, k) && val_of(
                merged(merged(es, rs1), rs2),
                k,
            ).1 == val_of(es, k).1 + count_wins(rs1, k) + count_wins(rs2, k),
        forall|k: Seq<char>|
            !crate::ranking::has_key(es, k) && (#[trigger] count_games(rs1, k) + count_games(
                rs2,
                k,
            )) > 0 ==> val_of(merged(merged(es, rs1), rs2), k).0 == count_games(rs1, k)
                + count_games(rs2, k) && val_of(merged(merged(es, rs1), rs2), k).1 == count_wins(
                rs1,
                k,
            ) + count_wins(rs2, k),
{
    lemma_merged_counts(es, rs1);
    let m1 = merged(es, rs1);
    assert forall|i: int|
        0 <= i < m1.len() implies (#[trigger] m1[i]).1.0 + rs2.len() <= u32::MAX && m1[i].1.1
        + rs2.len() <= u32::MAX by {
        lemma_val_at(m1, i);
        lemma_counts_bounds(rs1, m1[i].0);
        assert(crate::ranking::has_key(m1, m1[i].0));
        if crate::ranking::has_key(es, m1[i].0) {
            let m = choose|m: int| 0 <= m < es.len() && (#[trigger] es[m]).0 == m1[i].0;
            lemma_val_at(es, m);
            assert(val_of(m1, m1[i].0).0 == val_of(es, m1[i].0).0 + count_games(rs1, m1[i].0));
        } else {
            assert(count_games(rs1, m1[i].0) > 0);
            assert(val_of(m1, m1[i].0).0 == count_games(rs1, m1[i].0));
        }
    }
    lemma_merged_counts(m1, rs2);
    assert forall|k: Seq<char>| #[trigger]
        crate::ranking::has_key(es, k) implies val_of(merged(m1, rs2), k).0 == val_of(es, k).0
        + count_games(rs1, k) + count_games(rs2, k) && val_of(merged(m1, rs2), k).1 == val_of(
        es,
        k,
    ).1 + count_wins(rs1, k) + count_wins(rs2, k) by {
        lemma_counts_bounds(rs1, k);
        lemma_counts_bounds(rs2, k);
        assert(crate::ranking::has_key(m1, k));
    }
    assert forall|k: Seq<char>|
        !crate::ranking::has_key(es, k) && (#[trigger] count_games(rs1, k) + count_games(rs2, k))
        > 0 implies val_of(merged(m1, rs2), k).0 == count_games(rs1, k) + count_games(rs2, k)
        && val_of(merged(m1, rs2), k).1 == count_wins(rs1, k) + count_wins(rs2, k) by {
        lemma_counts_bounds(rs1, k);
        lemma_counts_bounds(rs2, k);
        if count_games(rs1, k) > 0 {
            assert(crate::ranking::has_key(m1, k));
        } else {
            assert(!crate::ranking::has_key(m1, k));
        }
    }
}

/// Merging one more result equals bumping the already merged entries.
proof fn lemma_merged_take_step(
    es: Seq<(Seq<char>, (u32, u32))>,
    rs: Seq<(Seq<char>, bool)>,
    i: int,
)
    requires
        0 <= i < rs.len(),
    ensures
        merged(es, rs.take(i + 1)) == bump(merged(es, rs.take(i)), rs[i].0, rs[i].1),
{
    lemma_merged_push(es, rs.take(i), rs[i]);
    assert(rs.take(i).push(rs[i]) =~= rs.take(i + 1));
}

/// Folding one appended result after the rest equals bumping at the end.
proof fn lemma_merged_push(
    es: Seq<(Seq<char>, (u32, u32))>,
    rs: Seq<(Seq<char>, bool)>,
    x: (Seq<char>, bool),
)
    ensures
        merged(es, rs.push(x)) == bump(merged(es, rs), x.0, x.1),
    decreases rs.len(),
{
    if rs.len() == 0 {
        assert(rs.push(x)[0] == x);
        assert(rs.push(x).drop_first() =~= Seq::<(Seq<char>, bool)>::empty());
        assert(merged(es, rs.push(x)) == merged(bump(es, x.0, x.1), rs.push(x).drop_first()));
        assert(merged(bump(es, x.0, x.1), rs.push(x).drop_first()) == bump(es, x.0, x.1));
        assert(merged(es, rs) == es);
    } else {
        assert(rs.push(x)[0] == rs[0]);
        assert(rs.push(x).drop_first() =~= rs.drop_first().push(x));
        assert(merged(es, rs.push(x)) == merged(
            bump(es, rs[0].0, rs[0].1),
            rs.drop_first().push(x),
        ));
        lemma_merged_push(bump(es, rs[0].0, rs[0].1), rs.drop_first(), x);
        assert(merged(es, rs) == merged(bump(es, rs[0].0, rs[0].1), rs.drop_first()));
    }
}

} // verus!
