//! Report rendering. The serialized form is one line per ranked entry —
//! species, games, wins, winrate, deviations, comma-separated, lines joined
//! by single newlines with no trailing newline. The human-readable form is a
//! bordered table. The winrate and deviations columns are decimal texts that
//! the caller derives from the counters; everything else comes from the store.
use crate::numbers::dec_str;
use crate::numbers::u64_to_string;
use crate::outside::render_table;
use crate::outside::table_text;
use crate::stats::Stats;
use vstd::prelude::*;
use vstd::string::StrSliceExecFns;
use vstd::string::StringExecFns;

verus! {

/// The derived per-species report columns, already rendered as decimal text:
/// the winrate percentage and the deviations score.
pub struct FinalStats {
    pub winrate: String,
    pub deviations: String,
}

impl View for FinalStats {
    type V = (Seq<char>, Seq<char>);

    open spec fn view(&self) -> (Seq<char>, Seq<char>) {
        (self.winrate@, self.deviations@)
    }
}

impl DeepView for FinalStats {
    type V = (Seq<char>, Seq<char>);

    open spec fn deep_view(&self) -> (Seq<char>, Seq<char>) {
        self@
    }
}

/// One serialized line: species, games, wins, winrate, deviations.
pub open spec fn csv_line(e: (Seq<char>, (u32, u32)), f: (Seq<char>, Seq<char>)) -> Seq<char> {
    e.0 + seq![','] + dec_str(e.1.0 as nat) + seq![','] + dec_str(e.1.1 as nat) + seq![','] + f.0
        + seq![','] + f.1
}

/// The serialized lines from entry `i` on, joined by newlines.
pub open spec fn csv_from(
    es: Seq<(Seq<char>, (u32, u32))>,
    fs: Seq<(Seq<char>, Seq<char>)>,
    i: int,
) -> Seq<char>
    decreases es.len() - i,
{
    if i < 0 || i >= es.len() {
        Seq::empty()
    } else if i == es.len() - 1 {
        csv_line(es[i], fs[i])
    } else {
        csv_line(es[i], fs[i]) + seq!['\n'] + csv_from(es, fs, i + 1)
    }
}

/// The whole serialized report of a store's entries.
pub open spec fn csv_text(
    es: Seq<(Seq<char>, (u32, u32))>,
    fs: Seq<(Seq<char>, Seq<char>)>,
) -> Seq<char> {
    csv_from(es, fs, 0)
}

impl Stats {
    /// Serializes the ranked entries, one comma-separated line per species:
    /// species (as stored, quotes included), games, wins, then the
    /// caller-derived winrate and deviations texts, in that order, joined by
    /// single newlines with no trailing newline. The store must have been
    /// ranked (`sort`), so the lines come out in rank order.
    pub fn to_csv(&self, finals: &Vec<FinalStats>) -> (r: String)
        requires
            self.wf(),
            self.sorted_flag(),
            finals@.len() == self.entries().len(),
        ensures
            r@ == csv_text(self.entries(), finals.deep_view()),
    {
        let ghost es = self.entries();
        let ghost fs = finals.deep_view();
        proof {
            assert forall|i: int| 0 <= i < fs.len() implies #[trigger] fs[i] == finals@[i]@ by {}
            reveal_strlit(",");
            reveal_strlit("\n");
            assert(","@ =~= seq![',']);
            assert("\n"@ =~= seq!['\n']);
        }
        let n = self.len();
        let mut out = String::new();
        let mut i: usize = 0;
        while i < n
            invariant
                i <= n,
                n == es.len(),
                es == self.entries(),
                fs == finals.deep_view(),
                fs.len() == es.len(),
                finals@.len() == es.len(),
                ","@ == seq![','],
                "\n"@ == seq!['\n'],
                csv_text(es, fs) == out@ + (if i == 0 {
                    csv_from(es, fs, 0)
                } else if i < n {
                    seq!['\n'] + csv_from(es, fs, i as int)
                } else {
                    Seq::<char>::empty()
                }),
            decreases n - i,
        {
            if i > 0 {
                out.append("\n");
            }
            let (species, counters) = self.get_entry(i);
            out.append(species.as_str());
            out.append(",");
            let games = u64_to_string(counters.games as u64);
            out.append(games.as_str());
            out.append(",");
            let wins = u64_to_string(counters.wins as u64);
            out.append(wins.as_str());
            out.append(",");
            out.append(finals[i].winrate.as_str());
            out.append(",");
            out.append(finals[i].deviations.as_str());
            proof {
                assert(csv_from(es, fs, i as int) == csv_line(es[i as int], fs[i as int]) + (if i
                    < n - 1 {
                    seq!['\n'] + csv_from(es, fs, i as int + 1)
                } else {
                    Seq::<char>::empty()
                }));
                assert(csv_text(es, fs) =~= out@ + (if i + 1 == 0 {
                    csv_from(es, fs, 0)
                } else if i + 1 < n {
                    seq!['\n'] + csv_from(es, fs, i as int + 1)
                } else {
                    Seq::<char>::empty()
                }));
            }
            i += 1;
        }
        proof {
            assert(csv_text(es, fs) =~= out@);
        }
        out
    }
}

/// A species name stripped of its surrounding quote characters.
pub open spec fn unquoted(s: Seq<char>) -> Seq<char> {
    if s.len() >= 2 {
        s.subrange(1, s.len() - 1)
    } else {
        s
    }
}

/// The header row of the human-readable table.
pub open spec fn header_row() -> Seq<Seq<char>> {
    seq!["Rank"@, "Pokemon"@, "Deviations"@, "Winrate"@, "Games"@, "Wins"@]
}

/// One table row: 1-based rank, species without quotes, deviations, winrate
/// with a percent sign, games, wins.
pub open spec fn table_row(rank: int, e: (Seq<char>, (u32, u32)), f: (Seq<char>, Seq<char>)) -> Seq<
    Seq<char>,
> {
    seq![
        dec_str(rank as nat),
        unquoted(e.0),
        f.1,
        f.0 + seq!['%'],
        dec_str(e.1.0 as nat),
        dec_str(e.1.1 as nat),
    ]
}

/// The full grid of the human-readable table.
pub open spec fn table_rows(
    es: Seq<(Seq<char>, (u32, u32))>,
    fs: Seq<(Seq<char>, Seq<char>)>,
) -> Seq<Seq<Seq<char>>> {
    seq![header_row()] + Seq::new(es.len(), |i: int| table_row(i + 1, es[i], fs[i]))
}

impl Stats {
    /// Renders the ranked entries as a bordered table with one row per
    /// species under a header row; ranks are 1-based with no gaps, species
    /// lose their surrounding quotes, and the winrate text gains a trailing
    /// percent sign. The store must have been ranked (`sort`), so the rows
    /// come out in rank order.
    pub fn to_human_readable(&self, finals: &Vec<FinalStats>) -> (r: String)
        requires
            self.wf(),
            self.sorted_flag(),
            finals@.len() == self.entries().len(),
            self.entries().len() + 1 <= usize::MAX,
        ensures
            r@ == table_text(table_rows(self.entries(), finals.deep_view())),
    {
        let ghost es = self.entries();
        let ghost fs = finals.deep_view();
        proof {
            assert forall|i: int| 0 <= i < fs.len() implies #[trigger] fs[i] == finals@[i]@ by {}
            reveal_strlit("%");
            assert("%"@ =~= seq!['%']);
        }
        let mut rows: Vec<Vec<String>> = Vec::new();
        let mut header: Vec<String> = Vec::new();
        header.push(String::from_str("Rank"));
        header.push(String::from_str("Pokemon"));
        header.push(String::from_str("Deviations"));
        header.push(String::from_str("Winrate"));
        header.push(String::from_str("Games"));
        header.push(String::from_str("Wins"));
        proof {
            assert(header.deep_view() =~= header_row());
        }
        rows.push(header);
        let n = self.len();
        let mut i: usize = 0;
        while i < n
            invariant
                i <= n,
                n == es.len(),
                es == self.entries(),
                fs == finals.deep_view(),
                fs.len() == es.len(),
                finals@.len() == es.len(),
                n + 1 <= usize::MAX,
                "%"@ == seq!['%'],
                rows.deep_view().len() == i + 1,
                rows.deep_view()[0] == header_row(),
                forall|m: int|
                    0 <= m < i ==> rows.deep_view()[m + 1] == table_row(m + 1, es[m], fs[m]),
            decreases n - i,
        {
            let (species, counters) = self.get_entry(i);
            let mut row: Vec<String> = Vec::new();
            row.push(u64_to_string((i + 1) as u64));
            let l = species.as_str().unicode_len();
            let bare = if l >= 2 {
                species.as_str().substring_char(1, l - 1).to_owned()
            } else {
                species
            };
            row.push(bare);
            row.push(finals[i].deviations.clone());
            let mut rate = finals[i].winrate.clone();
            rate.append("%");
            row.push(rate);
            row.push(u64_to_string(counters.games as u64));
            row.push(u64_to_string(counters.wins as u64));
            proof {
                assert(row.deep_view() =~= table_row(i as int + 1, es[i as int], fs[i as int]));
            }
            rows.push(row);
            i += 1;
        }
        proof {
            assert(rows.deep_view() =~~= table_rows(es, fs));
        }
        render_table(&rows)
    }
}

/// No character of `s` is `c`.
pub open spec fn free_of(s: Seq<char>, c: char) -> bool {
    forall|k: int| 0 <= k < s.len() ==> s[k] != c
}

/// The first position of `c` at or after `i`, or -1 when there is none.
pub open spec fn first_occ(s: Seq<char>, c: char, i: int) -> int
    decreases s.len() - i,
{
    if i < 0 || i >= s.len() {
        -1
    } else if s[i] == c {
        i
    } else {
        first_occ(s, c, i + 1)
    }
}

/// Splitting on `c`: the pieces between occurrences, in order.
pub open spec fn split_char(s: Seq<char>, c: char) -> Seq<Seq<char>>
    decreases s.len(),
{
    let f = first_occ(s, c, 0);
    if f < 0 || f >= s.len() {
        seq![s]
    } else {
        seq![s.take(f)] + split_char(s.skip(f + 1), c)
    }
}

/// The first occurrence is where the scan first finds `c`.
proof fn lemma_first_occ_at(s: Seq<char>, c: char, i: int, m: int)
    requires
        0 <= i <= m < s.len(),
        s[m] == c,
        forall|k: int| i <= k < m ==> s[k] != c,
    ensures
        first_occ(s, c, i) == m,
    decreases m - i,
{
    if i < m {
        lemma_first_occ_at(s, c, i + 1, m);
    }
}

/// A scan over none of `c` finds nothing.
proof fn lemma_first_occ_none(s: Seq<char>, c: char, i: int)
    requires
        0 <= i,
        forall|k: int| i <= k < s.len() ==> s[k] != c,
    ensures
        first_occ(s, c, i) == -1,
    decreases s.len() - i,
{
    if i < s.len() {
        lemma_first_occ_none(s, c, i + 1);
    }
}

/// Splitting takes a `c`-free head off at the first separator.
proof fn lemma_split_head(a: Seq<char>, c: char, rest: Seq<char>)
    requires
        free_of(a, c),
    ensures
        split_char(a + seq![c] + rest, c) == seq![a] + split_char(rest, c),
{
    let s = a + seq![c] + rest;
    assert(s[a.len() as int] == c);
    assert forall|k: int| 0 <= k < a.len() implies s[k] != c by {
        assert(s[k] == a[k]);
    }
    lemma_first_occ_at(s, c, 0, a.len() as int);
    assert(s.take(a.len() as int) =~= a);
    assert(s.skip(a.len() as int + 1) =~= rest);
}

/// Splitting a `c`-free text yields just that text.
proof fn lemma_split_whole(s: Seq<char>, c: char)
    requires
        free_of(s, c),
    ensures
        split_char(s, c) == seq![s],
{
    lemma_first_occ_none(s, c, 0);
}

/// Putting `c`-free texts together keeps them `c`-free.
proof fn lemma_free_concat(a: Seq<char>, b: Seq<char>, c: char)
    requires
        free_of(a, c),
        free_of(b, c),
    ensures
        free_of(a + b, c),
{
    assert forall|k: int| 0 <= k < (a + b).len() implies (a + b)[k] != c by {
        if k < a.len() {
            assert((a + b)[k] == a[k]);
        } else {
            assert((a + b)[k] == b[k - a.len()]);
        }
    }
}

/// Decimal renderings hold digits only, so no separator appears in them.
proof fn lemma_dec_str_free(n: nat, c: char)
    requires
        c != '0' && c != '1' && c != '2' && c != '3' && c != '4' && c != '5' && c != '6' && c
            != '7' && c != '8' && c != '9',
    ensures
        free_of(dec_str(n), c),
    decreases n,
{
    if n < 10 {
    } else {
        lemma_dec_str_free(n / 10, c);
        assert forall|k: int| 0 <= k < dec_str(n).len() implies dec_str(n)[k] != c by {
            if k < dec_str(n / 10).len() {
                assert(dec_str(n)[k] == dec_str(n / 10)[k]);
            }
        }
    }
}

/// One serialized line splits on commas back into its five fields.
proof fn lemma_line_fields(e: (Seq<char>, (u32, u32)), f: (Seq<char>, Seq<char>))
    requires
        free_of(e.0, ','),
        free_of(f.0, ','),
        free_of(f.1, ','),
    ensures
        split_char(csv_line(e, f), ',') == seq![
            e.0,
            dec_str(e.1.0 as nat),
            dec_str(e.1.1 as nat),
            f.0,
            f.1,
        ],
{
    let g = dec_str(e.1.0 as nat);
    let w = dec_str(e.1.1 as nat);
    lemma_dec_str_free(e.1.0 as nat, ',');
    lemma_dec_str_free(e.1.1 as nat, ',');
    let r3 = f.0 + seq![','] + f.1;
    let r2 = w + seq![','] + r3;
    let r1 = g + seq![','] + r2;
    assert(csv_line(e, f) =~= e.0 + seq![','] + r1);
    lemma_split_head(e.0, ',', r1);
    lemma_split_head(g, ',', r2);
    lemma_split_head(w, ',', r3);
    lemma_split_head(f.0, ',', f.1);
    lemma_split_whole(f.1, ',');
    assert(split_char(csv_line(e, f), ',') =~= seq![e.0, g, w, f.0, f.1]);
}

/// A line is newline-free when its fields are.
proof fn lemma_line_newline_free(e: (Seq<char>, (u32, u32)), f: (Seq<char>, Seq<char>))
    requires
        free_of(e.0, '\n'),
        free_of(f.0, '\n'),
        free_of(f.1, '\n'),
    ensures
        free_of(csv_line(e, f), '\n'),
{
    lemma_dec_str_free(e.1.0 as nat, '\n');
    lemma_dec_str_free(e.1.1 as nat, '\n');
    lemma_free_concat(e.0, seq![','], '\n');
    lemma_free_concat(e.0 + seq![','], dec_str(e.1.0 as nat), '\n');
    lemma_free_concat(e.0 + seq![','] + dec_str(e.1.0 as nat), seq![','], '\n');
    lemma_free_concat(e.0 + seq![','] + dec_str(e.1.0 as nat) + seq![','], dec_str(e.1.1 as nat), '\n');
    lemma_free_concat(
        e.0 + seq![','] + dec_str(e.1.0 as nat) + seq![','] + dec_str(e.1.1 as nat),
        seq![','],
        '\n',
    );
    lemma_free_concat(
        e.0 + seq![','] + dec_str(e.1.0 as nat) + seq![','] + dec_str(e.1.1 as nat) + seq![','],
        f.0,
        '\n',
    );
    lemma_free_concat(
        e.0 + seq![','] + dec_str(e.1.0 as nat) + seq![','] + dec_str(e.1.1 as nat) + seq![','] + f.0,
        seq![','],
        '\n',
    );
    lemma_free_concat(
        e.0 + seq![','] + dec_str(e.1.0 as nat) + seq![','] + dec_str(e.1.1 as nat) + seq![','] + f.0
            + seq![','],
        f.1,
        '\n',
    );
}

/// The serialized suffix from entry `i` splits on newlines into its lines.
proof fn lemma_split_lines(
    es: Seq<(Seq<char>, (u32, u32))>,
    fs: Seq<(Seq<char>, Seq<char>)>,
    i: int,
)
    requires
        es.len() == fs.len(),
        0 <= i < es.len(),
        forall|m: int| 0 <= m < es.len() ==> free_of((#[trigger] es[m]).0, '\n'),
        forall|m: int|
            0 <= m < fs.len() ==> free_of((#[trigger] fs[m]).0, '\n') && free_of(fs[m].1, '\n'),
    ensures
        split_char(csv_from(es, fs, i), '\n') == Seq::new(
            (es.len() - i) as nat,
            |m: int| csv_line(es[i + m], fs[i + m]),
        ),
    decreases es.len() - i,
{
    lemma_line_newline_free(es[i], fs[i]);
    if i == es.len() - 1 {
        lemma_split_whole(csv_line(es[i], fs[i]), '\n');
        assert(split_char(csv_from(es, fs, i), '\n') =~= Seq::new(
            (es.len() - i) as nat,
            |m: int| csv_line(es[i + m], fs[i + m]),
        ));
    } else {
        lemma_split_lines(es, fs, i + 1);
        assert(csv_from(es, fs, i) =~= csv_line(es[i], fs[i]) + seq!['\n'] + csv_from(
            es,
            fs,
            i + 1,
        ));
        lemma_split_head(csv_line(es[i], fs[i]), '\n', csv_from(es, fs, i + 1));
        assert(split_char(csv_from(es, fs, i), '\n') =~= Seq::new(
            (es.len() - i) as nat,
            |m: int| csv_line(es[i + m], fs[i + m]),
        ));
    }
}

/// The serialized report round-trips: split on newlines it has one line per
/// entry in ranked order, and each line split on commas yields exactly the
/// species, games, wins, winrate and deviations fields of its entry.
pub proof fn lemma_csv_round_trip(
    es: Seq<(Seq<char>, (u32, u32))>,
    fs: Seq<(Seq<char>, Seq<char>)>,
)
    requires
        es.len() == fs.len(),
        es.len() >= 1,
        forall|m: int|
            0 <= m < es.len() ==> free_of((#[trigger] es[m]).0, '\n') && free_of(es[m].0, ','),
        forall|m: int|
            0 <= m < fs.len() ==> free_of((#[trigger] fs[m]).0, '\n') && free_of(fs[m].0, ',')
                && free_of(fs[m].1, '\n') && free_of(fs[m].1, ','),
    ensures
        split_char(csv_text(es, fs), '\n').len() == es.len(),
        forall|i: int|
            0 <= i < es.len() ==> split_char(
                #[trigger] split_char(csv_text(es, fs), '\n')[i],
                ',',
            ) == seq![
                es[i].0,
                dec_str(es[i].1.0 as nat),
                dec_str(es[i].1.1 as nat),
                fs[i].0,
                fs[i].1,
            ],
{
    lemma_split_lines(es, fs, 0);
    assert forall|i: int| 0 <= i < es.len() implies split_char(
        #[trigger] split_char(csv_text(es, fs), '\n')[i],
        ',',
    ) == seq![es[i].0, dec_str(es[i].1.0 as nat), dec_str(es[i].1.1 as nat), fs[i].0, fs[i].1] by {
        assert(split_char(csv_text(es, fs), '\n')[i] == csv_line(es[i], fs[i]));
        lemma_line_fields(es[i], fs[i]);
    }
}

} // verus!
