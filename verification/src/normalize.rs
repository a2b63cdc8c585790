//! Species canonicalization. Raw species identifiers arrive as the raw JSON
//! value text, surrounding quote characters included. A fixed, ordered rule
//! table collapses cosmetic variants to their base form: each rule is either
//! a prefix match or an exact match, the first matching rule wins, and an
//! identifier no rule matches is returned unchanged.
use vstd::prelude::*;
use vstd::string::StrSliceExecFns;
use vstd::string::StringExecFns;

verus! {

/// One canonicalization rule: whether it matches by prefix (else exactly),
/// the pattern, and the canonical output.
pub open spec fn rule_matches(prefix: bool, pat: Seq<char>, s: Seq<char>) -> bool {
    if prefix {
        pat.len() <= s.len() && (forall|k: int| 0 <= k < pat.len() ==> s[k] == pat[k])
    } else {
        s == pat
    }
}

/// The fixed rule table, highest priority first.
pub open spec fn spec_rules() -> Seq<(bool, Seq<char>, Seq<char>)> {
    seq![
        (true, "\"Pikachu-"@, "\"Pikachu\""@),
        (true, "\"Unown-"@, "\"Unown\""@),
        (false, "\"Gastrodon-East\""@, "\"Gastrodon\""@),
        (false, "\"Magearna-Original\""@, "\"Magearna\""@),
        (false, "\"Genesect-Douse\""@, "\"Genesect\""@),
        (true, "\"Basculin-"@, "\"Basculin\""@),
        (true, "\"Sawsbuck-"@, "\"Sawsbuck\""@),
        (true, "\"Vivillon-"@, "\"Vivillon\""@),
        (true, "\"Florges-"@, "\"Florges\""@),
        (true, "\"Furfrou-"@, "\"Furfrou\""@),
        (true, "\"Minior-"@, "\"Minior\""@),
        (true, "\"Gourgeist-"@, "\"Gourgeist\""@),
        (true, "\"Toxtricity-"@, "\"Toxtricity\""@),
    ]
}

/// The first matching rule's output, or the identifier unchanged.
pub open spec fn norm_from(rules: Seq<(bool, Seq<char>, Seq<char>)>, s: Seq<char>) -> Seq<char>
    decreases rules.len(),
{
    if rules.len() == 0 {
        s
    } else if rule_matches(rules[0].0, rules[0].1, s) {
        rules[0].2
    } else {
        norm_from(rules.drop_first(), s)
    }
}

/// The canonical form of a raw species identifier.
pub open spec fn normalize_spec(s: Seq<char>) -> Seq<char> {
    norm_from(spec_rules(), s)
}

/// The rule table as data: `(prefix, pattern, output)` triples in priority
/// order.
pub fn rule_table() -> (t: Vec<(bool, &'static str, &'static str)>)
    ensures
        t@.len() == spec_rules().len(),
        forall|i: int|
            0 <= i < t@.len() ==> (#[trigger] t@[i]).0 == spec_rules()[i].0 && t@[i].1@
                == spec_rules()[i].1 && t@[i].2@ == spec_rules()[i].2,
{
    let t: Vec<(bool, &'static str, &'static str)> = vec![
        (true, "\"Pikachu-", "\"Pikachu\""),
        (true, "\"Unown-", "\"Unown\""),
        (false, "\"Gastrodon-East\"", "\"Gastrodon\""),
        (false, "\"Magearna-Original\"", "\"Magearna\""),
        (false, "\"Genesect-Douse\"", "\"Genesect\""),
        (true, "\"Basculin-", "\"Basculin\""),
        (true, "\"Sawsbuck-", "\"Sawsbuck\""),
        (true, "\"Vivillon-", "\"Vivillon\""),
        (true, "\"Florges-", "\"Florges\""),
        (true, "\"Furfrou-", "\"Furfrou\""),
        (true, "\"Minior-", "\"Minior\""),
        (true, "\"Gourgeist-", "\"Gourgeist\""),
        (true, "\"Toxtricity-", "\"Toxtricity\""),
    ];
    t
}

/// Whether `p` is a character-wise prefix of `s`.
fn starts_with_chars(s: &str, p: &str) -> (r: bool)
    ensures
        r == rule_matches(true, p@, s@),
{
    let pl = p.unicode_len();
    let sl = s.unicode_len();
    if sl < pl {
        return false;
    }
    let mut k: usize = 0;
    while k < pl
        invariant
            k <= pl,
            pl == p@.len(),
            sl == s@.len(),
            pl <= sl,
            forall|m: int| 0 <= m < k ==> s@[m] == p@[m],
        decreases pl - k,
    {
        if s.get_char(k) != p.get_char(k) {
            return false;
        }
        k += 1;
    }
    true
}

/// Whether `s` and `p` are the same characters.
fn eq_chars(s: &str, p: &str) -> (r: bool)
    ensures
        r == (s@ == p@),
{
    let pl = p.unicode_len();
    let sl = s.unicode_len();
    if sl != pl {
        return false;
    }
    let r = starts_with_chars(s, p);
    proof {
        if r {
            assert(s@ =~= p@);
        }
    }
    r
}

/// Maps a raw species identifier to its canonical form by the rule table:
/// first match wins, no match returns the input unchanged.
pub fn normalize_species(species: &str) -> (r: String)
    ensures
        r@ == normalize_spec(species@),
{
    let table = rule_table();
    proof {
        assert(spec_rules().skip(0) =~= spec_rules());
    }
    let mut i: usize = 0;
    while i < table.len()
        invariant
            i <= table@.len(),
            table@.len() == spec_rules().len(),
            forall|m: int|
                0 <= m < table@.len() ==> (#[trigger] table@[m]).0 == spec_rules()[m].0
                    && table@[m].1@ == spec_rules()[m].1 && table@[m].2@ == spec_rules()[m].2,
            normalize_spec(species@) == norm_from(spec_rules().skip(i as int), species@),
        decreases table@.len() - i,
    {
        let rule = &table[i];
        let matched = if rule.0 {
            starts_with_chars(species, rule.1)
        } else {
            eq_chars(species, rule.1)
        };
        proof {
            assert(spec_rules().skip(i as int)[0] == spec_rules()[i as int]);
            assert(spec_rules().skip(i as int).drop_first() =~= spec_rules().skip(i as int + 1));
        }
        if matched {
            return rule.2.to_owned();
        }
        i += 1;
    }
    proof {
        assert(spec_rules().skip(spec_rules().len() as int).len() == 0);
    }
    species.to_owned()
}

/// No character of `s` is a dash.
pub open spec fn dash_free(s: Seq<char>) -> bool {
    forall|k: int| 0 <= k < s.len() ==> s[k] != '-'
}

/// A dash-free identifier shorter than every exact pattern matches no rule.
proof fn lemma_no_rule_matches(rules: Seq<(bool, Seq<char>, Seq<char>)>, s: Seq<char>)
    requires
        dash_free(s),
        s.len() < 13,
        forall|i: int|
            0 <= i < rules.len() ==> ((#[trigger] rules[i]).0 ==> rules[i].1.len() > 0
                && rules[i].1[rules[i].1.len() - 1] == '-'),
        forall|i: int| 0 <= i < rules.len() ==> (!(#[trigger] rules[i]).0 ==> rules[i].1.len() >= 13),
    ensures
        norm_from(rules, s) == s,
    decreases rules.len(),
{
    if rules.len() > 0 {
        assert(!rule_matches(rules[0].0, rules[0].1, s)) by {
            if rules[0].0 {
                if rules[0].1.len() <= s.len() {
                    let d = rules[0].1.len() - 1;
                    assert(s[d] != '-');
                }
            } else {
                if s == rules[0].1 {
                    assert(s.len() >= 13);
                }
            }
        }
        lemma_no_rule_matches(rules.drop_first(), s);
    }
}

/// Every rule pattern either ends in a dash (prefix rules) or is at least 13
/// characters long (exact rules), and every rule output is dash-free and
/// shorter than 13 characters.
proof fn lemma_rules_shape()
    ensures
        forall|i: int|
            0 <= i < spec_rules().len() ==> ((#[trigger] spec_rules()[i]).0
                ==> spec_rules()[i].1.len() > 0 && spec_rules()[i].1[spec_rules()[i].1.len() - 1]
                == '-'),
        forall|i: int|
            0 <= i < spec_rules().len() ==> (!(#[trigger] spec_rules()[i]).0
                ==> spec_rules()[i].1.len() >= 13),
        forall|i: int|
            0 <= i < spec_rules().len() ==> dash_free((#[trigger] spec_rules()[i]).2)
                && spec_rules()[i].2.len() < 13,
{
    reveal_strlit("\"Pikachu-");
    reveal_strlit("\"Pikachu\"");
    reveal_strlit("\"Unown-");
    reveal_strlit("\"Unown\"");
    reveal_strlit("\"Gastrodon-East\"");
    reveal_strlit("\"Gastrodon\"");
    reveal_strlit("\"Magearna-Original\"");
    reveal_strlit("\"Magearna\"");
    reveal_strlit("\"Genesect-Douse\"");
    reveal_strlit("\"Genesect\"");
    reveal_strlit("\"Basculin-");
    reveal_strlit("\"Basculin\"");
    reveal_strlit("\"Sawsbuck-");
    reveal_strlit("\"Sawsbuck\"");
    reveal_strlit("\"Vivillon-");
    reveal_strlit("\"Vivillon\"");
    reveal_strlit("\"Florges-");
    reveal_strlit("\"Florges\"");
    reveal_strlit("\"Furfrou-");
    reveal_strlit("\"Furfrou\"");
    reveal_strlit("\"Minior-");
    reveal_strlit("\"Minior\"");
    reveal_strlit("\"Gourgeist-");
    reveal_strlit("\"Gourgeist\"");
    reveal_strlit("\"Toxtricity-");
    reveal_strlit("\"Toxtricity\"");
}

/// The result of normalization is the input or some rule's output.
proof fn lemma_norm_cases(rules: Seq<(bool, Seq<char>, Seq<char>)>, s: Seq<char>)
    ensures
        norm_from(rules, s) == s || exists|i: int|
            0 <= i < rules.len() && norm_from(rules, s) == (#[trigger] rules[i]).2,
    decreases rules.len(),
{
    if rules.len() > 0 {
        if rule_matches(rules[0].0, rules[0].1, s) {
            assert(norm_from(rules, s) == rules[0].2);
        } else {
            lemma_norm_cases(rules.drop_first(), s);
            if norm_from(rules.drop_first(), s) != s {
                let i = choose|i: int|
                    0 <= i < rules.drop_first().len() && norm_from(rules.drop_first(), s) == (
                    #[trigger] rules.drop_first()[i]).2;
                assert(rules.drop_first()[i] == rules[i + 1]);
            }
        }
    }
}

/// Normalization is idempotent: normalizing a canonical identifier changes
/// nothing, so `normalize(normalize(x)) == normalize(x)` for every `x`.
pub proof fn lemma_normalize_idempotent(s: Seq<char>)
    ensures
        normalize_spec(normalize_spec(s)) == normalize_spec(s),
{
    lemma_rules_shape();
    lemma_norm_cases(spec_rules(), s);
    let r = normalize_spec(s);
    if r != s {
        let i = choose|i: int|
            0 <= i < spec_rules().len() && r == (#[trigger] spec_rules()[i]).2;
        lemma_no_rule_matches(spec_rules(), r);
    }
}

} // verus!
