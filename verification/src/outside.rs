//! Declarations and wrappers for the outside crates that the library leans on:
//! `indexmap` for the insertion-ordered counter store, `pikkr_annika` for
//! picking the `species` field out of one JSON object, `prettytable` for the
//! bordered text table, and `String::from_utf8_lossy` from std.
use vstd::prelude::*;

verus! {

#[verifier::external_type_specification]
#[verifier::external_body]
#[verifier::reject_recursive_types(K)]
#[verifier::reject_recursive_types(V)]
#[verifier::reject_recursive_types(S)]
pub struct ExIndexMap<K, V, S>(indexmap::IndexMap<K, V, S>);

/// The entries of the counter store, in insertion order: one pair of a species
/// name and its `(games, wins)` counters per slot.
pub uninterp spec fn map_entries(m: indexmap::IndexMap<String, (u32, u32)>) -> Seq<
    (Seq<char>, (u32, u32)),
>;

/// Relies on `indexmap::IndexMap::new`: creates an empty map.
#[verifier::external_body]
pub(crate) fn imap_new() -> (m: indexmap::IndexMap<String, (u32, u32)>)
    ensures
        map_entries(m) == Seq::<(Seq<char>, (u32, u32))>::empty(),
{
    indexmap::IndexMap::new()
}

/// Relies on `indexmap::IndexMap::len`: the number of entries.
#[verifier::external_body]
pub(crate) fn imap_len(m: &indexmap::IndexMap<String, (u32, u32)>) -> (n: usize)
    ensures
        n == map_entries(*m).len(),
{
    m.len()
}

/// Relies on `indexmap::IndexMap::get`: looks the key up by equality and
/// returns its value, or nothing when no entry carries the key.
#[verifier::external_body]
pub(crate) fn imap_get(m: &indexmap::IndexMap<String, (u32, u32)>, k: &String) -> (r: Option<
    (u32, u32),
>)
    ensures
        match r {
            Some(c) => exists|i: int|
                0 <= i < map_entries(*m).len() && map_entries(*m)[i] == (k@, c),
            None => forall|i: int|
                0 <= i < map_entries(*m).len() ==> (#[trigger] map_entries(*m)[i]).0 != k@,
        },
{
    m.get(k).copied()
}

/// Relies on `indexmap::IndexMap::insert`: an existing key keeps its place in
/// the order and gets the new value; a new key is appended last.
#[verifier::external_body]
pub(crate) fn imap_insert(m: &mut indexmap::IndexMap<String, (u32, u32)>, k: String, v: (u32, u32))
    ensures
        (exists|i: int|
            0 <= i < map_entries(*old(m)).len() && (#[trigger] map_entries(*old(m))[i]).0 == k@)
            ==> map_entries(*final(m)) == map_entries(*old(m)).update(
            choose|i: int|
                0 <= i < map_entries(*old(m)).len() && (#[trigger] map_entries(*old(m))[i]).0
                    == k@,
            (k@, v),
        ),
        (forall|i: int|
            0 <= i < map_entries(*old(m)).len() ==> (#[trigger] map_entries(*old(m))[i]).0 != k@)
            ==> map_entries(*final(m)) == map_entries(*old(m)).push((k@, v)),
{
    m.insert(k, v);
}

/// Relies on `indexmap::IndexMap::get_index`: entries are indexed in order,
/// and valid indices are exactly those below the length.
#[verifier::external_body]
pub(crate) fn imap_get_index(m: &indexmap::IndexMap<String, (u32, u32)>, i: usize) -> (r: Option<
    (String, (u32, u32)),
>)
    ensures
        match r {
            Some(p) => i < map_entries(*m).len() && p.0@ == map_entries(*m)[i as int].0 && p.1
                == map_entries(*m)[i as int].1,
            None => i >= map_entries(*m).len(),
        },
{
    m.get_index(i).map(|(k, v)| (k.clone(), *v))
}

/// Relies on `indexmap::IndexMap::sort_by`, documented as a stable sort of
/// the entries by the given comparator. On valid counters (at least one game
/// each) the comparator realizes the total preorder of descending deviations
/// scores, and one sequence only is both ordered by a total preorder and
/// stable in it: the one that inserts each entry in turn behind all earlier
/// entries that do not score below it, which is what `sort_by_deviations`
/// computes. Without the precondition the comparator is no total preorder
/// (zero-game counters all compare equal) and the sort's order is
/// unspecified, so nothing is promised there.
#[verifier::external_body]
pub(crate) fn imap_sort_by_deviations(m: &mut indexmap::IndexMap<String, (u32, u32)>)
    requires
        crate::stats::all_counters_wf(map_entries(*old(m))),
    ensures
        map_entries(*final(m)) == crate::ranking::sort_by_deviations(map_entries(*old(m))),
{
    m.sort_by(|_, a, _, b| crate::ranking::compare_deviations_desc(a, b));
}

#[verifier::external_type_specification]
#[verifier::external_body]
pub struct ExPikkrError(pikkr_annika::Error);

/// What extracting the `species` field from one JSON object's bytes yields:
/// nothing on a parse error, otherwise the raw field bytes when present.
pub uninterp spec fn species_extract(entry: Seq<u8>) -> Option<Option<Seq<u8>>>;

/// Relies on `pikkr_annika::Pikkr`: extracting the raw bytes of the top-level
/// `species` field from one JSON object. A fresh parser is queried each time,
/// so the outcome depends on the entry bytes alone.
#[verifier::external_body]
pub(crate) fn extract_species(entry: &Vec<u8>) -> (r: Result<Option<Vec<u8>>, pikkr_annika::Error>)
    ensures
        match r {
            Ok(s) => species_extract(entry@) == Some(s.deep_view()),
            Err(_) => species_extract(entry@) is None,
        },
{
    let mut parser = match pikkr_annika::Pikkr::new(&["$.species".as_bytes()], 2) {
        Ok(p) => p,
        Err(e) => return Err(e),
    };
    match parser.parse(entry.as_slice()) {
        Ok(vals) => Ok(vals.into_iter().next().flatten().map(|b| b.to_vec())),
        Err(e) => Err(e),
    }
}

/// The characters that `String::from_utf8_lossy` decodes some bytes to.
pub uninterp spec fn lossy_decoded(bytes: Seq<u8>) -> Seq<char>;

/// Relies on `String::from_utf8_lossy`: the result depends on the bytes
/// alone, and valid UTF-8 input decodes to a string with exactly those bytes.
#[verifier::external_body]
pub(crate) fn bytes_to_string(bytes: &Vec<u8>) -> (r: String)
    ensures
        r@ == lossy_decoded(bytes@),
        vstd::utf8::valid_utf8(bytes@) ==> vstd::utf8::encode_utf8(r@) == bytes@,
{
    String::from_utf8_lossy(bytes.as_slice()).into_owned()
}

/// The text that `prettytable` renders a grid of cells to.
pub uninterp spec fn table_text(rows: Seq<Seq<Seq<char>>>) -> Seq<char>;

/// Relies on `prettytable::Table`: rendering rows of cells as a bordered text
/// table; the text depends on the cell contents alone.
#[verifier::external_body]
pub(crate) fn render_table(rows: &Vec<Vec<String>>) -> (r: String)
    ensures
        r@ == table_text(rows.deep_view()),
{
    let mut table = prettytable::Table::new();
    for row in rows.iter() {
        table.add_row(prettytable::Row::new(row.iter().map(|c| prettytable::Cell::new(c)).collect()));
    }
    table.to_string()
}

} // verus!
