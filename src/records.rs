//! Decoding automaton definitions from text: accept states from JSON.
use std::collections::HashMap;
use vstd::prelude::*;

verus! {

broadcast use vstd::std_specs::hash::group_hash_axioms;

/// The `(state, label)` pairs that a JSON text holds as an array of
/// two-element arrays, or `None` where it holds no such array.
pub uninterp spec fn json_accept_records(text: Seq<char>) -> Option<Seq<(usize, Seq<char>)>>;

/// The pairs with their labels as character sequences.
pub open spec fn record_views(v: Seq<(usize, String)>) -> Seq<(usize, Seq<char>)> {
    v.map_values(|p: (usize, String)| (p.0, p.1@))
}

/// The labels of a map as character sequences.
pub open spec fn labels_view(m: Map<usize, String>) -> Map<usize, Seq<char>> {
    m.map_values(|l: String| l@)
}

/// Each state mapped to its label, a later pair for a state replacing an
/// earlier one.
pub open spec fn records_map(s: Seq<(usize, Seq<char>)>) -> Map<usize, Seq<char>>
    decreases s.len(),
{
    if s.len() == 0 {
        Map::empty()
    } else {
        records_map(s.drop_last()).insert(s.last().0, s.last().1)
    }
}

/// Relies on `serde_json::from_str` at type `Vec<(usize, String)>`: the
/// decoded pairs depend on the text alone. The error is kept as its message.
#[verifier::external_body]
fn decode_accept_records(text: &str) -> (r: Result<Vec<(usize, String)>, String>)
    ensures
        match r {
            Ok(v) => json_accept_records(text@) == Some(record_views(v@)),
            Err(_) => json_accept_records(text@) is None,
        },
{
    serde_json::from_str::<Vec<(usize, String)>>(text).map_err(|e| e.to_string())
}

/// The map from accept state to label that `records` lists; where a state
/// occurs more than once, its last label counts.
pub fn accept_map(records: &Vec<(usize, String)>) -> (r: HashMap<usize, String>)
    ensures
        labels_view(r@) == records_map(record_views(records@)),
{
    let mut m: HashMap<usize, String> = HashMap::new();
    let mut k: usize = 0;
    assert(labels_view(m@) =~= records_map(record_views(records@).subrange(0, 0)));
    while k < records.len()
        invariant
            k <= records@.len(),
            labels_view(m@) == records_map(record_views(records@).subrange(0, k as int)),
        decreases records@.len() - k,
    {
        let state = records[k].0;
        let label = records[k].1.clone();
        m.insert(state, label);
        let ghost views = record_views(records@);
        assert(views.subrange(0, k + 1).drop_last() =~= views.subrange(0, k as int));
        assert(labels_view(m@) =~= records_map(views.subrange(0, k + 1)));
        k += 1;
    }
    assert(record_views(records@).subrange(0, records@.len() as int) =~= record_views(records@));
    m
}

/// The accept states and labels that the JSON `text` lists as an array of
/// `[state, label]` pairs, a later pair for a state replacing an earlier
/// one; the decoder's message where `text` is no such array.
pub fn read_accept_states(text: &str) -> (r: Result<HashMap<usize, String>, String>)
    ensures
        match json_accept_records(text@) {
            Some(recs) => r matches Ok(m) && labels_view(m@) == records_map(recs),
            None => r is Err,
        },
{
    match decode_accept_records(text) {
        Ok(records) => Ok(accept_map(&records)),
        Err(e) => Err(e),
    }
}

} // verus!
