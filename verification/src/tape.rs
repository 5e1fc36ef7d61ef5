use vstd::prelude::*;

verus! {

#[verifier::external_type_specification]
#[verifier::external_body]
#[verifier::reject_recursive_types(K)]
#[verifier::reject_recursive_types(V)]
#[verifier::reject_recursive_types(S)]
pub struct ExImHashMap<K, V, S>(im::HashMap<K, V, S>);

/// The entries a persistent tape holds. A cell that is absent reads as zero;
/// the search keeps zero-valued cells out of the map.
pub uninterp spec fn tape_entries(t: im::HashMap<i64, u8>) -> Map<i64, u8>;

/// Relies on im::HashMap::new: the empty map.
#[verifier::external_body]
pub fn tape_new() -> (r: im::HashMap<i64, u8>)
    ensures
        tape_entries(r) =~= Map::empty(),
{
    im::HashMap::new()
}

/// Relies on im::HashMap::clone: an O(1) structurally shared copy holding
/// the same entries; the original is left untouched.
#[verifier::external_body]
pub fn tape_dup(t: &im::HashMap<i64, u8>) -> (r: im::HashMap<i64, u8>)
    ensures
        tape_entries(r) == tape_entries(*t),
{
    t.clone()
}

/// Relies on im::HashMap::get: the value stored under the key, if any.
#[verifier::external_body]
pub fn tape_get(t: &im::HashMap<i64, u8>, idx: i64) -> (r: Option<u8>)
    ensures
        r == if tape_entries(*t).contains_key(idx) {
            Some(tape_entries(*t)[idx])
        } else {
            None::<u8>
        },
{
    t.get(&idx).copied()
}

/// Relies on im::HashMap::insert: copy-on-write insertion; parts shared
/// with clones of this map are copied before being changed, so clones keep
/// their own entries.
#[verifier::external_body]
pub fn tape_insert(t: &mut im::HashMap<i64, u8>, idx: i64, val: u8)
    ensures
        tape_entries(*final(t)) == tape_entries(*old(t)).insert(idx, val),
{
    t.insert(idx, val);
}

/// Relies on im::HashMap::remove: copy-on-write removal; clones of this map
/// keep their own entries.
#[verifier::external_body]
pub fn tape_remove(t: &mut im::HashMap<i64, u8>, idx: i64)
    ensures
        tape_entries(*final(t)) == tape_entries(*old(t)).remove(idx),
{
    t.remove(&idx);
}

/// What a cell of the tape reads as: stored value, or zero when absent.
pub open spec fn cell_value(m: Map<i64, u8>, idx: i64) -> u8 {
    if m.contains_key(idx) {
        m[idx]
    } else {
        0
    }
}

/// The entries after writing a cell: zero removes, anything else stores.
pub open spec fn tape_set(m: Map<i64, u8>, idx: i64, val: u8) -> Map<i64, u8> {
    if val == 0 {
        m.remove(idx)
    } else {
        m.insert(idx, val)
    }
}

/// Law: a tape write changes exactly the chosen cell and leaves every other
/// cell reading as before.
pub proof fn lemma_tape_set_cell(m: Map<i64, u8>, idx: i64, val: u8)
    ensures
        cell_value(tape_set(m, idx, val), idx) == val,
        forall|j: i64| j != idx ==> cell_value(tape_set(m, idx, val), j) == cell_value(m, j),
{
}

} // verus!
