use crate::solver::Mark;
use fnv::FnvHashMap;
use fnv::FnvHashSet;
use std::hash::Hash;
use vstd::prelude::*;
use vstd::std_specs::hash::obeys_key_model;

verus! {

/// The hasher state of the `fnv` crate. Nothing is known of its contents.
#[verifier::external_type_specification]
#[verifier::external_body]
pub struct ExFnvHasher(fnv::FnvHasher);

/// The hasher factory that `FnvHashMap` and `FnvHashSet` are built on.
#[verifier::external_type_specification]
#[verifier::external_body]
#[verifier::reject_recursive_types(H)]
pub struct ExBuildHasherDefault<H>(std::hash::BuildHasherDefault<H>);

/// Calls `HashMap::insert` on an FNV-hashed map. For a key type whose `Eq` and
/// `Hash` agree, the map afterwards holds the old entries with `key` bound to
/// `value`.
#[verifier::external_body]
pub(crate) fn map_insert<K: Eq + Hash, V>(map: &mut FnvHashMap<K, V>, key: K, value: V)
    requires
        obeys_key_model::<K>(),
    ensures
        final(map)@ == old(map)@.insert(key, value),
{
    map.insert(key, value);
}

/// Calls `HashMap::get` on an FNV-hashed map: the value under `key`, if the
/// map holds one.
#[verifier::external_body]
pub(crate) fn map_get_ref<'a, K: Eq + Hash, V>(map: &'a FnvHashMap<K, V>, key: K) -> (found: Option<
    &'a V,
>)
    requires
        obeys_key_model::<K>(),
    ensures
        found == (if map@.contains_key(key) { Some(&map@[key]) } else { None::<&V> }),
{
    map.get(&key)
}

/// Calls `HashMap::remove` on an FNV-hashed map: the value that was under
/// `key` is handed out, and the map holds the other entries.
#[verifier::external_body]
pub(crate) fn map_remove<K: Eq + Hash, V>(map: &mut FnvHashMap<K, V>, key: K) -> (taken: Option<V>)
    requires
        obeys_key_model::<K>(),
    ensures
        final(map)@ == old(map)@.remove(key),
        taken == (if old(map)@.contains_key(key) { Some(old(map)@[key]) } else { None::<V> }),
{
    map.remove(&key)
}

/// Calls `HashSet::contains` on an FNV-hashed set: whether the set holds
/// `key`.
#[verifier::external_body]
pub(crate) fn set_contains<K: Eq + Hash>(set: &FnvHashSet<K>, key: K) -> (yes: bool)
    requires
        obeys_key_model::<K>(),
    ensures
        yes == set@.contains(key),
{
    set.contains(&key)
}

/// Calls `HashSet::remove` on an FNV-hashed set: afterwards the set holds
/// what it held but `key`.
#[verifier::external_body]
pub(crate) fn set_remove<K: Eq + Hash>(set: &mut FnvHashSet<K>, key: K)
    requires
        obeys_key_model::<K>(),
    ensures
        final(set)@ == old(set)@.remove(key),
{
    set.remove(&key);
}

/// Calls `HashSet::insert` on an FNV-hashed set: afterwards the set holds
/// what it held and `key`.
#[verifier::external_body]
pub(crate) fn set_insert<K: Eq + Hash>(set: &mut FnvHashSet<K>, key: K)
    requires
        obeys_key_model::<K>(),
    ensures
        final(set)@ == old(set)@.insert(key),
{
    set.insert(key);
}

/// Calls `HashMap::get` on the table of marked cells; a key is a row and a
/// column. The mark found there is copied out.
#[verifier::external_body]
pub(crate) fn mask_get(mask: &FnvHashMap<(usize, usize), Mark>, row: usize, col: usize) -> (found:
    Option<Mark>)
    ensures
        found == (if mask@.contains_key((row, col)) {
            Some(mask@[(row, col)])
        } else {
            None::<Mark>
        }),
{
    mask.get(&(row, col)).copied()
}

/// Calls `HashMap::insert` on the table of marked cells: afterwards the cell
/// holds `mark`, and every other cell what it held.
#[verifier::external_body]
pub(crate) fn mask_insert(
    mask: &mut FnvHashMap<(usize, usize), Mark>,
    row: usize,
    col: usize,
    mark: Mark,
)
    ensures
        final(mask)@ == old(mask)@.insert((row, col), mark),
{
    mask.insert((row, col), mark);
}

/// Calls `HashMap::remove` on the table of marked cells: afterwards the cell
/// holds no mark, and every other cell what it held.
#[verifier::external_body]
pub(crate) fn mask_remove(mask: &mut FnvHashMap<(usize, usize), Mark>, row: usize, col: usize)
    ensures
        final(mask)@ == old(mask)@.remove((row, col)),
{
    mask.remove(&(row, col));
}

/// Calls `HashMap::retain` on the table of marked cells with the test
/// `Mark::is_star`: the starred cells stay, every other mark goes.
#[verifier::external_body]
pub(crate) fn mask_keep_stars(mask: &mut FnvHashMap<(usize, usize), Mark>)
    ensures
        forall|k: (usize, usize)|
            #[trigger] final(mask)@.contains_key(k) <==> old(mask)@.contains_key(k) && old(
                mask,
            )@[k] == Mark::Star,
        forall|k: (usize, usize)|
            #[trigger] final(mask)@.contains_key(k) ==> final(mask)@[k] == Mark::Star,
{
    mask.retain(|_, mark| mark.is_star());
}

} // verus!
