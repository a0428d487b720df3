//! The price levels of one side of the book, kept in a `skiplist::SkipMap`
//! keyed by price. Everything Verus knows of the map is stated here.

use vstd::prelude::*;
use std::ops::Bound::Included;
use skiplist::SkipMap;
use crate::price_level::PriceLevel;

verus! {

#[verifier::external_type_specification]
#[verifier::external_body]
#[verifier::reject_recursive_types(K)]
#[verifier::reject_recursive_types(V)]
pub struct ExSkipMap<K, V>(SkipMap<K, V>);

/// One side of the book: price levels by price.
pub type Levels = SkipMap<u64, PriceLevel>;

/// What a skip map of price levels holds: each price key with its level.
pub uninterp spec fn level_map(m: Levels) -> Map<u64, PriceLevel>;

/// `SkipMap::new`: a map with no entries.
#[verifier::external_body]
pub(crate) fn levels_new() -> (fresh: Levels)
    ensures
        level_map(fresh) =~= Map::empty(),
{
    SkipMap::new()
}

/// `SkipMap::insert`: the key now maps to the given level; an entry already
/// stored under the key is replaced. The returned old value is dropped.
#[verifier::external_body]
pub(crate) fn levels_insert(m: &mut Levels, key: u64, level: PriceLevel)
    ensures
        level_map(*final(m)) == level_map(*old(m)).insert(key, level),
{
    m.insert(key, level);
}

/// `SkipMap::remove`: takes the entry under `key` out of the map and hands back
/// its level, or `None` where the key is absent.
#[verifier::external_body]
pub(crate) fn levels_remove(m: &mut Levels, key: u64) -> (r: Option<PriceLevel>)
    ensures
        level_map(*final(m)) == level_map(*old(m)).remove(key),
        r == (if level_map(*old(m)).dom().contains(key) {
            Some(level_map(*old(m))[key])
        } else {
            None
        }),
{
    m.remove(&key)
}

/// `SkipMap::get`: the level stored under `key`, if any.
#[verifier::external_body]
pub(crate) fn levels_get(m: &Levels, key: u64) -> (r: Option<&PriceLevel>)
    ensures
        r == (if level_map(*m).dom().contains(key) {
            Some(&level_map(*m)[key])
        } else {
            None
        }),
{
    m.get(&key)
}

/// `SkipMap::lower_bound(Included(&lo))`, keeping the key: the smallest key that
/// is at least `lo`, or `None` where every key is below `lo`.
#[verifier::external_body]
pub(crate) fn levels_first_key_from(m: &Levels, lo: u64) -> (r: Option<u64>)
    ensures
        match r {
            Some(k) => {
                &&& level_map(*m).dom().contains(k)
                &&& lo <= k
                &&& forall|j: u64| #[trigger] level_map(*m).dom().contains(j) && lo <= j ==> k <= j
            },
            None => forall|j: u64| #[trigger] level_map(*m).dom().contains(j) ==> j < lo,
        },
{
    m.lower_bound(Included(&lo)).map(|(k, _)| *k)
}

/// `SkipMap::upper_bound(Included(&hi))`, keeping the key: the largest key that
/// is at most `hi`, or `None` where every key is above `hi`.
#[verifier::external_body]
pub(crate) fn levels_last_key_upto(m: &Levels, hi: u64) -> (r: Option<u64>)
    ensures
        match r {
            Some(k) => {
                &&& level_map(*m).dom().contains(k)
                &&& k <= hi
                &&& forall|j: u64| #[trigger] level_map(*m).dom().contains(j) && j <= hi ==> j <= k
            },
            None => forall|j: u64| #[trigger] level_map(*m).dom().contains(j) ==> hi < j,
        },
{
    m.upper_bound(Included(&hi)).map(|(k, _)| *k)
}

} // verus!
