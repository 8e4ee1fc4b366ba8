use vstd::prelude::*;

use std::collections::VecDeque;

use crate::orders::TradeOrder;

verus! {

/// The resting orders at one price, oldest first.
pub type PriceLevel = VecDeque<TradeOrder>;

/// `ahash::AHashMap`, opaque: its contents are named by `level_contents`.
#[verifier::external_type_specification]
#[verifier::external_body]
#[verifier::reject_recursive_types(K)]
#[verifier::reject_recursive_types(V)]
#[verifier::reject_recursive_types(S)]
pub struct ExAHashMap<K, V, S>(ahash::AHashMap<K, V, S>);

/// `ahash::RandomState`, the map's hasher, opaque.
#[verifier::external_type_specification]
#[verifier::external_body]
pub struct ExAHashRandomState(ahash::RandomState);

/// Name for what an `ahash` map of price levels holds: each key (a price in
/// units) with the orders of its level.
pub uninterp spec fn level_contents(m: ahash::AHashMap<i128, PriceLevel>) -> Map<i128, Seq<TradeOrder>>;

/// A sparse map from prices (in units) to price levels, over `ahash`'s map.
pub struct SparseVec {
    data: ahash::AHashMap<i128, PriceLevel>,
}

impl View for SparseVec {
    type V = Map<i128, Seq<TradeOrder>>;

    closed spec fn view(&self) -> Map<i128, Seq<TradeOrder>> {
        level_contents(self.data)
    }
}

type LevelMap = ahash::AHashMap<i128, PriceLevel>;

/// Relies on `AHashMap::with_capacity`: a new map is empty.
#[verifier::external_body]
fn map_with_capacity(capacity: usize) -> (r: LevelMap)
    ensures
        level_contents(r).dom().is_empty(),
{
    ahash::AHashMap::with_capacity(capacity)
}

/// Relies on `AHashMap::insert`: the key now maps to the value, and the value
/// it had before, if any, is returned.
#[verifier::external_body]
fn map_insert(m: &mut LevelMap, k: i128, v: PriceLevel) -> (r: Option<PriceLevel>)
    ensures
        level_contents(*final(m)) == level_contents(*old(m)).insert(k, v@),
        match r {
            Some(x) => level_contents(*old(m)).contains_key(k) && x@ == level_contents(*old(m))[k],
            None => !level_contents(*old(m)).contains_key(k),
        },
{
    m.insert(k, v)
}

/// Relies on `AHashMap::remove`: the key is gone, and its value, if any, is
/// returned.
#[verifier::external_body]
fn map_remove(m: &mut LevelMap, k: i128) -> (r: Option<PriceLevel>)
    ensures
        level_contents(*final(m)) == level_contents(*old(m)).remove(k),
        match r {
            Some(x) => level_contents(*old(m)).contains_key(k) && x@ == level_contents(*old(m))[k],
            None => !level_contents(*old(m)).contains_key(k),
        },
{
    m.remove(&k)
}

/// Relies on `AHashMap::get`: the value of the key, if present.
#[verifier::external_body]
fn map_get(m: &LevelMap, k: i128) -> (r: Option<&PriceLevel>)
    ensures
        match r {
            Some(x) => level_contents(*m).contains_key(k) && x@ == level_contents(*m)[k],
            None => !level_contents(*m).contains_key(k),
        },
{
    m.get(&k)
}

/// Relies on the keys of the map (`HashMap::keys`, through `Deref`) and
/// `Iterator::max`: the greatest key.
#[verifier::external_body]
fn map_max_key(m: &LevelMap) -> (r: Option<i128>)
    ensures
        match r {
            Some(k) => level_contents(*m).contains_key(k) && forall|j: i128|
                #[trigger] level_contents(*m).contains_key(j) ==> j <= k,
            None => level_contents(*m).dom().is_empty(),
        },
{
    m.keys().max().copied()
}

/// Relies on the keys of the map (`HashMap::keys`, through `Deref`) and
/// `Iterator::min`: the least key.
#[verifier::external_body]
fn map_min_key(m: &LevelMap) -> (r: Option<i128>)
    ensures
        match r {
            Some(k) => level_contents(*m).contains_key(k) && forall|j: i128|
                #[trigger] level_contents(*m).contains_key(j) ==> k <= j,
            None => level_contents(*m).dom().is_empty(),
        },
{
    m.keys().min().copied()
}

impl SparseVec {
    pub fn with_capacity(capacity: usize) -> (r: Self)
        ensures
            r@ == Map::<i128, Seq<TradeOrder>>::empty(),
    {
        let data = map_with_capacity(capacity);
        assert(level_contents(data) =~= Map::<i128, Seq<TradeOrder>>::empty());
        SparseVec { data }
    }

    /// Sets the level at `index`; returns the level it replaced.
    pub fn insert(&mut self, index: i128, value: PriceLevel) -> (r: Option<PriceLevel>)
        ensures
            final(self)@ == old(self)@.insert(index, value@),
            match r {
                Some(v) => old(self)@.contains_key(index) && v@ == old(self)@[index],
                None => !old(self)@.contains_key(index),
            },
    {
        map_insert(&mut self.data, index, value)
    }

    /// Takes out the level at `index`.
    pub fn remove(&mut self, index: i128) -> (r: Option<PriceLevel>)
        ensures
            final(self)@ == old(self)@.remove(index),
            match r {
                Some(v) => old(self)@.contains_key(index) && v@ == old(self)@[index],
                None => !old(self)@.contains_key(index),
            },
    {
        map_remove(&mut self.data, index)
    }

    pub fn get(&self, index: i128) -> (r: Option<&PriceLevel>)
        ensures
            match r {
                Some(v) => self@.contains_key(index) && v@ == self@[index],
                None => !self@.contains_key(index),
            },
    {
        map_get(&self.data, index)
    }

    /// The greatest price that has a level.
    pub fn max_index(&self) -> (r: Option<i128>)
        ensures
            match r {
                Some(k) => self@.contains_key(k) && forall|j: i128| #[trigger]
                    self@.contains_key(j) ==> j <= k,
                None => self@.dom().is_empty(),
            },
    {
        map_max_key(&self.data)
    }

    /// The least price that has a level.
    pub fn min_index(&self) -> (r: Option<i128>)
        ensures
            match r {
                Some(k) => self@.contains_key(k) && forall|j: i128| #[trigger]
                    self@.contains_key(j) ==> k <= j,
                None => self@.dom().is_empty(),
            },
    {
        map_min_key(&self.data)
    }
}

} // verus!
