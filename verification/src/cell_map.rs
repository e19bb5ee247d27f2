//! A hash map keyed by grid cells.

use std::collections::HashMap;
use vstd::prelude::*;

verus! {

broadcast use vstd::std_specs::hash::group_hash_axioms;

/// Both coordinates fit a machine integer.
pub open spec fn representable(c: (int, int)) -> bool {
    i32::MIN <= c.0 <= i32::MAX && i32::MIN <= c.1 <= i32::MAX
}

/// The number under which a cell is stored: no two representable cells share
/// one.
pub open spec fn slot_of(c: (int, int)) -> u64 {
    ((c.0 + 0x8000_0000) * 0x1_0000_0000 + (c.1 + 0x8000_0000)) as u64
}

/// Computes the number under which the cell `(x, y)` is stored.
pub fn slot(x: i32, y: i32) -> (k: u64)
    ensures
        k == slot_of((x as int, y as int)),
{
    let hi: u64 = (x as i64 + 0x8000_0000) as u64;
    let lo: u64 = (y as i64 + 0x8000_0000) as u64;
    hi * 0x1_0000_0000 + lo
}

/// Distinct representable cells are stored under distinct numbers.
pub proof fn lemma_slot_injective(a: (int, int), b: (int, int))
    requires
        representable(a),
        representable(b),
        slot_of(a) == slot_of(b),
    ensures
        a == b,
{
}

/// A map from grid cells to values.
#[derive(Debug)]
pub struct CellMap<V> {
    slots: HashMap<u64, V>,
}

impl<V> CellMap<V> {
    /// The map as a mathematical map from cells to values.
    pub closed spec fn view(&self) -> Map<(int, int), V> {
        Map::new(
            |c: (int, int)| representable(c) && self.slots@.contains_key(slot_of(c)),
            |c: (int, int)| self.slots@[slot_of(c)],
        )
    }

    /// An empty map.
    pub fn new() -> (r: CellMap<V>)
        ensures
            r@ == Map::<(int, int), V>::empty(),
    {
        let r = CellMap { slots: HashMap::new() };
        assert(r@ =~= Map::<(int, int), V>::empty());
        r
    }

    /// Stores `value` under the cell `(x, y)`, replacing what was there.
    pub fn insert(&mut self, x: i32, y: i32, value: V)
        ensures
            final(self)@ == old(self)@.insert((x as int, y as int), value),
    {
        let k = slot(x, y);
        let ghost c = (x as int, y as int);
        self.slots.insert(k, value);
        proof {
            assert forall|d: (int, int)| representable(d) && d != c implies slot_of(d) != k by {
                if slot_of(d) == k {
                    lemma_slot_injective(d, c);
                }
            }
            assert(self@ =~= old(self)@.insert(c, value));
        }
    }

    /// The value stored under the cell `(x, y)`, if there is one.
    pub fn get(&self, x: i32, y: i32) -> (r: Option<&V>)
        ensures
            match r {
                Some(v) => self@.contains_key((x as int, y as int)) && self@[(x as int, y as int)] == *v,
                None => !self@.contains_key((x as int, y as int)),
            },
    {
        let k = slot(x, y);
        self.slots.get(&k)
    }
}

} // verus!
