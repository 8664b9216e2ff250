//! Hash tables of plain keys and values, kept in hashbrown's maps and sets.
//!
//! Each table is opaque to the verifier: what it holds is named by an
//! uninterpreted spec function, and each operation states its effect on
//! that content as hashbrown's documentation gives it.
use vstd::prelude::*;

verus! {

/// What an `EntityTable` holds.
pub type EntityMap = Map<u128, (usize, usize)>;

/// What a `PairSet` holds.
pub type PairSetView = Set<(u64, usize)>;

/// What an `EdgeTable` holds.
pub type EdgeMap = Map<u64, usize>;

/// The key-value pairs held by an `EntityTable`.
pub uninterp spec fn entity_table_contents(t: EntityTable) -> Map<u128, (usize, usize)>;

/// The pairs held by a `PairSet`.
pub uninterp spec fn pair_set_contents(t: PairSet) -> Set<(u64, usize)>;

/// The key-value pairs held by an `EdgeTable`.
pub uninterp spec fn edge_table_contents(t: EdgeTable) -> Map<u64, usize>;

/// A map from 128-bit keys to pairs of indices.
#[verifier::external_body]
pub struct EntityTable {
    map: hashbrown::HashMap<u128, (usize, usize)>,
}

/// A set of (64-bit key, index) pairs.
#[verifier::external_body]
pub struct PairSet {
    set: hashbrown::HashSet<(u64, usize)>,
}

/// A map from 64-bit keys to indices.
#[verifier::external_body]
pub struct EdgeTable {
    map: hashbrown::HashMap<u64, usize>,
}

impl View for EntityTable {
    type V = Map<u128, (usize, usize)>;

    open spec fn view(&self) -> Map<u128, (usize, usize)> {
        entity_table_contents(*self)
    }
}

impl View for PairSet {
    type V = Set<(u64, usize)>;

    open spec fn view(&self) -> Set<(u64, usize)> {
        pair_set_contents(*self)
    }
}

impl View for EdgeTable {
    type V = Map<u64, usize>;

    open spec fn view(&self) -> Map<u64, usize> {
        edge_table_contents(*self)
    }
}

impl EntityTable {
    /// Relies on hashbrown::HashMap::new: the new map is empty.
    #[verifier::external_body]
    pub fn new() -> (r: Self)
        ensures
            entity_table_contents(r) == EntityMap::empty(),
    {
        EntityTable { map: hashbrown::HashMap::new() }
    }

    /// Relies on hashbrown::HashMap::get: the value stored under `k`, if any.
    #[verifier::external_body]
    pub fn get(&self, k: u128) -> (r: Option<(usize, usize)>)
        ensures
            r == if entity_table_contents(*self).contains_key(k) {
                Some(entity_table_contents(*self)[k])
            } else {
                None
            },
    {
        self.map.get(&k).copied()
    }

    /// Relies on hashbrown::HashMap::insert: `k` maps to `v` afterwards, the
    /// other keys keep their values.
    #[verifier::external_body]
    pub fn insert(&mut self, k: u128, v: (usize, usize))
        ensures
            entity_table_contents(*final(self)) == entity_table_contents(*old(self)).insert(k, v),
    {
        self.map.insert(k, v);
    }

    /// Relies on hashbrown::HashMap::remove: `k` is absent afterwards, the
    /// other keys keep their values.
    #[verifier::external_body]
    pub fn remove(&mut self, k: u128)
        ensures
            entity_table_contents(*final(self)) == entity_table_contents(*old(self)).remove(k),
    {
        self.map.remove(&k);
    }

    /// Relies on hashbrown::HashMap::len: the number of keys.
    #[verifier::external_body]
    pub fn len(&self) -> (r: usize)
        ensures
            r == entity_table_contents(*self).len(),
    {
        self.map.len()
    }
}

impl PairSet {
    /// Relies on hashbrown::HashSet::new: the new set is empty.
    #[verifier::external_body]
    pub fn new() -> (r: Self)
        ensures
            pair_set_contents(r) == PairSetView::empty(),
    {
        PairSet { set: hashbrown::HashSet::new() }
    }

    /// Relies on hashbrown::HashSet::contains: whether `p` is in the set.
    #[verifier::external_body]
    pub fn contains(&self, p: (u64, usize)) -> (r: bool)
        ensures
            r == pair_set_contents(*self).contains(p),
    {
        self.set.contains(&p)
    }

    /// Relies on hashbrown::HashSet::insert: `p` is in the set afterwards,
    /// and nothing else changes.
    #[verifier::external_body]
    pub fn insert(&mut self, p: (u64, usize))
        ensures
            pair_set_contents(*final(self)) == pair_set_contents(*old(self)).insert(p),
    {
        self.set.insert(p);
    }
}

impl EdgeTable {
    /// Relies on hashbrown::HashMap::new: the new map is empty.
    #[verifier::external_body]
    pub fn new() -> (r: Self)
        ensures
            edge_table_contents(r) == EdgeMap::empty(),
    {
        EdgeTable { map: hashbrown::HashMap::new() }
    }

    /// Relies on hashbrown::HashMap::get: the value stored under `k`, if any.
    #[verifier::external_body]
    pub fn get(&self, k: u64) -> (r: Option<usize>)
        ensures
            r == if edge_table_contents(*self).contains_key(k) {
                Some(edge_table_contents(*self)[k])
            } else {
                None
            },
    {
        self.map.get(&k).copied()
    }

    /// Relies on hashbrown::HashMap::insert: `k` maps to `v` afterwards, the
    /// other keys keep their values.
    #[verifier::external_body]
    pub fn insert(&mut self, k: u64, v: usize)
        ensures
            edge_table_contents(*final(self)) == edge_table_contents(*old(self)).insert(k, v),
    {
        self.map.insert(k, v);
    }
}

} // verus!
