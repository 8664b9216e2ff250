//! An archetype-based entity-component store.
//!
//! Entities carry components, each tagged with a `ComponentType`. Entities
//! that carry the same set of component types share an archetype, whose
//! components are stored column by column. Archetypes are linked into a
//! lattice by single-type insertion and removal edges.
use vstd::prelude::*;

pub mod archetype;
pub mod component_vec;
pub mod tables;
pub mod type_graph;

use crate::archetype::Archetype;
use crate::component_vec::swap_removed;
use crate::tables::{EntityTable, PairSet};
use crate::type_graph::TypeGraph;

verus! {

/// Runtime identity of a component type.
#[derive(Clone, Copy, PartialEq, Eq, Hash, Debug, Structural)]
pub struct ComponentType(pub u64);

/// Opaque identity of an entity, unique among the live entities of a store.
#[derive(Clone, Copy, PartialEq, Eq, Hash, Debug, Structural)]
pub struct EntityId(pub u128);

/// Identity of an archetype within its type graph.
#[derive(Clone, Copy, PartialEq, Eq, Hash, Debug, Structural)]
pub struct ArchetypeId(pub usize);

/// The store `m` after entity `e`, if live, is given `v` as its component
/// of type `t`.
pub open spec fn with_component<T>(m: Map<EntityId, Map<ComponentType, T>>, e: EntityId, t: ComponentType, v: T) -> Map<
    EntityId,
    Map<ComponentType, T>,
> {
    if m.contains_key(e) {
        m.insert(e, m[e].insert(t, v))
    } else {
        m
    }
}

/// The store `m` after entity `e`, if live, loses its component of type
/// `t`.
pub open spec fn without_component<T>(m: Map<EntityId, Map<ComponentType, T>>, e: EntityId, t: ComponentType) -> Map<
    EntityId,
    Map<ComponentType, T>,
> {
    if m.contains_key(e) {
        m.insert(e, m[e].remove(t))
    } else {
        m
    }
}

/// Whether position (`a`, `r`) stands in `pos`.
spec fn seen(pos: Seq<(int, int)>, a: int, r: int) -> bool {
    exists|i: int| 0 <= i < pos.len() && pos[i] == (a, r)
}

/// Relies on uuid::Uuid::new_v4 and Uuid::as_u128: a random 128-bit
/// value, of which nothing is promised.
#[verifier::external_body]
fn random_key() -> (r: u128) {
    uuid::Uuid::new_v4().as_u128()
}

/// An entity-component store.
pub struct ECS<T> {
    /// For each live entity: its archetype and its row there.
    entity_index: EntityTable,
    /// The pairs (component type, archetype) where the archetype has the type.
    component_index: PairSet,
    archetypes: TypeGraph<T>,
}

impl<T> View for ECS<T> {
    type V = Map<EntityId, Map<ComponentType, T>>;

    /// Each live entity with its components, by type.
    closed spec fn view(&self) -> Map<EntityId, Map<ComponentType, T>> {
        Map::new(
            |e: EntityId| self.entity_index@.contains_key(e.0),
            |e: EntityId| self.graph().arch(self.location_spec(e).0 as int).row(self.location_spec(e).1 as int),
        )
    }
}

impl<T> ECS<T> {
    /// The archetypes of the store.
    pub closed spec fn graph(&self) -> TypeGraph<T> {
        self.archetypes
    }

    /// The archetype and row recorded for entity `e`.
    pub closed spec fn location_spec(&self, e: EntityId) -> (usize, usize) {
        self.entity_index@[e.0]
    }

    /// Whether the type index records archetype `a` under type `t`.
    pub closed spec fn indexed(&self, t: ComponentType, a: usize) -> bool {
        self.component_index@.contains((t.0, a))
    }

    /// The graph is well formed; the entity index and the rows of the
    /// archetypes name each other; the type index records exactly the types
    /// of each archetype.
    pub closed spec fn wf(&self) -> bool {
        let g = self.archetypes;
        let idx = self.entity_index@;
        &&& g.wf()
        &&& idx.dom().finite()
        &&& forall|k: u128| #[trigger] idx.contains_key(k) ==> {
            &&& idx[k].0 < g.count()
            &&& idx[k].1 < g.arch(idx[k].0 as int).row_count()
            &&& g.arch(idx[k].0 as int).entities()[idx[k].1 as int] == EntityId(k)
        }
        &&& forall|a: int, r: int| 0 <= a < g.count() && 0 <= r < g.arch(a).row_count() ==> {
            &&& idx.contains_key((#[trigger] g.arch(a).entities()[r]).0)
            &&& idx[g.arch(a).entities()[r].0] == (a as usize, r as usize)
        }
        &&& forall|k: u64, a: usize| #[trigger] self.component_index@.contains((k, a))
            <==> (a < g.count() && g.types_of(a as int).contains(ComponentType(k)))
    }

    /// An empty store, holding the root archetype alone.
    pub fn new() -> (r: Self)
        ensures
            r.wf(),
            r@ == Map::<EntityId, Map<ComponentType, T>>::empty(),
            r.graph().count() == 1,
            r.graph().root_spec() == ArchetypeId(0),
            r.graph().types_of(0) == Set::<ComponentType>::empty(),
            r.graph().arch(0).row_count() == 0,
            forall|t: ComponentType, a: usize| !#[trigger] r.indexed(t, a),
    {
        let r = ECS { entity_index: EntityTable::new(), component_index: PairSet::new(), archetypes: TypeGraph::new() };
        assert(r@ =~= Map::<EntityId, Map<ComponentType, T>>::empty());
        r
    }

    /// `candidate` when it names no live entity; otherwise the least key
    /// that names none.
    fn fresh_key(&self, candidate: u128) -> (r: u128)
        requires
            self.wf(),
        ensures
            !self.entity_index@.contains_key(r),
            !self.entity_index@.contains_key(candidate) ==> r == candidate,
            self.entity_index@.contains_key(candidate) ==> forall|x: u128| x < r ==> #[trigger] self.entity_index@.contains_key(x),
    {
        if self.entity_index.get(candidate).is_none() {
            return candidate;
        }
        let n = self.entity_index.len();
        let mut c: u128 = 0;
        let ghost mut seen: Set<u128> = Set::empty();
        while c <= n as u128
            invariant
                self.wf(),
                self.entity_index@.contains_key(candidate),
                n == self.entity_index@.len(),
                c <= n + 1,
                seen.finite(),
                seen.len() == c,
                seen.subset_of(self.entity_index@.dom()),
                forall|x: u128| #[trigger] seen.contains(x) ==> x < c,
                forall|x: u128| x < c ==> #[trigger] self.entity_index@.contains_key(x),
            decreases n + 1 - c,
        {
            if self.entity_index.get(c).is_none() {
                return c;
            }
            proof {
                assert(!seen.contains(c));
                seen = seen.insert(c);
            }
            c = c + 1;
        }
        proof {
            vstd::set_lib::lemma_len_subset(seen, self.entity_index@.dom());
        }
        c
    }

    /// Creates an entity without components, keyed by `key` when no live
    /// entity has that key, and by the least free key otherwise.
    pub fn create_entity_with(&mut self, key: u128) -> (r: EntityId)
        requires
            old(self).wf(),
        ensures
            final(self).wf(),
            !old(self)@.contains_key(r),
            !old(self)@.contains_key(EntityId(key)) ==> r == EntityId(key),
            final(self)@ == old(self)@.insert(r, Map::<ComponentType, T>::empty()),
            old(self).appended_to_root(*final(self), r),
            old(self)@.contains_key(EntityId(key)) ==> forall|x: u128| x < r.0 ==> #[trigger] old(self)@.contains_key(EntityId(x)),
    {
        let k = self.fresh_key(key);
        let eid = EntityId(k);
        let root = self.archetypes.root();
        proof {
            self.archetypes.lemma_wf();
        }
        let ghost g0 = self.archetypes;
        let ghost mut pushed = g0.arch(0);
        let row = match self.archetypes.get_mut(root) {
            Some(x) => {
                let row = x.push_entity(eid);
                proof {
                    pushed = *x;
                }
                row
            },
            None => 0,
        };
        proof {
            assert(g0.replaced(self.archetypes, 0, pushed));
            g0.lemma_replaced(self.archetypes, 0, pushed);
        }
        self.entity_index.insert(k, (root.0, row));
        proof {
            self.lemma_after_push(*old(self), eid);
            assert forall|x: u128| x < k && old(self)@.contains_key(EntityId(key)) implies #[trigger] old(self)@.contains_key(EntityId(x)) by {
                assert(old(self).entity_index@.contains_key(x));
            }
        }
        eid
    }

    /// `post` is `self` after the entity at row `row` of archetype `a` left
    /// it: the entity column and each column of `a` are swap-removed at `row`,
    /// the entity that stood last in `a` now stands at `row`, the old
    /// archetypes keep their types, and those other than `a` and `other` are
    /// unchanged.
    pub open spec fn swap_removed_row(self, post: Self, a: int, row: int, other: int) -> bool {
        let n = self.graph().arch(a).row_count();
        &&& post.graph().count() >= self.graph().count()
        &&& forall|j: int| 0 <= j < self.graph().count() ==> #[trigger] post.graph().types_of(j) == self.graph().types_of(j)
        &&& forall|j: int| 0 <= j < self.graph().count() && j != a && j != other ==> #[trigger] post.graph().arch(j) == self.graph().arch(j)
        &&& post.graph().arch(a).row_count() == n - 1
        &&& post.graph().arch(a).entities() == swap_removed(self.graph().arch(a).entities(), row)
        &&& forall|t: ComponentType| #[trigger] self.graph().types_of(a).contains(t) ==> post.graph().arch(a).column(t)
            == swap_removed(self.graph().arch(a).column(t), row)
        &&& row < n - 1 ==> post.location_spec(self.graph().arch(a).entities()[n - 1]) == (a as usize, row as usize)
    }

    /// `post` is `self` after entity `e` moved from its archetype to the last
    /// row of the archetype whose types are `types`, which was created when
    /// no archetype had those types.
    pub open spec fn moved_to(self, post: Self, e: EntityId, types: Set<ComponentType>) -> bool {
        let a = self.location_spec(e).0 as int;
        let row = self.location_spec(e).1 as int;
        let b = post.location_spec(e).0 as int;
        &&& self.swap_removed_row(post, a, row, b)
        &&& 0 <= b < post.graph().count()
        &&& b != a
        &&& post.graph().types_of(b) == types
        &&& post.location_spec(e).1 + 1 == post.graph().arch(b).row_count()
        &&& b < self.graph().count() ==> post.graph().arch(b).entities() == self.graph().arch(b).entities().push(e)
        &&& b >= self.graph().count() ==> post.graph().arch(b).entities() == Seq::<EntityId>::empty().push(e)
        &&& post.graph().count() == self.graph().count() + if exists|j: int|
            0 <= j < self.graph().count() && #[trigger] self.graph().types_of(j) == types {
            0int
        } else {
            1int
        }
    }

    /// `post` is `self` with entity `e` appended to the root archetype, the
    /// other archetypes as they were.
    pub open spec fn appended_to_root(self, post: Self, e: EntityId) -> bool {
        &&& post.location_spec(e) == (0usize, self.graph().arch(0).row_count() as usize)
        &&& post.graph().count() == self.graph().count()
        &&& post.graph().arch(0).entities() == self.graph().arch(0).entities().push(e)
        &&& post.graph().arch(0).row_count() == self.graph().arch(0).row_count() + 1
        &&& forall|j: int| 0 <= j < self.graph().count() ==> #[trigger] post.graph().types_of(j) == self.graph().types_of(j)
        &&& forall|j: int| 0 < j < self.graph().count() ==> #[trigger] post.graph().arch(j) == self.graph().arch(j)
    }

    proof fn lemma_after_push(&self, s0: Self, eid: EntityId)
        requires
            s0.wf(),
            !s0.entity_index@.contains_key(eid.0),
            self.component_index == s0.component_index,
            self.archetypes.wf(),
            self.archetypes.count() == s0.archetypes.count(),
            forall|j: int| 0 <= j < s0.archetypes.count() && j != 0 ==> #[trigger] self.archetypes.arch(j) == s0.archetypes.arch(j),
            forall|j: int| 0 <= j < s0.archetypes.count() ==> #[trigger] self.archetypes.types_of(j) == s0.archetypes.types_of(j),
            self.archetypes.arch(0).entities() == s0.archetypes.arch(0).entities().push(eid),
            self.archetypes.arch(0).row_count() == s0.archetypes.arch(0).row_count() + 1,
            self.archetypes.arch(0).tags() == s0.archetypes.arch(0).tags(),
            self.entity_index@ == s0.entity_index@.insert(eid.0, (0usize, s0.archetypes.arch(0).row_count() as usize)),
        ensures
            self.wf(),
            self@ == s0@.insert(eid, Map::<ComponentType, T>::empty()),
    {
        let g0 = s0.archetypes;
        let g = self.archetypes;
        let idx0 = s0.entity_index@;
        let idx = self.entity_index@;
        let n0 = g0.arch(0).row_count();
        g0.lemma_wf();
        g.lemma_wf();
        g0.arch(0).lemma_wf();
        g.arch(0).lemma_wf();
        assert(g.arch(0).entities()[n0 as int] == eid);
        assert forall|k: u128| #[trigger] idx.contains_key(k) implies {
            &&& idx[k].0 < g.count()
            &&& idx[k].1 < g.arch(idx[k].0 as int).row_count()
            &&& g.arch(idx[k].0 as int).entities()[idx[k].1 as int] == EntityId(k)
        } by {
            if k != eid.0 {
                assert(idx0.contains_key(k));
                if idx[k].0 != 0 {
                    assert(g.arch(idx[k].0 as int) == g0.arch(idx[k].0 as int));
                } else {
                    assert(g.arch(0).entities()[idx[k].1 as int] == g0.arch(0).entities()[idx[k].1 as int]);
                }
            }
        }
        assert forall|a: int, r: int| 0 <= a < g.count() && 0 <= r < g.arch(a).row_count() implies {
            &&& idx.contains_key((#[trigger] g.arch(a).entities()[r]).0)
            &&& idx[g.arch(a).entities()[r].0] == (a as usize, r as usize)
        } by {
            if a != 0 {
                assert(g.arch(a) == g0.arch(a));
                assert(idx0.contains_key(g0.arch(a).entities()[r].0));
            } else if r < n0 {
                assert(g.arch(0).entities()[r] == g0.arch(0).entities()[r]);
                assert(idx0.contains_key(g0.arch(0).entities()[r].0));
            }
        }
        assert forall|k: u64, a: usize| #[trigger] self.component_index@.contains((k, a))
            <==> (a < g.count() && g.types_of(a as int).contains(ComponentType(k))) by {
            if a < g.count() {
                assert(g.types_of(a as int) == g0.types_of(a as int));
            }
        }
        assert(g.types_of(0) == Set::<ComponentType>::empty());
        assert forall|e: EntityId| #[trigger] self@.contains_key(e) implies self@[e] == s0@.insert(eid, Map::<ComponentType, T>::empty())[e] by {
            if e == eid {
                assert(self@[e] =~= Map::<ComponentType, T>::empty());
            } else {
                assert(idx0.contains_key(e.0));
                let (a, r) = idx0[e.0];
                if a == 0 {
                    assert(self@[e] =~= Map::<ComponentType, T>::empty());
                    assert(s0@[e] =~= Map::<ComponentType, T>::empty());
                } else {
                    assert(g.arch(a as int) == g0.arch(a as int));
                }
            }
        }
        assert(self@ =~= s0@.insert(eid, Map::<ComponentType, T>::empty()));
    }


    /// The entity index after the entity at row `row` of archetype `a`
    /// left it and the last row took its place.
    closed spec fn fixed_index(s0: Self, a: usize, row: usize) -> Map<u128, (usize, usize)> {
        let n0 = s0.archetypes.arch(a as int).row_count();
        if row < n0 - 1 {
            s0.entity_index@.insert(s0.archetypes.arch(a as int).entities()[n0 - 1].0, (a, row))
        } else {
            s0.entity_index@
        }
    }

    proof fn lemma_moved_to(&self, s0: Self, s1: Self, e: EntityId, a: usize, row: usize, b: usize, tys: Set<ComponentType>)
        requires
            s0.wf(),
            s1.wf(),
            s0.entity_index@.contains_key(e.0),
            s0.entity_index@[e.0] == (a, row),
            s1.entity_index == s0.entity_index,
            forall|j: int| 0 <= j < s0.graph().count() ==> #[trigger] s1.graph().arch(j) == s0.graph().arch(j),
            s1.graph().count() == s0.graph().count() || (s1.graph().count() == s0.graph().count() + 1
                && b == s0.graph().count() && s1.graph().arch(b as int).row_count() == 0
                && forall|j: int| 0 <= j < s0.graph().count() ==> #[trigger] s0.graph().types_of(j) != tys),
            b < s1.graph().count(),
            b != a,
            s1.graph().types_of(b as int) == tys,
            self.archetypes.count() == s1.archetypes.count(),
            forall|j: int| 0 <= j < s1.graph().count() ==> #[trigger] self.graph().types_of(j) == s1.graph().types_of(j),
            forall|j: int| 0 <= j < s1.graph().count() && j != a && j != b ==> #[trigger] self.graph().arch(j) == s1.graph().arch(j),
            self.graph().arch(a as int).row_count() == s1.graph().arch(a as int).row_count() - 1,
            self.graph().arch(a as int).entities() == swap_removed(s1.graph().arch(a as int).entities(), row as int),
            forall|t: ComponentType| s1.graph().types_of(a as int).contains(t) ==> #[trigger] self.graph().arch(a as int).column(t)
                == swap_removed(s1.graph().arch(a as int).column(t), row as int),
            self.graph().arch(b as int).row_count() == s1.graph().arch(b as int).row_count() + 1,
            self.graph().arch(b as int).entities() == s1.graph().arch(b as int).entities().push(e),
            self.entity_index@ == Self::fixed_index(s1, a, row).insert(e.0, (b, s1.graph().arch(b as int).row_count() as usize)),
        ensures
            s0.moved_to(*self, e, tys),
    {
        s0.lemma_last_row_other(e, a, row);
        s0.archetypes.lemma_wf();
        s1.archetypes.lemma_wf();
        s1.graph().arch(b as int).lemma_wf();
        assert(s1.graph().arch(a as int) == s0.graph().arch(a as int));
        if b < s0.graph().count() {
            assert(s1.graph().arch(b as int) == s0.graph().arch(b as int));
            assert(s0.graph().types_of(b as int) == tys);
            assert(exists|j: int| 0 <= j < s0.graph().count() && #[trigger] s0.graph().types_of(j) == tys);
        } else {
            assert(s1.graph().arch(b as int).entities() =~= Seq::<EntityId>::empty());
        }
        assert forall|j: int| 0 <= j < s0.graph().count() implies #[trigger] self.graph().types_of(j) == s0.graph().types_of(j) by {
            assert(s1.graph().arch(j) == s0.graph().arch(j));
        }
        assert forall|j: int| 0 <= j < s0.graph().count() && j != a && j != b implies #[trigger] self.graph().arch(j) == s0.graph().arch(j) by {
            assert(s1.graph().arch(j) == s0.graph().arch(j));
        }
    }

    /// The entity in the last row of the archetype of `e`, when `e` is not
    /// in that row, is another entity, recorded at that last row.
    proof fn lemma_last_row_other(&self, e: EntityId, a: usize, row: usize)
        requires
            self.wf(),
            self.entity_index@.contains_key(e.0),
            self.entity_index@[e.0] == (a, row),
        ensures
            a < self.graph().count(),
            row < self.graph().arch(a as int).row_count(),
            self.location_spec(e) == (a, row),
            row < self.graph().arch(a as int).row_count() - 1 ==> {
                let m = self.graph().arch(a as int).entities()[self.graph().arch(a as int).row_count() - 1];
                &&& m.0 != e.0
                &&& self.entity_index@.contains_key(m.0)
                &&& self.entity_index@[m.0] == (a, (self.graph().arch(a as int).row_count() - 1) as usize)
            },
    {
        self.archetypes.lemma_wf();
        self.archetypes.arch(a as int).lemma_wf();
    }

    proof fn lemma_moved(&self, s0: Self, e: EntityId, a: usize, row: usize, dest: Option<usize>)
        requires
            s0.wf(),
            s0.entity_index@.contains_key(e.0),
            s0.entity_index@[e.0] == (a, row),
            self.archetypes.wf(),
            self.component_index == s0.component_index,
            self.archetypes.count() == s0.archetypes.count(),
            forall|j: int| 0 <= j < s0.archetypes.count() ==> #[trigger] self.archetypes.types_of(j) == s0.archetypes.types_of(j),
            forall|j: int| 0 <= j < s0.archetypes.count() && j != a && (dest is None || j != dest.unwrap())
                ==> #[trigger] self.archetypes.arch(j) == s0.archetypes.arch(j),
            self.archetypes.arch(a as int).row_count() == s0.archetypes.arch(a as int).row_count() - 1,
            self.archetypes.arch(a as int).entities() == swap_removed(s0.archetypes.arch(a as int).entities(), row as int),
            forall|r: int| 0 <= r < self.archetypes.arch(a as int).row_count() ==> #[trigger] self.archetypes.arch(a as int).row(r)
                == s0.archetypes.arch(a as int).row(
                    if r == row {
                        s0.archetypes.arch(a as int).row_count() - 1
                    } else {
                        r
                    },
                ),
            dest matches Some(b) ==> {
                &&& b < s0.archetypes.count()
                &&& b != a
                &&& self.archetypes.arch(b as int).row_count() == s0.archetypes.arch(b as int).row_count() + 1
                &&& self.archetypes.arch(b as int).entities() == s0.archetypes.arch(b as int).entities().push(e)
                &&& forall|r: int| 0 <= r < s0.archetypes.arch(b as int).row_count() ==> #[trigger] self.archetypes.arch(b as int).row(r)
                    == s0.archetypes.arch(b as int).row(r)
                &&& self.entity_index@ == Self::fixed_index(s0, a, row).insert(
                    e.0,
                    (b, s0.archetypes.arch(b as int).row_count() as usize),
                )
            },
            dest is None ==> self.entity_index@ == Self::fixed_index(s0, a, row).remove(e.0),
        ensures
            self.wf(),
            dest is None ==> self@ == s0@.remove(e),
            dest matches Some(b) ==> self@ == s0@.insert(
                e,
                self.archetypes.arch(b as int).row(s0.archetypes.arch(b as int).row_count() as int),
            ),
    {
        let g0 = s0.archetypes;
        let g = self.archetypes;
        let idx0 = s0.entity_index@;
        let idx = self.entity_index@;
        let n0 = g0.arch(a as int).row_count();
        let last = n0 - 1;
        let moved = g0.arch(a as int).entities()[last];
        g0.lemma_wf();
        g.lemma_wf();
        g0.arch(a as int).lemma_wf();
        g.arch(a as int).lemma_wf();
        assert(g0.arch(a as int).entities()[row as int] == e);
        assert(row < last ==> moved != e);
        assert(idx0.contains_key(moved.0) && idx0[moved.0] == (a, last as usize));
        if let Some(b) = dest {
            g0.arch(b as int).lemma_wf();
            g.arch(b as int).lemma_wf();
            assert(g.arch(b as int).entities()[g0.arch(b as int).row_count() as int] == e);
        }
        assert forall|k: u128| #[trigger] idx.contains_key(k) implies {
            &&& idx[k].0 < g.count()
            &&& idx[k].1 < g.arch(idx[k].0 as int).row_count()
            &&& g.arch(idx[k].0 as int).entities()[idx[k].1 as int] == EntityId(k)
        } by {
            if k == e.0 {
            } else if row < last && k == moved.0 {
            } else {
                assert(idx0.contains_key(k));
                let (a1, r1) = idx0[k];
                assert(idx[k] == idx0[k]);
                if a1 == a {
                    g0.arch(a as int).lemma_wf();
                    assert(r1 != row);
                    assert(r1 != last);
                } else if dest is Some && a1 == dest.unwrap() {
                    assert(g.arch(a1 as int).entities()[r1 as int] == g0.arch(a1 as int).entities()[r1 as int]);
                } else {
                    assert(g.arch(a1 as int) == g0.arch(a1 as int));
                }
            }
        }
        assert forall|a1: int, r: int| 0 <= a1 < g.count() && 0 <= r < g.arch(a1).row_count() implies {
            &&& idx.contains_key((#[trigger] g.arch(a1).entities()[r]).0)
            &&& idx[g.arch(a1).entities()[r].0] == (a1 as usize, r as usize)
        } by {
            let x = g.arch(a1).entities()[r];
            if a1 == a {
                if r == row {
                    assert(x == moved);
                    assert(row < last);
                    assert(moved.0 != e.0);
                } else {
                    assert(x == g0.arch(a1).entities()[r]);
                    assert(idx0.contains_key(x.0) && idx0[x.0] == (a1 as usize, r as usize));
                    assert(x.0 != e.0);
                    assert(x.0 != moved.0);
                    assert(idx[x.0] == idx0[x.0]);
                }
            } else if dest is Some && a1 == dest.unwrap() {
                if r < g0.arch(a1).row_count() {
                    assert(x == g0.arch(a1).entities()[r]);
                    assert(idx0.contains_key(x.0) && idx0[x.0] == (a1 as usize, r as usize));
                    assert(x.0 != e.0);
                    assert(x.0 != moved.0);
                    assert(idx[x.0] == idx0[x.0]);
                } else {
                    assert(x == e);
                }
            } else {
                assert(g.arch(a1) == g0.arch(a1));
                assert(x == g0.arch(a1).entities()[r]);
                assert(idx0.contains_key(x.0) && idx0[x.0] == (a1 as usize, r as usize));
                assert(a1 as usize != a);
                assert(x.0 != e.0);
                assert(x.0 != moved.0);
                assert(idx[x.0] == idx0[x.0]);
            }
        }
        assert forall|k: u64, a1: usize| #[trigger] self.component_index@.contains((k, a1))
            <==> (a1 < g.count() && g.types_of(a1 as int).contains(ComponentType(k))) by {
            if a1 < g.count() {
                assert(g.types_of(a1 as int) == g0.types_of(a1 as int));
            }
        }
        assert(idx.dom().finite());
        let target = match dest {
            None => s0@.remove(e),
            Some(b) => s0@.insert(e, g.arch(b as int).row(g0.arch(b as int).row_count() as int)),
        };
        assert forall|x: EntityId| #[trigger] self@.contains_key(x) <==> target.contains_key(x) by {
            if x != e && idx0.contains_key(x.0) {
                assert(idx.contains_key(x.0));
            }
        }
        assert forall|x: EntityId| #[trigger] self@.contains_key(x) implies self@[x] == target[x] by {
            if x == e {
            } else if row < last && x == moved {
                assert(g.arch(a as int).row(row as int) == g0.arch(a as int).row(last));
            } else {
                let (a1, r1) = idx0[x.0];
                assert(idx[x.0] == idx0[x.0]);
                if a1 == a {
                    assert(r1 != row);
                    assert(r1 != last);
                    assert(g.arch(a as int).row(r1 as int) == g0.arch(a as int).row(r1 as int));
                } else if dest is Some && a1 == dest.unwrap() {
                    assert(g.arch(a1 as int).row(r1 as int) == g0.arch(a1 as int).row(r1 as int));
                } else {
                    assert(g.arch(a1 as int) == g0.arch(a1 as int));
                }
            }
        }
        assert(self@ =~= target);
    }


    /// Points the entity index at the entity that now stands at row
    /// `new_spot` of archetype `a`, if any row stands there.
    fn check_swapped_row(&mut self, new_spot: usize, a: ArchetypeId)
        requires
            old(self).archetypes.wf(),
            a.0 < old(self).archetypes.count(),
            new_spot <= old(self).archetypes.arch(a.0 as int).row_count(),
        ensures
            final(self).archetypes == old(self).archetypes,
            final(self).component_index == old(self).component_index,
            final(self).entity_index@ == if new_spot < old(self).archetypes.arch(a.0 as int).row_count() {
                old(self).entity_index@.insert(
                    old(self).archetypes.arch(a.0 as int).entities()[new_spot as int].0,
                    (a.0, new_spot),
                )
            } else {
                old(self).entity_index@
            },
    {
        proof {
            self.archetypes.lemma_wf();
        }
        let arche = self.archetypes.get(a).unwrap();
        if new_spot != arche.len() {
            let moved = arche.entity_at(new_spot);
            self.entity_index.insert(moved.0, (a.0, new_spot));
        }
    }

    /// Records archetype `a` in the type index under each of its types.
    fn update_component_index(&mut self, a: ArchetypeId)
        requires
            old(self).archetypes.wf(),
            a.0 < old(self).archetypes.count(),
        ensures
            final(self).archetypes == old(self).archetypes,
            final(self).entity_index == old(self).entity_index,
            forall|k: u64, b: usize| #[trigger] final(self).component_index@.contains((k, b))
                <==> (old(self).component_index@.contains((k, b)) || (b == a.0
                && old(self).archetypes.types_of(a.0 as int).contains(ComponentType(k)))),
    {
        proof {
            self.archetypes.lemma_wf();
        }
        let types = self.archetypes.get(a).unwrap().component_types();
        let mut i: usize = 0;
        while i < types.len()
            invariant
                self.archetypes == old(self).archetypes,
                self.entity_index == old(self).entity_index,
                i <= types@.len(),
                forall|k: u64, b: usize| #[trigger] self.component_index@.contains((k, b))
                    <==> (old(self).component_index@.contains((k, b)) || (b == a.0
                    && exists|j: int| 0 <= j < i && types@[j] == ComponentType(k))),
            decreases types@.len() - i,
        {
            let t = types[i];
            let ghost before = self.component_index@;
            self.component_index.insert((t.0, a.0));
            proof {
                assert(self.component_index@ == before.insert((t.0, a.0)));
                assert forall|k: u64, b: usize| #[trigger] self.component_index@.contains((k, b))
                    <==> (old(self).component_index@.contains((k, b)) || (b == a.0
                    && exists|j: int| 0 <= j < i + 1 && types@[j] == ComponentType(k))) by {
                    if b == a.0 && k == t.0 {
                        assert(types@[i as int] == ComponentType(k));
                    }
                    if b == a.0 && (exists|j: int| 0 <= j < i + 1 && types@[j] == ComponentType(k)) {
                        let j = choose|j: int| 0 <= j < i + 1 && types@[j] == ComponentType(k);
                        if j == i {
                            assert(k == t.0);
                        }
                    }
                }
            }
            i += 1;
        }
        proof {
            assert forall|k: u64| (exists|j: int| 0 <= j < types@.len() && types@[j] == ComponentType(k))
                <==> old(self).archetypes.types_of(a.0 as int).contains(ComponentType(k)) by {
                if old(self).archetypes.types_of(a.0 as int).contains(ComponentType(k)) {
                    assert(types@.to_set().contains(ComponentType(k)));
                }
            }
        }
    }

    /// The archetype and row of entity `e`, if it is live.
    pub fn location(&self, e: EntityId) -> (r: Option<(ArchetypeId, usize)>)
        ensures
            r is Some <==> self@.contains_key(e),
            r matches Some(p) ==> p.0.0 == self.location_spec(e).0 && p.1 == self.location_spec(e).1,
    {
        match self.entity_index.get(e.0) {
            Some((a, row)) => Some((ArchetypeId(a), row)),
            None => None,
        }
    }

    /// The id of the archetype without component types.
    pub fn root(&self) -> (r: ArchetypeId)
        requires
            self.wf(),
        ensures
            r == ArchetypeId(0),
            r == self.graph().root_spec(),
    {
        proof {
            self.archetypes.lemma_wf();
        }
        self.archetypes.root()
    }

    /// The archetypes of the store.
    pub fn archetypes(&self) -> (r: &TypeGraph<T>)
        ensures
            *r == self.graph(),
    {
        &self.archetypes
    }

    /// Whether `e` is live and carries a component of type `ty`.
    pub fn has_component(&self, e: EntityId, ty: ComponentType) -> (r: bool)
        requires
            self.wf(),
        ensures
            r == (self@.contains_key(e) && self@[e].contains_key(ty)),
    {
        match self.entity_index.get(e.0) {
            Some((a, row)) => {
                assert(self@.contains_key(e));
                assert(ComponentType(ty.0) == ty);
                assert(self@[e] == self.archetypes.arch(a as int).row(row as int));
                assert(self@[e].contains_key(ty) == self.archetypes.types_of(a as int).contains(ty));
                assert(a < self.archetypes.count());
                let r = self.component_index.contains((ty.0, a));
                assert(r == self.component_index@.contains((ty.0, a)));
                assert(r == self.archetypes.types_of(a as int).contains(ComponentType(ty.0)));
                r
            },
            None => {
                assert(!self@.contains_key(e));
                false
            },
        }
    }

    /// The component of type `ty` of entity `e`, if `e` is live and carries
    /// one.
    pub fn get_component(&self, e: EntityId, ty: ComponentType) -> (r: Option<&T>)
        requires
            self.wf(),
        ensures
            r is Some <==> (self@.contains_key(e) && self@[e].contains_key(ty)),
            r matches Some(v) ==> *v == self@[e][ty],
    {
        match self.entity_index.get(e.0) {
            Some((a, row)) => {
                proof {
                    self.archetypes.lemma_wf();
                    self.archetypes.arch(a as int).lemma_wf();
                    assert(self@.contains_key(e));
                }
                self.archetypes.get(ArchetypeId(a)).unwrap().get_component(ty, row)
            },
            None => None,
        }
    }


    /// Destroys entity `e` with its components; does nothing when `e` is
    /// not live.
    pub fn destroy_entity(&mut self, e: EntityId)
        requires
            old(self).wf(),
        ensures
            final(self).wf(),
            final(self)@ == old(self)@.remove(e),
            !old(self)@.contains_key(e) ==> *final(self) == *old(self),
            old(self)@.contains_key(e) ==> final(self).graph().count() == old(self).graph().count(),
            old(self)@.contains_key(e) ==> old(self).swap_removed_row(
                *final(self),
                old(self).location_spec(e).0 as int,
                old(self).location_spec(e).1 as int,
                old(self).location_spec(e).0 as int,
            ),
    {
        match self.entity_index.get(e.0) {
            Some((a, row)) => {
                let aid = ArchetypeId(a);
                let ghost g0 = self.archetypes;
                proof {
                    g0.lemma_wf();
                    g0.arch(a as int).lemma_wf();
                }
                let ghost mut after = g0.arch(a as int);
                match self.archetypes.get_mut(aid) {
                    Some(x) => {
                        x.remove_entity(row);
                        proof {
                            after = *x;
                        }
                    },
                    None => {},
                }
                proof {
                    g0.lemma_replaced(self.archetypes, a as int, after);
                    g0.arch(a as int).lemma_rows_swap_removed(after, row as int);
                }
                self.check_swapped_row(row, aid);
                self.entity_index.remove(e.0);
                proof {
                    assert(self.entity_index@ == Self::fixed_index(*old(self), a, row).remove(e.0));
                    self.lemma_moved(*old(self), e, a, row, None);
                    old(self).lemma_last_row_other(e, a, row);
                }
            },
            None => {
                assert(old(self)@.remove(e) =~= old(self)@);
            },
        }
    }


    proof fn lemma_created(&self, s0: Self)
        requires
            s0.wf(),
            self.entity_index == s0.entity_index,
            self.archetypes.wf(),
            self.archetypes.count() == s0.archetypes.count() + 1,
            forall|j: int| 0 <= j < s0.archetypes.count() ==> #[trigger] self.archetypes.arch(j) == s0.archetypes.arch(j),
            self.archetypes.arch(s0.archetypes.count() as int).row_count() == 0,
            forall|k: u64, b: usize| #[trigger] self.component_index@.contains((k, b))
                <==> (s0.component_index@.contains((k, b)) || (b == s0.archetypes.count()
                && self.archetypes.types_of(b as int).contains(ComponentType(k)))),
        ensures
            self.wf(),
            self@ == s0@,
    {
        let g0 = s0.archetypes;
        let g = self.archetypes;
        let idx = self.entity_index@;
        g0.lemma_wf();
        g.lemma_wf();
        assert forall|k: u128| #[trigger] idx.contains_key(k) implies {
            &&& idx[k].0 < g.count()
            &&& idx[k].1 < g.arch(idx[k].0 as int).row_count()
            &&& g.arch(idx[k].0 as int).entities()[idx[k].1 as int] == EntityId(k)
        } by {
            assert(g.arch(idx[k].0 as int) == g0.arch(idx[k].0 as int));
        }
        assert forall|a: int, r: int| 0 <= a < g.count() && 0 <= r < g.arch(a).row_count() implies {
            &&& idx.contains_key((#[trigger] g.arch(a).entities()[r]).0)
            &&& idx[g.arch(a).entities()[r].0] == (a as usize, r as usize)
        } by {
            assert(g.arch(a) == g0.arch(a));
        }
        assert forall|k: u64, b: usize| #[trigger] self.component_index@.contains((k, b))
            <==> (b < g.count() && g.types_of(b as int).contains(ComponentType(k))) by {
            if b < g0.count() {
                assert(g.arch(b as int) == g0.arch(b as int));
            }
        }
        assert forall|x: EntityId| #[trigger] self@.contains_key(x) implies self@[x] == s0@[x] by {
            assert(g.arch(idx[x.0].0 as int) == g0.arch(idx[x.0].0 as int));
        }
        assert(self@ =~= s0@);
    }

    proof fn lemma_overwritten(&self, s0: Self, e: EntityId, a: usize, row: usize, m: Map<ComponentType, T>)
        requires
            s0.wf(),
            s0.entity_index@.contains_key(e.0),
            s0.entity_index@[e.0] == (a, row),
            self.entity_index == s0.entity_index,
            self.component_index == s0.component_index,
            self.archetypes.wf(),
            self.archetypes.count() == s0.archetypes.count(),
            forall|j: int| 0 <= j < s0.archetypes.count() ==> #[trigger] self.archetypes.types_of(j) == s0.archetypes.types_of(j),
            forall|j: int| 0 <= j < s0.archetypes.count() && j != a ==> #[trigger] self.archetypes.arch(j) == s0.archetypes.arch(j),
            self.archetypes.arch(a as int).entities() == s0.archetypes.arch(a as int).entities(),
            self.archetypes.arch(a as int).row_count() == s0.archetypes.arch(a as int).row_count(),
            forall|r: int| 0 <= r < s0.archetypes.arch(a as int).row_count() && r != row ==> #[trigger] self.archetypes.arch(a as int).row(r)
                == s0.archetypes.arch(a as int).row(r),
            self.archetypes.arch(a as int).row(row as int) == m,
        ensures
            self.wf(),
            self@ == s0@.insert(e, m),
    {
        let g0 = s0.archetypes;
        let g = self.archetypes;
        let idx = self.entity_index@;
        g0.lemma_wf();
        g.lemma_wf();
        assert forall|k: u128| #[trigger] idx.contains_key(k) implies {
            &&& idx[k].0 < g.count()
            &&& idx[k].1 < g.arch(idx[k].0 as int).row_count()
            &&& g.arch(idx[k].0 as int).entities()[idx[k].1 as int] == EntityId(k)
        } by {
            if idx[k].0 != a {
                assert(g.arch(idx[k].0 as int) == g0.arch(idx[k].0 as int));
            }
        }
        assert forall|a1: int, r: int| 0 <= a1 < g.count() && 0 <= r < g.arch(a1).row_count() implies {
            &&& idx.contains_key((#[trigger] g.arch(a1).entities()[r]).0)
            &&& idx[g.arch(a1).entities()[r].0] == (a1 as usize, r as usize)
        } by {
            if a1 != a {
                assert(g.arch(a1) == g0.arch(a1));
            }
            assert(g.arch(a1).entities()[r] == g0.arch(a1).entities()[r]);
        }
        assert forall|k: u64, b: usize| #[trigger] self.component_index@.contains((k, b))
            <==> (b < g.count() && g.types_of(b as int).contains(ComponentType(k))) by {
            if b < g.count() {
                assert(g.types_of(b as int) == g0.types_of(b as int));
            }
        }
        assert forall|x: EntityId| #[trigger] self@.contains_key(x) implies self@[x] == s0@.insert(e, m)[x] by {
            if x != e {
                let (a1, r1) = idx[x.0];
                if a1 == a {
                    g0.arch(a as int).lemma_wf();
                    assert(r1 != row);
                } else {
                    assert(g.arch(a1 as int) == g0.arch(a1 as int));
                }
            }
        }
        assert(self@ =~= s0@.insert(e, m));
    }


    /// Gives entity `e` the component `component` of type `ty`, replacing
    /// the one it had of that type; does nothing when `e` is not live.
    pub fn attach_component(&mut self, e: EntityId, ty: ComponentType, component: T)
        requires
            old(self).wf(),
        ensures
            final(self).wf(),
            final(self)@ == with_component(old(self)@, e, ty, component),
            !old(self)@.contains_key(e) ==> *final(self) == *old(self),
            old(self)@.contains_key(e) && old(self)@[e].contains_key(ty) ==> final(self).location_spec(e)
                == old(self).location_spec(e) && final(self).graph().count() == old(self).graph().count()
                && forall|j: int| 0 <= j < old(self).graph().count() ==> #[trigger] final(self).graph().types_of(j)
                == old(self).graph().types_of(j),
            old(self)@.contains_key(e) && !old(self)@[e].contains_key(ty) ==> old(self).moved_to(
                *final(self),
                e,
                old(self).graph().types_of(old(self).location_spec(e).0 as int).insert(ty),
            ),
    {
        let ghost c = component;
        match self.entity_index.get(e.0) {
            Some((a, row)) => {
                let aid = ArchetypeId(a);
                let ghost g0 = self.archetypes;
                proof {
                    g0.lemma_wf();
                    g0.arch(a as int).lemma_wf();
                    assert(old(self)@.contains_key(e));
                }
                if self.archetypes.get(aid).unwrap().has_type(ty) {
                    let ghost mut after = g0.arch(a as int);
                    match self.archetypes.get_mut(aid) {
                        Some(x) => {
                            x.set_component(ty, row, component);
                            proof {
                                after = *x;
                            }
                        },
                        None => {},
                    }
                    proof {
                        g0.arch(a as int).lemma_rows_written(after, ty, row as int, c);
                        g0.lemma_replaced(self.archetypes, a as int, after);
                        self.lemma_overwritten(*old(self), e, a, row, old(self)@[e].insert(ty, c));
                    }
                } else {
                    let b = match self.archetypes.get_superset_with(aid, ty) {
                        Some(b) => b,
                        None => {
                            let b = self.archetypes.create_superset_with(aid, ty);
                            self.update_component_index(b);
                            proof {
                                self.lemma_created(*old(self));
                            }
                            b
                        },
                    };
                    let ghost s1 = *self;
                    let ghost g1 = self.archetypes;
                    proof {
                        g1.lemma_wf();
                        g1.arch(a as int).lemma_wf();
                        g1.arch(b.0 as int).lemma_wf();
                        assert(s1.entity_index@[e.0] == (a, row));
                    }
                    let new_row = self.archetypes.upgrade_entity(aid, b, row, ty, component);
                    proof {
                        let src0 = g1.arch(a as int);
                        let dst0 = g1.arch(b.0 as int);
                        let extra = src0.row(row as int).insert(ty, c);
                        assert(extra.dom() =~= dst0.types());
                        src0.lemma_rows_swap_removed(self.archetypes.arch(a as int), row as int);
                        dst0.lemma_rows_pushed(self.archetypes.arch(b.0 as int), extra);
                    }
                    self.check_swapped_row(row, aid);
                    self.entity_index.insert(e.0, (b.0, new_row));
                    proof {
                        assert(self.entity_index@ == Self::fixed_index(s1, a, row).insert(e.0, (b.0, new_row)));
                        self.lemma_moved(s1, e, a, row, Some(b.0));
                        let tys = g0.types_of(a as int).insert(ty);
                        self.lemma_moved_to(*old(self), s1, e, a, row, b.0, tys);
                    }
                }
            },
            None => {},
        }
    }


    /// Takes the component of type `ty` away from entity `e`, dropping it;
    /// does nothing when `e` is not live or has no component of that type.
    pub fn detach_component(&mut self, e: EntityId, ty: ComponentType)
        requires
            old(self).wf(),
        ensures
            final(self).wf(),
            final(self)@ == without_component(old(self)@, e, ty),
            !old(self)@.contains_key(e) ==> *final(self) == *old(self),
            old(self)@.contains_key(e) && !old(self)@[e].contains_key(ty) ==> *final(self) == *old(self),
            old(self)@.contains_key(e) && old(self)@[e].contains_key(ty) ==> old(self).moved_to(
                *final(self),
                e,
                old(self).graph().types_of(old(self).location_spec(e).0 as int).remove(ty),
            ),
    {
        match self.entity_index.get(e.0) {
            Some((a, row)) => {
                let aid = ArchetypeId(a);
                let ghost g0 = self.archetypes;
                proof {
                    g0.lemma_wf();
                    g0.arch(a as int).lemma_wf();
                    assert(old(self)@.contains_key(e));
                    assert(old(self)@[e] == g0.arch(a as int).row(row as int));
                }
                if !self.archetypes.get(aid).unwrap().has_type(ty) {
                    assert(old(self)@[e].remove(ty) =~= old(self)@[e]);
                    assert(old(self)@.insert(e, old(self)@[e].remove(ty)) =~= old(self)@);
                    return;
                }
                let b = match self.archetypes.get_subset_without(aid, ty) {
                    Some(b) => b,
                    None => {
                        let b = self.archetypes.create_subset_without(aid, ty);
                        self.update_component_index(b);
                        proof {
                            self.lemma_created(*old(self));
                        }
                        b
                    },
                };
                let ghost s1 = *self;
                let ghost g1 = self.archetypes;
                proof {
                    g1.lemma_wf();
                    g1.arch(a as int).lemma_wf();
                    g1.arch(b.0 as int).lemma_wf();
                    assert(s1.entity_index@[e.0] == (a, row));
                }
                let new_row = self.archetypes.downgrade_entity(aid, b, row, ty);
                proof {
                    let src0 = g1.arch(a as int);
                    let dst0 = g1.arch(b.0 as int);
                    let extra = src0.row(row as int).remove(ty);
                    assert(extra.dom() =~= dst0.types());
                    src0.lemma_rows_swap_removed(self.archetypes.arch(a as int), row as int);
                    dst0.lemma_rows_pushed(self.archetypes.arch(b.0 as int), extra);
                }
                self.check_swapped_row(row, aid);
                self.entity_index.insert(e.0, (b.0, new_row));
                proof {
                    assert(self.entity_index@ == Self::fixed_index(s1, a, row).insert(e.0, (b.0, new_row)));
                    self.lemma_moved(s1, e, a, row, Some(b.0));
                    let tys = g0.types_of(a as int).remove(ty);
                    assert(g1.types_of(b.0 as int) =~= tys);
                    self.lemma_moved_to(*old(self), s1, e, a, row, b.0, tys);
                }
            },
            None => {},
        }
    }


    /// Creates an entity without components, keyed by a random 128-bit
    /// value (by the least free key in the unlikely case that the value
    /// names a live entity).
    pub fn create_entity(&mut self) -> (r: EntityId)
        requires
            old(self).wf(),
        ensures
            final(self).wf(),
            !old(self)@.contains_key(r),
            final(self)@ == old(self)@.insert(r, Map::<ComponentType, T>::empty()),
            old(self).appended_to_root(*final(self), r),
    {
        let key = random_key();
        self.create_entity_with(key)
    }

    /// `post` is `self` with the component of type `ty` of entity `e` set to
    /// `x`.
    pub closed spec fn slot_written(self, post: Self, e: EntityId, ty: ComponentType, x: T) -> bool {
        let (a, row) = self.entity_index@[e.0];
        &&& post.entity_index == self.entity_index
        &&& post.component_index == self.component_index
        &&& self.archetypes.replaced(post.archetypes, a as int, post.archetypes.arch(a as int))
        &&& self.archetypes.arch(a as int).written(post.archetypes.arch(a as int), ty, row as int, x)
    }

    /// Writing one component through `get_component_mut` keeps the store
    /// well formed and changes that component alone.
    pub proof fn lemma_slot_written(self, post: Self, e: EntityId, ty: ComponentType, x: T)
        requires
            self.slot_written(post, e, ty, x),
            self.wf(),
            self@.contains_key(e),
            self@[e].contains_key(ty),
        ensures
            post.wf(),
            post@ == self@.insert(e, self@[e].insert(ty, x)),
    {
        let (a, row) = self.entity_index@[e.0];
        let g0 = self.archetypes;
        g0.lemma_wf();
        g0.arch(a as int).lemma_wf();
        assert(self@[e] == g0.arch(a as int).row(row as int));
        let after = post.archetypes.arch(a as int);
        g0.arch(a as int).lemma_rows_written(after, ty, row as int, x);
        g0.lemma_replaced(post.archetypes, a as int, after);
        post.lemma_overwritten(self, e, a, row, self@[e].insert(ty, x));
    }

    /// The component of type `ty` of entity `e`, for writing, if `e` is live
    /// and carries one. What is written through it becomes that component,
    /// and nothing else changes (`lemma_slot_written`).
    pub fn get_component_mut(&mut self, e: EntityId, ty: ComponentType) -> (r: Option<&mut T>)
        requires
            old(self).wf(),
        ensures
            r is Some <==> (old(self)@.contains_key(e) && old(self)@[e].contains_key(ty)),
            r is None ==> *final(self) == *old(self),
            r matches Some(v) ==> *v == old(self)@[e][ty],
            r matches Some(v) ==> old(self).slot_written(*final(self), e, ty, *final(v)),
    {
        match self.entity_index.get(e.0) {
            Some((a, row)) => {
                proof {
                    self.archetypes.lemma_wf();
                    self.archetypes.arch(a as int).lemma_wf();
                    assert(self@.contains_key(e));
                    assert(self@[e] == self.archetypes.arch(a as int).row(row as int));
                }
                if !self.archetypes.get(ArchetypeId(a)).unwrap().has_type(ty) {
                    return None;
                }
                self.archetypes.get_component_mut(ArchetypeId(a), ty, row)
            },
            None => None,
        }
    }


    /// Whether archetype `a` has every type of `types`.
    fn has_all(arche: &Archetype<T>, types: &Vec<ComponentType>) -> (r: bool)
        requires
            arche.wf(),
        ensures
            r == (forall|k: int| 0 <= k < types@.len() ==> arche.types().contains(#[trigger] types@[k])),
    {
        let mut k: usize = 0;
        while k < types.len()
            invariant
                arche.wf(),
                k <= types@.len(),
                forall|j: int| 0 <= j < k ==> arche.types().contains(#[trigger] types@[j]),
            decreases types@.len() - k,
        {
            if !arche.has_type(types[k]) {
                return false;
            }
            k += 1;
        }
        true
    }

    /// Each live entity that carries every type of `types`, once, with
    /// its components of those types in the order of `types`. Within one
    /// archetype the entities come in row order.
    pub fn iter_components<'a>(&'a self, types: &Vec<ComponentType>) -> (r: Vec<(EntityId, Vec<&'a T>)>)
        requires
            self.wf(),
        ensures
            forall|i: int| 0 <= i < r@.len() ==> {
                &&& self@.contains_key(#[trigger] r@[i].0)
                &&& r@[i].1@.len() == types@.len()
                &&& forall|k: int| 0 <= k < types@.len() ==> {
                    &&& self@[r@[i].0].contains_key(#[trigger] types@[k])
                    &&& *r@[i].1@[k] == self@[r@[i].0][types@[k]]
                }
            },
            forall|e: EntityId| #[trigger] self@.contains_key(e) && (forall|k: int| 0 <= k < types@.len() ==> self@[e].contains_key(#[trigger] types@[k]))
                ==> exists|i: int| 0 <= i < r@.len() && r@[i].0 == e,
            forall|i: int, j: int| 0 <= i < r@.len() && 0 <= j < r@.len() && i != j ==> r@[i].0 != r@[j].0,
            forall|i: int, j: int| 0 <= i < j < r@.len() ==> {
                let p = self.location_spec(#[trigger] r@[i].0);
                let q = self.location_spec(#[trigger] r@[j].0);
                p.0 < q.0 || (p.0 == q.0 && p.1 < q.1)
            },
    {
        let ghost g = self.archetypes;
        let ghost idx = self.entity_index@;
        proof {
            g.lemma_wf();
        }
        let mut out: Vec<(EntityId, Vec<&'a T>)> = Vec::new();
        let ghost mut pos: Seq<(int, int)> = Seq::empty();
        let n = self.archetypes.len();
        let mut a: usize = 0;
        while a < n
            invariant
                self.wf(),
                g == self.archetypes,
                idx == self.entity_index@,
                n == g.count(),
                n <= usize::MAX,
                forall|a1: int| 0 <= a1 < n ==> #[trigger] g.arch(a1).wf(),
                a <= n,
                pos.len() == out@.len(),
                forall|i: int| 0 <= i < pos.len() ==> {
                    &&& 0 <= (#[trigger] pos[i]).0 < a
                    &&& 0 <= pos[i].1 < g.arch(pos[i].0).row_count()
                    &&& out@[i].0 == g.arch(pos[i].0).entities()[pos[i].1]
                    &&& forall|k: int| 0 <= k < types@.len() ==> g.arch(pos[i].0).types().contains(#[trigger] types@[k])
                    &&& out@[i].1@.len() == types@.len()
                    &&& forall|k: int| 0 <= k < types@.len() ==> *(#[trigger] out@[i].1@[k]) == g.arch(pos[i].0).column(types@[k])[pos[i].1]
                },
                forall|i: int, j: int| 0 <= i < pos.len() && 0 <= j < pos.len() && i != j ==> pos[i] != pos[j],
                forall|i: int, j: int| 0 <= i < j < pos.len() ==> (#[trigger] pos[i]).0 < (#[trigger] pos[j]).0
                    || (pos[i].0 == pos[j].0 && pos[i].1 < pos[j].1),
                forall|a1: int, r1: int| 0 <= a1 < a && 0 <= r1 < g.arch(a1).row_count()
                    && (forall|k: int| 0 <= k < types@.len() ==> g.arch(a1).types().contains(#[trigger] types@[k]))
                    ==> #[trigger] seen(pos, a1, r1),
            decreases n - a,
        {
            let arche = self.archetypes.get(ArchetypeId(a)).unwrap();
            proof {
                assert(g.arch(a as int).wf());
                arche.lemma_wf();
            }
            if Self::has_all(arche, types) {
                let mut row: usize = 0;
                while row < arche.len()
                    invariant
                        self.wf(),
                        g == self.archetypes,
                        *arche == g.arch(a as int),
                        arche.wf(),
                        n == g.count(),
                        n <= usize::MAX,
                        forall|a1: int| 0 <= a1 < n ==> #[trigger] g.arch(a1).wf(),
                        a < n,
                        forall|k: int| 0 <= k < types@.len() ==> g.arch(a as int).types().contains(#[trigger] types@[k]),
                        row <= arche.row_count(),
                        pos.len() == out@.len(),
                        forall|i: int| 0 <= i < pos.len() ==> {
                            &&& 0 <= (#[trigger] pos[i]).0 <= a
                            &&& pos[i].0 == a ==> pos[i].1 < row
                            &&& 0 <= pos[i].1 < g.arch(pos[i].0).row_count()
                            &&& out@[i].0 == g.arch(pos[i].0).entities()[pos[i].1]
                            &&& forall|k: int| 0 <= k < types@.len() ==> g.arch(pos[i].0).types().contains(#[trigger] types@[k])
                            &&& out@[i].1@.len() == types@.len()
                            &&& forall|k: int| 0 <= k < types@.len() ==> *(#[trigger] out@[i].1@[k]) == g.arch(pos[i].0).column(types@[k])[pos[i].1]
                        },
                        forall|i: int, j: int| 0 <= i < pos.len() && 0 <= j < pos.len() && i != j ==> pos[i] != pos[j],
                        forall|i: int, j: int| 0 <= i < j < pos.len() ==> (#[trigger] pos[i]).0 < (#[trigger] pos[j]).0
                            || (pos[i].0 == pos[j].0 && pos[i].1 < pos[j].1),
                        forall|a1: int, r1: int| ((0 <= a1 < a && 0 <= r1 < g.arch(a1).row_count()) || (a1 == a && 0 <= r1 < row))
                            && (forall|k: int| 0 <= k < types@.len() ==> g.arch(a1).types().contains(#[trigger] types@[k]))
                            ==> #[trigger] seen(pos, a1, r1),
                    decreases arche.row_count() - row,
                {
                    let mut vals: Vec<&'a T> = Vec::new();
                    let mut k: usize = 0;
                    while k < types.len()
                        invariant
                            arche.wf(),
                            row < arche.row_count(),
                            forall|j: int| 0 <= j < types@.len() ==> arche.types().contains(#[trigger] types@[j]),
                            k <= types@.len(),
                            vals@.len() == k,
                            forall|j: int| 0 <= j < k ==> *(#[trigger] vals@[j]) == arche.column(types@[j])[row as int],
                        decreases types@.len() - k,
                    {
                        let v = arche.get_component(types[k], row).unwrap();
                        vals.push(v);
                        k += 1;
                    }
                    let e = arche.entity_at(row);
                    out.push((e, vals));
                    proof {
                        let old_pos = pos;
                        pos = pos.push((a as int, row as int));
                        assert forall|i: int| 0 <= i < pos.len() - 1 implies #[trigger] pos[i] == old_pos[i] by {}
                        assert(pos[pos.len() - 1] == (a as int, row as int));
                        assert(seen(pos, a as int, row as int));
                        assert forall|a1: int, r1: int| ((0 <= a1 < a && 0 <= r1 < g.arch(a1).row_count()) || (a1 == a && 0 <= r1 < row + 1))
                            && (forall|k: int| 0 <= k < types@.len() ==> g.arch(a1).types().contains(#[trigger] types@[k]))
                            implies #[trigger] seen(pos, a1, r1) by {
                            if !(a1 == a && r1 == row) {
                                assert(seen(old_pos, a1, r1));
                                let i = choose|i: int| 0 <= i < old_pos.len() && old_pos[i] == (a1, r1);
                                assert(pos[i] == (a1, r1));
                            }
                        }
                    }
                    row += 1;
                }
            }
            a += 1;
        }
        proof {
            assert forall|e: EntityId| #[trigger] self@.contains_key(e) && (forall|k: int| 0 <= k < types@.len() ==> self@[e].contains_key(#[trigger] types@[k]))
                implies exists|i: int| 0 <= i < out@.len() && out@[i].0 == e by {
                let (a1, r1) = idx[e.0];
                assert(forall|k: int| 0 <= k < types@.len() ==> g.arch(a1 as int).types().contains(#[trigger] types@[k]));
                assert(seen(pos, a1 as int, r1 as int));
                let i = choose|i: int| 0 <= i < pos.len() && pos[i] == (a1 as int, r1 as int);
                assert(out@[i].0 == e);
            }
            assert forall|i: int, j: int| 0 <= i < j < out@.len() implies {
                let p = self.location_spec(#[trigger] out@[i].0);
                let q = self.location_spec(#[trigger] out@[j].0);
                p.0 < q.0 || (p.0 == q.0 && p.1 < q.1)
            } by {
                let p = pos[i];
                let q = pos[j];
                g.arch(p.0).lemma_wf();
                g.arch(q.0).lemma_wf();
                assert(g.arch(p.0).entities()[p.1] == out@[i].0);
                assert(g.arch(q.0).entities()[q.1] == out@[j].0);
                assert(idx[out@[i].0.0] == (p.0 as usize, p.1 as usize));
                assert(idx[out@[j].0.0] == (q.0 as usize, q.1 as usize));
            }
            assert forall|i: int, j: int| 0 <= i < out@.len() && 0 <= j < out@.len() && i != j implies out@[i].0 != out@[j].0 by {
                let p = pos[i];
                let q = pos[j];
                g.arch(p.0).lemma_wf();
                g.arch(q.0).lemma_wf();
                assert(g.arch(p.0).entities()[p.1] == out@[i].0);
                assert(g.arch(q.0).entities()[q.1] == out@[j].0);
                assert(idx[out@[i].0.0] == (p.0 as usize, p.1 as usize));
                assert(idx[out@[j].0.0] == (q.0 as usize, q.1 as usize));
            }
            assert forall|i: int| 0 <= i < out@.len() implies {
                &&& self@.contains_key(#[trigger] out@[i].0)
                &&& out@[i].1@.len() == types@.len()
                &&& forall|k: int| 0 <= k < types@.len() ==> {
                    &&& self@[out@[i].0].contains_key(#[trigger] types@[k])
                    &&& *out@[i].1@[k] == self@[out@[i].0][types@[k]]
                }
            } by {
                let p = pos[i];
                let x = out@[i].0;
                g.arch(p.0).lemma_wf();
                assert(g.arch(p.0).entities()[p.1] == x);
                assert(idx[x.0] == (p.0 as usize, p.1 as usize));
                assert(self@[x] == g.arch(p.0).row(p.1));
            }
        }
        out
    }


    /// The archetypes that have component type `ty`, by increasing id, as
    /// the type index records them.
    pub fn archetypes_with(&self, ty: ComponentType) -> (r: Vec<ArchetypeId>)
        requires
            self.wf(),
        ensures
            forall|i: int| 0 <= i < r@.len() ==> {
                &&& (#[trigger] r@[i]).0 < self.graph().count()
                &&& self.graph().types_of(r@[i].0 as int).contains(ty)
            },
            forall|a: int| 0 <= a < self.graph().count() && #[trigger] self.graph().types_of(a).contains(ty)
                ==> exists|i: int| 0 <= i < r@.len() && r@[i].0 == a,
            forall|i: int, j: int| 0 <= i < j < r@.len() ==> r@[i].0 < r@[j].0,
    {
        proof {
            self.archetypes.lemma_wf();
        }
        let n = self.archetypes.len();
        let mut r: Vec<ArchetypeId> = Vec::new();
        let mut a: usize = 0;
        while a < n
            invariant
                self.wf(),
                n == self.graph().count(),
                a <= n,
                forall|i: int| 0 <= i < r@.len() ==> {
                    &&& (#[trigger] r@[i]).0 < a
                    &&& self.graph().types_of(r@[i].0 as int).contains(ty)
                },
                forall|b: int| 0 <= b < a && #[trigger] self.graph().types_of(b).contains(ty)
                    ==> exists|i: int| 0 <= i < r@.len() && r@[i].0 == b,
                forall|i: int, j: int| 0 <= i < j < r@.len() ==> r@[i].0 < r@[j].0,
            decreases n - a,
        {
            let has = self.component_index.contains((ty.0, a));
            proof {
                assert(ComponentType(ty.0) == ty);
                assert(self.component_index@.contains((ty.0, a)) == (a < self.archetypes.count()
                    && self.archetypes.types_of(a as int).contains(ComponentType(ty.0))));
                assert(has == self.graph().types_of(a as int).contains(ty));
            }
            if has {
                let ghost old_r = r@;
                r.push(ArchetypeId(a));
                proof {
                    assert forall|b: int| 0 <= b < a + 1 && #[trigger] self.graph().types_of(b).contains(ty)
                        implies exists|i: int| 0 <= i < r@.len() && r@[i].0 == b by {
                        if b < a {
                            let i = choose|i: int| 0 <= i < old_r.len() && old_r[i].0 == b;
                            assert(r@[i] == old_r[i]);
                        } else {
                            assert(r@[r@.len() - 1].0 == b);
                        }
                    }
                    assert forall|i: int| 0 <= i < r@.len() implies {
                        &&& (#[trigger] r@[i]).0 < a + 1
                        &&& self.graph().types_of(r@[i].0 as int).contains(ty)
                    } by {
                        if i < old_r.len() {
                            assert(r@[i] == old_r[i]);
                        }
                    }
                }
            }
            a += 1;
        }
        r
    }


    /// `post` is `self` with the components of types `t1` and `t2` of entity
    /// `e` set to `x1` and `x2`.
    pub closed spec fn slots_written(self, post: Self, e: EntityId, t1: ComponentType, t2: ComponentType, x1: T, x2: T) -> bool {
        let (a, row) = self.entity_index@[e.0];
        &&& post.entity_index == self.entity_index
        &&& post.component_index == self.component_index
        &&& self.archetypes.replaced(post.archetypes, a as int, post.archetypes.arch(a as int))
        &&& self.archetypes.arch(a as int).written_two(post.archetypes.arch(a as int), t1, t2, row as int, x1, x2)
    }

    /// Writing two components through `get_components_mut` keeps the store
    /// well formed and changes those two components alone.
    pub proof fn lemma_slots_written(self, post: Self, e: EntityId, t1: ComponentType, t2: ComponentType, x1: T, x2: T)
        requires
            self.slots_written(post, e, t1, t2, x1, x2),
            self.wf(),
            self@.contains_key(e),
            self@[e].contains_key(t1),
            self@[e].contains_key(t2),
            t1 != t2,
        ensures
            post.wf(),
            post@ == self@.insert(e, self@[e].insert(t1, x1).insert(t2, x2)),
    {
        let (a, row) = self.entity_index@[e.0];
        let g0 = self.archetypes;
        g0.lemma_wf();
        g0.arch(a as int).lemma_wf();
        assert(self@[e] == g0.arch(a as int).row(row as int));
        let after = post.archetypes.arch(a as int);
        g0.arch(a as int).lemma_rows_written_two(after, t1, t2, row as int, x1, x2);
        g0.lemma_replaced(post.archetypes, a as int, after);
        post.lemma_overwritten(self, e, a, row, self@[e].insert(t1, x1).insert(t2, x2));
    }

    /// The components of the two distinct types `t1` and `t2` of entity `e`,
    /// for writing at once, if `e` is live and carries both. What is written
    /// through them becomes those components, and nothing else changes
    /// (`lemma_slots_written`).
    pub fn get_components_mut(&mut self, e: EntityId, t1: ComponentType, t2: ComponentType) -> (r: Option<(&mut T, &mut T)>)
        requires
            old(self).wf(),
            t1 != t2,
        ensures
            r is Some <==> (old(self)@.contains_key(e) && old(self)@[e].contains_key(t1) && old(self)@[e].contains_key(t2)),
            r is None ==> *final(self) == *old(self),
            r matches Some(p) ==> *p.0 == old(self)@[e][t1] && *p.1 == old(self)@[e][t2],
            r matches Some(p) ==> old(self).slots_written(*final(self), e, t1, t2, *final(p.0), *final(p.1)),
    {
        match self.entity_index.get(e.0) {
            Some((a, row)) => {
                proof {
                    self.archetypes.lemma_wf();
                    self.archetypes.arch(a as int).lemma_wf();
                    assert(self@.contains_key(e));
                    assert(self@[e] == self.archetypes.arch(a as int).row(row as int));
                }
                let arche = self.archetypes.get(ArchetypeId(a)).unwrap();
                if !arche.has_type(t1) || !arche.has_type(t2) {
                    return None;
                }
                self.archetypes.get_two_components_mut(ArchetypeId(a), t1, t2, row)
            },
            None => None,
        }
    }


    /// `post` is `self` with the column of type `types[j]` of archetype `a`
    /// holding `vals[j]`, for each `j`.
    pub closed spec fn columns_written(self, post: Self, a: usize, types: Seq<ComponentType>, vals: Seq<Seq<T>>) -> bool {
        &&& post.entity_index == self.entity_index
        &&& post.component_index == self.component_index
        &&& self.archetypes.replaced(post.archetypes, a as int, post.archetypes.arch(a as int))
        &&& self.archetypes.arch(a as int).columns_set(post.archetypes.arch(a as int), types, vals)
    }

    /// Writing through `iter_components_mut` keeps the store well formed and
    /// changes the components of types `types` of the entities of archetype
    /// `a` alone: the one at row `k` gets `vals[j][k]` as its component of
    /// type `types[j]`.
    pub proof fn lemma_columns_written(self, post: Self, a: usize, types: Seq<ComponentType>, vals: Seq<Seq<T>>)
        requires
            self.columns_written(post, a, types, vals),
            self.wf(),
            a < self.graph().count(),
            types.no_duplicates(),
            forall|j: int| 0 <= j < types.len() ==> self.graph().types_of(a as int).contains(#[trigger] types[j]),
            vals.len() == types.len(),
            forall|j: int| 0 <= j < types.len() ==> (#[trigger] vals[j]).len() == self.graph().arch(a as int).row_count(),
        ensures
            post.wf(),
            post@.dom() == self@.dom(),
            forall|k: int| 0 <= k < self.graph().arch(a as int).row_count() ==> {
                let e = #[trigger] self.graph().arch(a as int).entities()[k];
                &&& post@[e].dom() == self@[e].dom()
                &&& forall|j: int| 0 <= j < types.len() ==> post@[e][#[trigger] types[j]] == vals[j][k]
                &&& forall|t: ComponentType| #[trigger] self@[e].contains_key(t) && !types.contains(t) ==> post@[e][t] == self@[e][t]
            },
            forall|e: EntityId| #[trigger] self@.contains_key(e) && self.location_spec(e).0 != a ==> post@[e] == self@[e],
    {
        let g0 = self.archetypes;
        g0.lemma_wf();
        g0.arch(a as int).lemma_wf();
        let after = post.archetypes.arch(a as int);
        g0.arch(a as int).lemma_rows_columns_set(after, types, vals);
        g0.lemma_replaced(post.archetypes, a as int, after);
        let g = post.archetypes;
        let idx = post.entity_index@;
        assert forall|k: u128| #[trigger] idx.contains_key(k) implies {
            &&& idx[k].0 < g.count()
            &&& idx[k].1 < g.arch(idx[k].0 as int).row_count()
            &&& g.arch(idx[k].0 as int).entities()[idx[k].1 as int] == EntityId(k)
        } by {
            if idx[k].0 != a {
                assert(g.arch(idx[k].0 as int) == g0.arch(idx[k].0 as int));
            }
        }
        assert forall|a1: int, r: int| 0 <= a1 < g.count() && 0 <= r < g.arch(a1).row_count() implies {
            &&& idx.contains_key((#[trigger] g.arch(a1).entities()[r]).0)
            &&& idx[g.arch(a1).entities()[r].0] == (a1 as usize, r as usize)
        } by {
            if a1 != a {
                assert(g.arch(a1) == g0.arch(a1));
            }
            assert(g.arch(a1).entities()[r] == g0.arch(a1).entities()[r]);
        }
        assert forall|k: u64, b: usize| #[trigger] post.component_index@.contains((k, b))
            <==> (b < g.count() && g.types_of(b as int).contains(ComponentType(k))) by {
            if b < g.count() {
                assert(g.types_of(b as int) == g0.types_of(b as int));
            }
        }
        assert(post@.dom() =~= self@.dom());
        assert forall|k: int| 0 <= k < self.graph().arch(a as int).row_count() implies {
            let e = #[trigger] self.graph().arch(a as int).entities()[k];
            &&& post@[e].dom() == self@[e].dom()
            &&& forall|j: int| 0 <= j < types.len() ==> post@[e][#[trigger] types[j]] == vals[j][k]
            &&& forall|t: ComponentType| #[trigger] self@[e].contains_key(t) && !types.contains(t) ==> post@[e][t] == self@[e][t]
        } by {
            let x = g0.arch(a as int).entities()[k];
            assert(idx[x.0] == (a, k as usize));
        }
        assert forall|e: EntityId| #[trigger] self@.contains_key(e) && self.location_spec(e).0 != a implies post@[e] == self@[e] by {
            assert(g.arch(idx[e.0].0 as int) == g0.arch(idx[e.0].0 as int));
        }
    }

    /// For archetype `a`, if it has every type of `types` (pairwise
    /// distinct): its entities in row order and, for each type of `types`, a
    /// mutable borrow of each entity's component of that type. These are the
    /// columns as parallel sequences, borrowed at once. What is written
    /// through the borrows becomes those components, and nothing else changes
    /// (`lemma_columns_written`).
    pub fn iter_components_mut(&mut self, a: ArchetypeId, types: &Vec<ComponentType>) -> (r: Option<(Vec<EntityId>, Vec<Vec<&mut T>>)>)
        requires
            old(self).wf(),
            types@.no_duplicates(),
        ensures
            r is Some <==> a.0 < old(self).graph().count() && forall|j: int|
                0 <= j < types@.len() ==> old(self).graph().types_of(a.0 as int).contains(#[trigger] types@[j]),
            r is None ==> *final(self) == *old(self),
            r matches Some(p) ==> p.0@ == old(self).graph().arch(a.0 as int).entities(),
            r matches Some(p) ==> p.1@.len() == types@.len(),
            r matches Some(p) ==> forall|j: int| 0 <= j < types@.len() ==> (#[trigger] p.1@[j])@.len() == p.0@.len(),
            r matches Some(p) ==> forall|k: int| 0 <= k < p.0@.len() ==> old(self)@.contains_key(#[trigger] p.0@[k]),
            r matches Some(p) ==> forall|j: int, k: int| 0 <= j < types@.len() && 0 <= k < p.0@.len() ==> {
                &&& old(self)@[p.0@[k]].contains_key(types@[j])
                &&& *(#[trigger] p.1@[j]@[k]) == old(self)@[p.0@[k]][types@[j]]
            },
            r matches Some(p) ==> old(self).columns_written(
                *final(self),
                a.0,
                types@,
                Seq::new(p.1@.len(), |j: int| Seq::new(p.1@[j]@.len(), |k: int| *final(p.1@[j]@[k]))),
            ),
    {
        proof {
            self.archetypes.lemma_wf();
        }
        if a.0 >= self.archetypes.len() {
            return None;
        }
        if !Self::has_all(self.archetypes.get(a).unwrap(), types) {
            return None;
        }
        let ids = self.archetypes.get(a).unwrap().entity_ids();
        proof {
            let g = self.archetypes;
            g.arch(a.0 as int).lemma_wf();
            assert forall|k: int| 0 <= k < g.arch(a.0 as int).row_count() implies {
                &&& self@.contains_key(#[trigger] g.arch(a.0 as int).entities()[k])
                &&& self@[g.arch(a.0 as int).entities()[k]] == g.arch(a.0 as int).row(k)
            } by {
                let x = g.arch(a.0 as int).entities()[k];
                assert(self.entity_index@[x.0] == (a.0, k as usize));
            }
        }
        let cols = self.archetypes.iter_columns_mut(a, types);
        Some((ids, cols))
    }

}

/// The entity index points at the row that holds the entity.
pub proof fn lemma_index_points_at_row<T>(s: &ECS<T>, e: EntityId)
    requires
        s.wf(),
        s@.contains_key(e),
    ensures
        s.location_spec(e).0 < s.graph().count(),
        s.location_spec(e).1 < s.graph().arch(s.location_spec(e).0 as int).row_count(),
        s.graph().arch(s.location_spec(e).0 as int).entities()[s.location_spec(e).1 as int] == e,
{
}

/// Every column of every archetype, the column of entities included, holds
/// one value per row.
pub proof fn lemma_columns_match_row_count<T>(s: &ECS<T>, a: int)
    requires
        s.wf(),
        0 <= a < s.graph().count(),
    ensures
        s.graph().arch(a).entities().len() == s.graph().arch(a).row_count(),
        forall|t: ComponentType| #[trigger] s.graph().types_of(a).contains(t)
            ==> s.graph().arch(a).column(t).len() == s.graph().arch(a).row_count(),
{
    s.graph().lemma_wf();
    s.graph().arch(a).lemma_wf();
}

/// The type index records every archetype under each of its types.
pub proof fn lemma_archetype_indexed<T>(s: &ECS<T>, a: int, t: ComponentType)
    requires
        s.wf(),
        0 <= a < s.graph().count(),
        s.graph().types_of(a).contains(t),
    ensures
        s.indexed(t, a as usize),
{
    s.graph().lemma_wf();
    assert(ComponentType(t.0) == t);
    assert((a as usize) as int == a);
    assert(s.component_index@.contains((t.0, a as usize)) == ((a as usize) < s.archetypes.count()
        && s.archetypes.types_of((a as usize) as int).contains(ComponentType(t.0))));
}

/// A `+t` edge from `a` leads to the archetype with the types of `a` and
/// `t`, whose `-t` edge leads back to `a`.
pub proof fn lemma_edges_bidirectional<T>(g: &TypeGraph<T>, a: int, t: ComponentType)
    requires
        g.wf(),
        0 <= a < g.count(),
        g.sup(a).contains_key(t.0),
    ensures
        g.sup(a)[t.0] < g.count(),
        g.types_of(g.sup(a)[t.0] as int) == g.types_of(a).insert(t),
        g.sub(g.sup(a)[t.0] as int).contains_key(t.0),
        g.sub(g.sup(a)[t.0] as int)[t.0] == a,
{
    g.lemma_wf();
    let b = g.sup(a)[t.0] as int;
    assert(ComponentType(t.0) == t);
    assert(g.types_of(a).insert(t) == g.types_of(b));
}

/// The archetype of a live entity has exactly the types of its components;
/// two live entities with the same types share an archetype.
pub proof fn lemma_archetype_types<T>(s: &ECS<T>, e1: EntityId, e2: EntityId)
    requires
        s.wf(),
        s@.contains_key(e1),
        s@.contains_key(e2),
    ensures
        s.graph().types_of(s.location_spec(e1).0 as int) == s@[e1].dom(),
        s@[e1].dom() == s@[e2].dom() ==> s.location_spec(e1).0 == s.location_spec(e2).0,
{
    s.graph().lemma_wf();
    let a1 = s.location_spec(e1).0 as int;
    let a2 = s.location_spec(e2).0 as int;
    assert(s@[e1].dom() =~= s.graph().types_of(a1));
    assert(s@[e2].dom() =~= s.graph().types_of(a2));
}

/// After a component is attached to a live entity, reading it back gives
/// the attached value.
pub proof fn lemma_attach_then_get<T>(m: Map<EntityId, Map<ComponentType, T>>, e: EntityId, t: ComponentType, v: T)
    requires
        m.contains_key(e),
    ensures
        with_component(m, e, t, v).contains_key(e),
        with_component(m, e, t, v)[e].contains_key(t),
        with_component(m, e, t, v)[e][t] == v,
{
}

/// Attaching a component of a type that a live entity lacks and detaching
/// it again gives the entity back its former components, hence its former
/// types, and it no longer has that type.
pub proof fn lemma_attach_detach_round_trip<T>(m: Map<EntityId, Map<ComponentType, T>>, e: EntityId, t: ComponentType, v: T)
    requires
        m.contains_key(e),
        !m[e].contains_key(t),
    ensures
        without_component(with_component(m, e, t, v), e, t) == m,
        !without_component(with_component(m, e, t, v), e, t)[e].contains_key(t),
{
    assert(m[e].insert(t, v).remove(t) =~= m[e]);
    assert(m.insert(e, m[e]) =~= m);
}

/// Destroying an entity a second time changes nothing.
pub proof fn lemma_destroy_idempotent<T>(m: Map<EntityId, Map<ComponentType, T>>, e: EntityId)
    ensures
        m.remove(e).remove(e) == m.remove(e),
{
    assert(m.remove(e).remove(e) =~= m.remove(e));
}

/// The shape of the type graph of a store: the root is archetype 0 and has
/// no types, no two archetypes have the same types, and the edges are sound
/// and complete.
pub proof fn lemma_graph_shape<T>(s: &ECS<T>)
    requires
        s.wf(),
    ensures
        s.graph().root_spec() == ArchetypeId(0),
        s.graph().count() >= 1,
        s.graph().types_of(0) == Set::<ComponentType>::empty(),
        s.graph().types_unique(),
        s.graph().edges_sound(),
        s.graph().edges_complete(),
{
    s.graph().lemma_wf();
}

/// A live entity without components stands in the root archetype.
pub proof fn lemma_bare_entity_in_root<T>(s: &ECS<T>, e: EntityId)
    requires
        s.wf(),
        s@.contains_key(e),
        s@[e].dom() == Set::<ComponentType>::empty(),
    ensures
        s.location_spec(e).0 == 0,
        s.graph().types_of(s.location_spec(e).0 as int) == s.graph().types_of(0),
{
    lemma_archetype_types(s, e, e);
    s.graph().lemma_wf();
    lemma_index_points_at_row(s, e);
}

} // verus!
