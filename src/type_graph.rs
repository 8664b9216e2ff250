//! The type graph: every archetype of a store, linked by edges that add or
//! remove one component type.
use vstd::prelude::*;

use crate::archetype::{Archetype, moved_down, moved_up, one_step};
use crate::tables::EdgeTable;
use crate::{ArchetypeId, ComponentType};

verus! {

struct Node<T> {
    element: Archetype<T>,
    /// For a type `t` of the archetype: the archetype without `t`.
    subsets: EdgeTable,
    /// For a type `t` not in the archetype: the archetype with `t` added.
    supsets: EdgeTable,
}

impl<T> Node<T> {
    fn upgrade_into(&mut self, src: &mut Archetype<T>, row: usize, ty: ComponentType, component: T) -> (r: usize)
        requires
            old(src).wf(),
            old(self).element.wf(),
            row < old(src).row_count(),
            !old(src).types().contains(ty),
            old(self).element.types() == old(src).types().insert(ty),
        ensures
            r == old(self).element.row_count(),
            moved_up(*old(src), old(self).element, *final(src), final(self).element, row as int, ty, component),
            final(self).subsets == old(self).subsets,
            final(self).supsets == old(self).supsets,
    {
        src.upgrade_entity(&mut self.element, row, ty, component)
    }

    fn downgrade_into(&mut self, src: &mut Archetype<T>, row: usize) -> (r: usize)
        requires
            old(src).wf(),
            old(self).element.wf(),
            row < old(src).row_count(),
            exists|t: ComponentType| #[trigger]
                old(src).types().contains(t) && old(self).element.types() == old(src).types().remove(t),
        ensures
            r == old(self).element.row_count(),
            moved_down(*old(src), old(self).element, *final(src), final(self).element, row as int),
            final(self).subsets == old(self).subsets,
            final(self).supsets == old(self).supsets,
    {
        src.downgrade_entity(&mut self.element, row)
    }

    fn swap_element(&mut self, x: &mut Archetype<T>)
        ensures
            final(self).element == *old(x),
            *final(x) == old(self).element,
            final(self).subsets == old(self).subsets,
            final(self).supsets == old(self).supsets,
    {
        core::mem::swap(&mut self.element, x);
    }

    fn add_sup(&mut self, k: u64, b: usize)
        ensures
            final(self).element == old(self).element,
            final(self).subsets@ == old(self).subsets@,
            final(self).supsets@ == old(self).supsets@.insert(k, b),
    {
        self.supsets.insert(k, b);
    }

    fn add_sub(&mut self, k: u64, b: usize)
        ensures
            final(self).element == old(self).element,
            final(self).supsets@ == old(self).supsets@,
            final(self).subsets@ == old(self).subsets@.insert(k, b),
    {
        self.subsets.insert(k, b);
    }
}

/// The archetypes of a store, each with its edges to the archetypes whose
/// types differ from its own by one type.
pub struct TypeGraph<T> {
    root: ArchetypeId,
    nodes: Vec<Node<T>>,
}

impl<T> TypeGraph<T> {
    /// The number of archetypes.
    pub closed spec fn count(&self) -> nat {
        self.nodes@.len()
    }

    /// The archetype with id `a`.
    pub closed spec fn arch(&self, a: int) -> Archetype<T> {
        self.nodes@[a].element
    }

    /// The component types of archetype `a`.
    pub open spec fn types_of(&self, a: int) -> Set<ComponentType> {
        self.arch(a).types()
    }

    /// The `+t` edges of archetype `a`, by the key of `t`.
    pub closed spec fn sup(&self, a: int) -> Map<u64, usize> {
        self.nodes@[a].supsets@
    }

    /// The `-t` edges of archetype `a`, by the key of `t`.
    pub closed spec fn sub(&self, a: int) -> Map<u64, usize> {
        self.nodes@[a].subsets@
    }

    /// The id of the archetype without component types.
    pub closed spec fn root_spec(&self) -> ArchetypeId {
        self.root
    }

    /// Each edge leads to the archetype with one type added or removed.
    pub open spec fn edges_sound(&self) -> bool {
        &&& forall|a: int, k: u64|
            0 <= a < self.count() && #[trigger] self.sup(a).contains_key(k) ==> {
                &&& self.sup(a)[k] < self.count()
                &&& one_step(self.types_of(a), self.types_of(self.sup(a)[k] as int), ComponentType(k))
            }
        &&& forall|a: int, k: u64|
            0 <= a < self.count() && #[trigger] self.sub(a).contains_key(k) ==> {
                &&& self.sub(a)[k] < self.count()
                &&& one_step(self.types_of(self.sub(a)[k] as int), self.types_of(a), ComponentType(k))
            }
    }

    /// Any two archetypes whose types differ by one type are linked both ways.
    pub open spec fn edges_complete(&self) -> bool {
        forall|a: int, b: int, t: ComponentType|
            #![trigger self.types_of(a).insert(t), self.types_of(b)]
            0 <= a < self.count() && 0 <= b < self.count() && one_step(self.types_of(a), self.types_of(b), t)
                ==> {
                &&& self.sup(a).contains_key(t.0)
                &&& self.sup(a)[t.0] == b
                &&& self.sub(b).contains_key(t.0)
                &&& self.sub(b)[t.0] == a
            }
    }

    /// No two archetypes have the same types.
    pub open spec fn types_unique(&self) -> bool {
        forall|a: int, b: int|
            0 <= a < self.count() && 0 <= b < self.count() && a != b ==> #[trigger] self.types_of(a)
                != #[trigger] self.types_of(b)
    }

    /// `self` is `g` with every edge between an archetype of `g` and
    /// `target` added, `target` holding the edges back.
    closed spec fn connected_to(&self, g: Self, target: Node<T>) -> bool {
        let n = g.count();
        let tn = target.element.types();
        &&& self.root == g.root
        &&& self.count() == n
        &&& forall|j: int| 0 <= j < n ==> #[trigger] self.arch(j) == g.arch(j)
        &&& forall|j: int, k: u64| 0 <= j < n && #[trigger] g.sup(j).contains_key(k) ==>
            self.sup(j).contains_key(k) && self.sup(j)[k] == g.sup(j)[k]
        &&& forall|j: int, k: u64| 0 <= j < n && #[trigger] g.sub(j).contains_key(k) ==>
            self.sub(j).contains_key(k) && self.sub(j)[k] == g.sub(j)[k]
        &&& forall|j: int, k: u64| 0 <= j < n && #[trigger] self.sup(j).contains_key(k) ==>
            (g.sup(j).contains_key(k) && self.sup(j)[k] == g.sup(j)[k])
            || (self.sup(j)[k] == n && one_step(g.types_of(j), tn, ComponentType(k)))
        &&& forall|j: int, k: u64| 0 <= j < n && #[trigger] self.sub(j).contains_key(k) ==>
            (g.sub(j).contains_key(k) && self.sub(j)[k] == g.sub(j)[k])
            || (self.sub(j)[k] == n && one_step(tn, g.types_of(j), ComponentType(k)))
        &&& forall|j: int, t: ComponentType| 0 <= j < n && #[trigger] one_step(g.types_of(j), tn, t) ==>
            self.sup(j).contains_key(t.0) && self.sup(j)[t.0] == n
            && target.subsets@.contains_key(t.0) && target.subsets@[t.0] == j
        &&& forall|j: int, t: ComponentType| 0 <= j < n && #[trigger] one_step(tn, g.types_of(j), t) ==>
            self.sub(j).contains_key(t.0) && self.sub(j)[t.0] == n
            && target.supsets@.contains_key(t.0) && target.supsets@[t.0] == j
        &&& forall|k: u64| #[trigger] target.subsets@.contains_key(k) ==>
            target.subsets@[k] < n && one_step(g.types_of(target.subsets@[k] as int), tn, ComponentType(k))
        &&& forall|k: u64| #[trigger] target.supsets@.contains_key(k) ==>
            target.supsets@[k] < n && one_step(tn, g.types_of(target.supsets@[k] as int), ComponentType(k))
    }

    /// The root is archetype 0 and has no types; every archetype is well
    /// formed; the edges are sound and complete; no two archetypes share
    /// their types.
    pub closed spec fn wf(&self) -> bool {
        &&& self.root == ArchetypeId(0)
        &&& self.count() >= 1
        &&& self.types_of(0) == Set::<ComponentType>::empty()
        &&& forall|a: int| 0 <= a < self.count() ==> (#[trigger] self.arch(a)).wf()
        &&& self.edges_sound()
        &&& self.edges_complete()
        &&& self.types_unique()
    }

    /// What a well-formed graph guarantees.
    pub proof fn lemma_wf(&self)
        requires
            self.wf(),
        ensures
            self.root_spec() == ArchetypeId(0),
            self.count() >= 1,
            self.count() <= usize::MAX,
            self.types_of(0) == Set::<ComponentType>::empty(),
            forall|a: int| 0 <= a < self.count() ==> (#[trigger] self.arch(a)).wf(),
            self.edges_sound(),
            self.edges_complete(),
            self.types_unique(),
    {
        assert(self.nodes@.len() == self.nodes.len());
    }

    /// A graph holding the root archetype alone.
    pub fn new() -> (r: Self)
        ensures
            r.wf(),
            r.count() == 1,
            r.arch(0).row_count() == 0,
            r.types_of(0) == Set::<ComponentType>::empty(),
            r.root_spec() == ArchetypeId(0),
    {
        let node = Node { element: Archetype::new(), subsets: EdgeTable::new(), supsets: EdgeTable::new() };
        let mut nodes: Vec<Node<T>> = Vec::new();
        nodes.push(node);
        let r = TypeGraph { root: ArchetypeId(0), nodes };
        assert(r.arch(0).types() == Set::<ComponentType>::empty());
        r
    }

    pub fn root(&self) -> (r: ArchetypeId)
        ensures
            r == self.root_spec(),
    {
        self.root
    }

    pub fn len(&self) -> (r: usize)
        ensures
            r == self.count(),
    {
        self.nodes.len()
    }

    /// The archetype with id `a`, if there is one.
    pub fn get(&self, a: ArchetypeId) -> (r: Option<&Archetype<T>>)
        ensures
            r is Some <==> a.0 < self.count(),
            r matches Some(x) ==> *x == self.arch(a.0 as int),
    {
        if a.0 < self.nodes.len() {
            Some(&self.nodes[a.0].element)
        } else {
            None
        }
    }

    /// The `+ty` neighbour of archetype `src`, if it is linked.
    pub fn get_superset_with(&self, src: ArchetypeId, ty: ComponentType) -> (r: Option<ArchetypeId>)
        requires
            self.wf(),
            src.0 < self.count(),
        ensures
            r is Some <==> self.sup(src.0 as int).contains_key(ty.0),
            r matches Some(b) ==> b.0 == self.sup(src.0 as int)[ty.0] && b.0 < self.count()
                && one_step(self.types_of(src.0 as int), self.types_of(b.0 as int), ty),
            r is None && !self.types_of(src.0 as int).contains(ty) ==> forall|b: int|
                0 <= b < self.count() ==> #[trigger] self.types_of(b) != self.types_of(src.0 as int).insert(ty),
    {
        match self.nodes[src.0].supsets.get(ty.0) {
            Some(b) => {
                assert(self.sup(src.0 as int).contains_key(ty.0));
                assert(ComponentType(ty.0) == ty);
                Some(ArchetypeId(b))
            },
            None => {
                assert forall|b: int| 0 <= b < self.count() && !self.types_of(src.0 as int).contains(ty) implies #[trigger] self.types_of(b)
                    != self.types_of(src.0 as int).insert(ty) by {
                    if self.types_of(b) == self.types_of(src.0 as int).insert(ty) {
                        assert(self.types_of(src.0 as int).insert(ty) == self.types_of(b));
                    }
                }
                None
            },
        }
    }

    /// The `-ty` neighbour of archetype `src`, if it is linked.
    pub fn get_subset_without(&self, src: ArchetypeId, ty: ComponentType) -> (r: Option<ArchetypeId>)
        requires
            self.wf(),
            src.0 < self.count(),
        ensures
            r is Some <==> self.sub(src.0 as int).contains_key(ty.0),
            r matches Some(b) ==> b.0 == self.sub(src.0 as int)[ty.0] && b.0 < self.count()
                && one_step(self.types_of(b.0 as int), self.types_of(src.0 as int), ty),
            r is None && self.types_of(src.0 as int).contains(ty) ==> forall|b: int|
                0 <= b < self.count() ==> #[trigger] self.types_of(b) != self.types_of(src.0 as int).remove(ty),
    {
        match self.nodes[src.0].subsets.get(ty.0) {
            Some(b) => {
                assert(self.sub(src.0 as int).contains_key(ty.0));
                assert(ComponentType(ty.0) == ty);
                Some(ArchetypeId(b))
            },
            None => {
                assert forall|b: int| 0 <= b < self.count() && self.types_of(src.0 as int).contains(ty) implies #[trigger] self.types_of(b)
                    != self.types_of(src.0 as int).remove(ty) by {
                    if self.types_of(b) == self.types_of(src.0 as int).remove(ty) {
                        assert(self.types_of(b).insert(ty) =~= self.types_of(src.0 as int));
                        assert(self.types_of(b).insert(ty) == self.types_of(src.0 as int));
                    }
                }
                None
            },
        }
    }

    /// Links `target`, the archetype about to get id `self.count()`, with
    /// every archetype whose types differ from its own by one type.
    fn connect_neighbors(&mut self, target: &mut Node<T>)
        requires
            old(self).wf(),
            old(target).element.wf(),
            old(target).subsets@ == Map::<u64, usize>::empty(),
            old(target).supsets@ == Map::<u64, usize>::empty(),
            forall|b: int| 0 <= b < old(self).count() ==> #[trigger] old(self).types_of(b) != old(target).element.types(),
        ensures
            final(self).connected_to(*old(self), *final(target)),
            final(target).element == old(target).element,
    {
        let n = self.nodes.len();
        let ghost g = *self;
        let ghost tn = target.element.types();
        let mut i: usize = 0;
        while i < n
            invariant
                g.wf(),
                n == g.count(),
                tn == target.element.types(),
                target.element == old(target).element,
                target.element.wf(),
                forall|b: int| 0 <= b < n ==> #[trigger] g.types_of(b) != tn,
                i <= n,
                self.root == g.root,
                self.count() == n,
                forall|j: int| 0 <= j < n ==> #[trigger] self.arch(j) == g.arch(j),
                forall|j: int| i <= j < n ==> #[trigger] self.nodes@[j] == g.nodes@[j],
                forall|j: int, k: u64| 0 <= j < n && #[trigger] g.sup(j).contains_key(k) ==>
                    self.sup(j).contains_key(k) && self.sup(j)[k] == g.sup(j)[k],
                forall|j: int, k: u64| 0 <= j < n && #[trigger] g.sub(j).contains_key(k) ==>
                    self.sub(j).contains_key(k) && self.sub(j)[k] == g.sub(j)[k],
                forall|j: int, k: u64| 0 <= j < n && #[trigger] self.sup(j).contains_key(k) ==>
                    (g.sup(j).contains_key(k) && self.sup(j)[k] == g.sup(j)[k])
                    || (self.sup(j)[k] == n && one_step(g.types_of(j), tn, ComponentType(k))),
                forall|j: int, k: u64| 0 <= j < n && #[trigger] self.sub(j).contains_key(k) ==>
                    (g.sub(j).contains_key(k) && self.sub(j)[k] == g.sub(j)[k])
                    || (self.sub(j)[k] == n && one_step(tn, g.types_of(j), ComponentType(k))),
                forall|j: int, t: ComponentType| 0 <= j < i && #[trigger] one_step(g.types_of(j), tn, t) ==>
                    self.sup(j).contains_key(t.0) && self.sup(j)[t.0] == n
                    && target.subsets@.contains_key(t.0) && target.subsets@[t.0] == j,
                forall|j: int, t: ComponentType| 0 <= j < i && #[trigger] one_step(tn, g.types_of(j), t) ==>
                    self.sub(j).contains_key(t.0) && self.sub(j)[t.0] == n
                    && target.supsets@.contains_key(t.0) && target.supsets@[t.0] == j,
                forall|k: u64| #[trigger] target.subsets@.contains_key(k) ==>
                    target.subsets@[k] < i && one_step(g.types_of(target.subsets@[k] as int), tn, ComponentType(k)),
                forall|k: u64| #[trigger] target.supsets@.contains_key(k) ==>
                    target.supsets@[k] < i && one_step(tn, g.types_of(target.supsets@[k] as int), ComponentType(k)),
            decreases n - i,
        {
            assert(self.arch(i as int) == g.arch(i as int));
            let ghost before = *self;
            let ghost tsub = target.subsets@;
            let ghost mut up_t: Option<ComponentType> = None;
            let ghost mut down_t: Option<ComponentType> = None;
            if let Some(t) = self.nodes[i].element.one_more_type(&target.element) {
                proof {
                    assert(!g.sup(i as int).contains_key(t.0));
                    assert forall|k: u64| #[trigger] target.subsets@.contains_key(k) implies k != t.0 by {
                        let j = target.subsets@[k] as int;
                        if k == t.0 {
                            assert(g.types_of(j) =~= tn.remove(t));
                            assert(g.types_of(i as int) =~= tn.remove(t));
                        }
                    }
                }
                self.nodes[i].add_sup(t.0, n);
                target.subsets.insert(t.0, i);
                assert(self.nodes@ == before.nodes@.update(i as int, self.nodes@[i as int]));
                assert(ComponentType(t.0) == t);
                proof {
                    up_t = Some(t);
                }
            }
            if let Some(t) = target.element.one_more_type(&self.nodes[i].element) {
                proof {
                    assert(!g.sub(i as int).contains_key(t.0)) by {
                        if g.sub(i as int).contains_key(t.0) {
                            let b = g.sub(i as int)[t.0] as int;
                            assert(g.types_of(b) =~= g.types_of(i as int).remove(t));
                            assert(tn =~= g.types_of(i as int).remove(t));
                        }
                    }
                    assert forall|k: u64| #[trigger] target.supsets@.contains_key(k) implies k != t.0 by {
                        let j = target.supsets@[k] as int;
                        if k == t.0 {
                            assert(ComponentType(k) == t);
                            assert(g.types_of(j) == tn.insert(t));
                            assert(g.types_of(j) == g.types_of(i as int));
                        }
                    }
                }
                let ghost mid = *self;
                self.nodes[i].add_sub(t.0, n);
                target.supsets.insert(t.0, i);
                assert(self.nodes@ == mid.nodes@.update(i as int, self.nodes@[i as int]));
                assert(ComponentType(t.0) == t);
                proof {
                    down_t = Some(t);
                }
            }
            assert forall|j: int| 0 <= j < n && j != i implies #[trigger] self.nodes@[j] == before.nodes@[j] by {}
            assert forall|j: int| 0 <= j < n implies #[trigger] self.arch(j) == g.arch(j) by {
                assert(self.arch(j) == before.arch(j));
            }
            assert forall|j: int| i < j < n implies #[trigger] self.nodes@[j] == g.nodes@[j] by {
                assert(self.nodes@[j] == before.nodes@[j]);
            }
            assert forall|j: int, k: u64| 0 <= j < n && #[trigger] self.sub(j).contains_key(k) implies
                (g.sub(j).contains_key(k) && self.sub(j)[k] == g.sub(j)[k])
                || (self.sub(j)[k] == n && one_step(tn, g.types_of(j), ComponentType(k))) by {
                if j != i {
                    assert(self.nodes@[j] == before.nodes@[j]);
                    assert(before.sub(j).contains_key(k));
                } else if before.sub(j).contains_key(k) && self.sub(j)[k] == before.sub(j)[k] {
                } else {
                    assert(down_t matches Some(t) && t.0 == k);
                }
            }
            assert forall|k: u64| #[trigger] target.subsets@.contains_key(k) implies
                target.subsets@[k] < i + 1 && one_step(g.types_of(target.subsets@[k] as int), tn, ComponentType(k)) by {
                if tsub.contains_key(k) && target.subsets@[k] == tsub[k] {
                } else {
                    assert(up_t is Some && up_t.unwrap().0 == k);
                }
            }
            assert forall|j: int, t: ComponentType| 0 <= j <= i && #[trigger] one_step(g.types_of(j), tn, t) implies
                self.sup(j).contains_key(t.0) && self.sup(j)[t.0] == n
                && target.subsets@.contains_key(t.0) && target.subsets@[t.0] == j by {
                if j < i {
                    assert(self.nodes@[j] == before.nodes@[j]);
                    assert(before.sup(j).contains_key(t.0));
                    if up_t is Some {
                        assert(up_t.unwrap().0 != t.0);
                    }
                } else {
                    let u = up_t.unwrap();
                    assert(tn.contains(u));
                    assert(u == t);
                }
            }
            assert forall|j: int, t: ComponentType| 0 <= j <= i && #[trigger] one_step(tn, g.types_of(j), t) implies
                self.sub(j).contains_key(t.0) && self.sub(j)[t.0] == n
                && target.supsets@.contains_key(t.0) && target.supsets@[t.0] == j by {
                if j < i {
                    assert(self.nodes@[j] == before.nodes@[j]);
                    assert(before.sub(j).contains_key(t.0));
                    if down_t is Some {
                        assert(down_t.unwrap().0 != t.0);
                    }
                } else {
                    let u = down_t.unwrap();
                    assert(g.types_of(j).contains(u));
                    assert(u == t);
                }
            }
            assert forall|j: int, k: u64| 0 <= j < n && #[trigger] self.sup(j).contains_key(k) implies
                (g.sup(j).contains_key(k) && self.sup(j)[k] == g.sup(j)[k])
                || (self.sup(j)[k] == n && one_step(g.types_of(j), tn, ComponentType(k))) by {
                if j != i {
                    assert(self.nodes@[j] == before.nodes@[j]);
                    assert(before.sup(j).contains_key(k));
                } else if before.sup(j).contains_key(k) && self.sup(j)[k] == before.sup(j)[k] {
                } else {
                    assert(up_t matches Some(t) && t.0 == k);
                }
            }
            i += 1;
        }
    }


    proof fn lemma_pushed(&self, c: Self, g: Self, target: Node<T>)
        requires
            g.wf(),
            c.connected_to(g, target),
            target.element.wf(),
            forall|b: int| 0 <= b < g.count() ==> #[trigger] g.types_of(b) != target.element.types(),
            self.root == c.root,
            self.nodes@ == c.nodes@.push(target),
        ensures
            self.wf(),
            self.count() == g.count() + 1,
            forall|j: int| 0 <= j < g.count() ==> #[trigger] self.arch(j) == g.arch(j),
            self.arch(g.count() as int) == target.element,
    {
        let n = g.count() as int;
        let tn = target.element.types();
        assert forall|j: int| 0 <= j < n implies #[trigger] self.nodes@[j] == c.nodes@[j] && self.arch(j) == g.arch(j) by {
            assert(c.arch(j) == g.arch(j));
        }
        assert(self.nodes@[n] == target);
        assert(self.nodes@[0] == c.nodes@[0]);
        assert forall|a: int| 0 <= a < self.count() implies (#[trigger] self.arch(a)).wf() by {
            if a < n {
                assert(self.nodes@[a] == c.nodes@[a]);
            }
        }
        assert forall|a: int, k: u64| 0 <= a < self.count() && #[trigger] self.sup(a).contains_key(k) implies {
            &&& self.sup(a)[k] < self.count()
            &&& one_step(self.types_of(a), self.types_of(self.sup(a)[k] as int), ComponentType(k))
        } by {
            if a < n {
                assert(self.sup(a) == c.sup(a));
                assert(self.arch(a) == g.arch(a));
                if g.sup(a).contains_key(k) && c.sup(a)[k] == g.sup(a)[k] {
                    assert(self.arch(g.sup(a)[k] as int) == g.arch(g.sup(a)[k] as int));
                }
            } else {
                assert(self.arch(self.sup(a)[k] as int) == g.arch(self.sup(a)[k] as int));
            }
        }
        assert forall|a: int, k: u64| 0 <= a < self.count() && #[trigger] self.sub(a).contains_key(k) implies {
            &&& self.sub(a)[k] < self.count()
            &&& one_step(self.types_of(self.sub(a)[k] as int), self.types_of(a), ComponentType(k))
        } by {
            if a < n {
                assert(self.sub(a) == c.sub(a));
                assert(self.arch(a) == g.arch(a));
                if g.sub(a).contains_key(k) && c.sub(a)[k] == g.sub(a)[k] {
                    assert(self.arch(g.sub(a)[k] as int) == g.arch(g.sub(a)[k] as int));
                }
            } else {
                assert(self.arch(self.sub(a)[k] as int) == g.arch(self.sub(a)[k] as int));
            }
        }
        assert forall|a: int, b: int, t: ComponentType|
            #![trigger self.types_of(a).insert(t), self.types_of(b)]
            0 <= a < self.count() && 0 <= b < self.count() && one_step(self.types_of(a), self.types_of(b), t)
            implies {
                &&& self.sup(a).contains_key(t.0)
                &&& self.sup(a)[t.0] == b
                &&& self.sub(b).contains_key(t.0)
                &&& self.sub(b)[t.0] == a
            } by {
            if a < n {
                assert(self.sup(a) == c.sup(a));
                assert(self.arch(a) == g.arch(a));
            }
            if b < n {
                assert(self.sub(b) == c.sub(b));
                assert(self.arch(b) == g.arch(b));
            }
            if a < n && b < n {
                assert(g.types_of(a).insert(t) == g.types_of(b));
            } else if a < n {
                assert(one_step(g.types_of(a), tn, t));
            } else if b < n {
                assert(one_step(tn, g.types_of(b), t));
            } else {
                assert(self.types_of(b).contains(t));
            }
        }
        assert forall|a: int, b: int|
            0 <= a < self.count() && 0 <= b < self.count() && a != b implies #[trigger] self.types_of(a)
                != #[trigger] self.types_of(b) by {
            if a < n {
                assert(self.arch(a) == g.arch(a));
                assert(g.types_of(a) != tn);
            }
            if b < n {
                assert(self.arch(b) == g.arch(b));
                assert(g.types_of(b) != tn);
            }
            if a < n && b < n {
                assert(g.types_of(a) != g.types_of(b));
            }
        }
        assert forall|j: int| 0 <= j < g.count() implies #[trigger] self.arch(j) == g.arch(j) by {}
    }

    /// Adds the archetype whose types are those of `src` and `ty`, linked
    /// with its neighbours; returns its id.
    pub fn create_superset_with(&mut self, src: ArchetypeId, ty: ComponentType) -> (r: ArchetypeId)
        requires
            old(self).wf(),
            src.0 < old(self).count(),
            !old(self).types_of(src.0 as int).contains(ty),
            forall|b: int| 0 <= b < old(self).count() ==> #[trigger] old(self).types_of(b)
                != old(self).types_of(src.0 as int).insert(ty),
        ensures
            final(self).wf(),
            r.0 == old(self).count(),
            final(self).count() == old(self).count() + 1,
            final(self).root_spec() == old(self).root_spec(),
            forall|j: int| 0 <= j < old(self).count() ==> #[trigger] final(self).arch(j) == old(self).arch(j),
            final(self).types_of(r.0 as int) == old(self).types_of(src.0 as int).insert(ty),
            final(self).arch(r.0 as int).row_count() == 0,
    {
        let mut element = self.nodes[src.0].element.imitate();
        element.add_component(ty);
        let mut node = Node { element, subsets: EdgeTable::new(), supsets: EdgeTable::new() };
        self.connect_neighbors(&mut node);
        let ghost c = *self;
        let id = self.nodes.len();
        self.nodes.push(node);
        proof {
            self.lemma_pushed(c, *old(self), node);
        }
        ArchetypeId(id)
    }

    /// Adds the archetype whose types are those of `src` without `ty`,
    /// linked with its neighbours; returns its id.
    pub fn create_subset_without(&mut self, src: ArchetypeId, ty: ComponentType) -> (r: ArchetypeId)
        requires
            old(self).wf(),
            src.0 < old(self).count(),
            old(self).types_of(src.0 as int).contains(ty),
            forall|b: int| 0 <= b < old(self).count() ==> #[trigger] old(self).types_of(b)
                != old(self).types_of(src.0 as int).remove(ty),
        ensures
            final(self).wf(),
            r.0 == old(self).count(),
            final(self).count() == old(self).count() + 1,
            final(self).root_spec() == old(self).root_spec(),
            forall|j: int| 0 <= j < old(self).count() ==> #[trigger] final(self).arch(j) == old(self).arch(j),
            final(self).types_of(r.0 as int) == old(self).types_of(src.0 as int).remove(ty),
            final(self).arch(r.0 as int).row_count() == 0,
    {
        let mut element = self.nodes[src.0].element.imitate();
        element.remove_component(ty);
        let mut node = Node { element, subsets: EdgeTable::new(), supsets: EdgeTable::new() };
        self.connect_neighbors(&mut node);
        let ghost c = *self;
        let id = self.nodes.len();
        self.nodes.push(node);
        proof {
            self.lemma_pushed(c, *old(self), node);
        }
        ArchetypeId(id)
    }


    /// `post` is `self` with archetype `a` replaced by `x`, edges kept.
    pub closed spec fn replaced(self, post: Self, a: int, x: Archetype<T>) -> bool {
        &&& post.root == self.root
        &&& post.nodes@.len() == self.nodes@.len()
        &&& forall|j: int| 0 <= j < self.nodes@.len() && j != a ==> #[trigger] post.nodes@[j] == self.nodes@[j]
        &&& post.nodes@[a].element == x
        &&& post.nodes@[a].subsets == self.nodes@[a].subsets
        &&& post.nodes@[a].supsets == self.nodes@[a].supsets
    }

    /// Archetypes replaced by ones with the same column types, edges kept,
    /// keep the graph well formed.
    proof fn lemma_same_shape(self, post: Self)
        requires
            self.wf(),
            post.root == self.root,
            post.nodes@.len() == self.nodes@.len(),
            forall|j: int| 0 <= j < self.count() ==> {
                &&& (#[trigger] post.nodes@[j]).subsets == self.nodes@[j].subsets
                &&& post.nodes@[j].supsets == self.nodes@[j].supsets
                &&& post.nodes@[j].element.wf()
                &&& post.nodes@[j].element.tags() == self.nodes@[j].element.tags()
            },
        ensures
            post.wf(),
            forall|j: int| 0 <= j < self.count() ==> #[trigger] post.types_of(j) == self.types_of(j),
    {
        assert forall|j: int| 0 <= j < self.count() implies #[trigger] post.types_of(j) == self.types_of(j)
            && post.sup(j) == self.sup(j) && post.sub(j) == self.sub(j) && post.arch(j).wf() by {
            assert(post.nodes@[j].subsets == self.nodes@[j].subsets);
        }
        assert forall|a1: int, b1: int, t: ComponentType|
            #![trigger post.types_of(a1).insert(t), post.types_of(b1)]
            0 <= a1 < post.count() && 0 <= b1 < post.count() && one_step(post.types_of(a1), post.types_of(b1), t)
            implies {
                &&& post.sup(a1).contains_key(t.0)
                &&& post.sup(a1)[t.0] == b1
                &&& post.sub(b1).contains_key(t.0)
                &&& post.sub(b1)[t.0] == a1
            } by {
            assert(self.types_of(a1).insert(t) == self.types_of(b1));
        }
        assert forall|a1: int, b1: int|
            0 <= a1 < post.count() && 0 <= b1 < post.count() && a1 != b1 implies #[trigger] post.types_of(a1)
                != #[trigger] post.types_of(b1) by {
            assert(self.types_of(a1) != self.types_of(b1));
        }
        assert(post.types_of(0) == self.types_of(0));
        assert forall|a1: int, k: u64| 0 <= a1 < post.count() && #[trigger] post.sup(a1).contains_key(k) implies {
            &&& post.sup(a1)[k] < post.count()
            &&& one_step(post.types_of(a1), post.types_of(post.sup(a1)[k] as int), ComponentType(k))
        } by {
            assert(self.sup(a1).contains_key(k));
        }
        assert forall|a1: int, k: u64| 0 <= a1 < post.count() && #[trigger] post.sub(a1).contains_key(k) implies {
            &&& post.sub(a1)[k] < post.count()
            &&& one_step(post.types_of(post.sub(a1)[k] as int), post.types_of(a1), ComponentType(k))
        } by {
            assert(self.sub(a1).contains_key(k));
        }
    }

    /// Replacing an archetype by one with the same column types keeps the
    /// graph well formed.
    pub proof fn lemma_replaced(self, post: Self, a: int, x: Archetype<T>)
        requires
            self.replaced(post, a, x),
            self.wf(),
            0 <= a < self.count(),
            x.wf(),
            x.tags() == self.arch(a).tags(),
        ensures
            post.wf(),
            post.count() == self.count(),
            post.root_spec() == self.root_spec(),
            post.arch(a) == x,
            forall|j: int| 0 <= j < self.count() && j != a ==> #[trigger] post.arch(j) == self.arch(j),
            forall|j: int| 0 <= j < self.count() ==> #[trigger] post.types_of(j) == self.types_of(j),
    {
        assert forall|j: int| 0 <= j < self.count() implies #[trigger] post.types_of(j) == self.types_of(j)
            && post.sup(j) == self.sup(j) && post.sub(j) == self.sub(j) && post.arch(j).wf() by {
            if j != a {
                assert(post.nodes@[j] == self.nodes@[j]);
            }
        }
        assert forall|j: int| 0 <= j < self.count() && j != a implies #[trigger] post.arch(j) == self.arch(j) by {
            assert(post.nodes@[j] == self.nodes@[j]);
        }
        assert forall|a1: int, b1: int, t: ComponentType|
            #![trigger post.types_of(a1).insert(t), post.types_of(b1)]
            0 <= a1 < post.count() && 0 <= b1 < post.count() && one_step(post.types_of(a1), post.types_of(b1), t)
            implies {
                &&& post.sup(a1).contains_key(t.0)
                &&& post.sup(a1)[t.0] == b1
                &&& post.sub(b1).contains_key(t.0)
                &&& post.sub(b1)[t.0] == a1
            } by {
            assert(self.types_of(a1).insert(t) == self.types_of(b1));
        }
        assert forall|a1: int, b1: int|
            0 <= a1 < post.count() && 0 <= b1 < post.count() && a1 != b1 implies #[trigger] post.types_of(a1)
                != #[trigger] post.types_of(b1) by {
            assert(self.types_of(a1) != self.types_of(b1));
        }
        assert(post.types_of(0) == self.types_of(0));
        assert forall|a1: int, k: u64| 0 <= a1 < post.count() && #[trigger] post.sup(a1).contains_key(k) implies {
            &&& post.sup(a1)[k] < post.count()
            &&& one_step(post.types_of(a1), post.types_of(post.sup(a1)[k] as int), ComponentType(k))
        } by {
            assert(post.sup(a1) == self.sup(a1));
            assert(self.sup(a1).contains_key(k));
        }
        assert forall|a1: int, k: u64| 0 <= a1 < post.count() && #[trigger] post.sub(a1).contains_key(k) implies {
            &&& post.sub(a1)[k] < post.count()
            &&& one_step(post.types_of(post.sub(a1)[k] as int), post.types_of(a1), ComponentType(k))
        } by {
            assert(post.sub(a1) == self.sub(a1));
            assert(self.sub(a1).contains_key(k));
        }
    }

    /// The archetype with id `a`, for writing, if there is one.
    pub fn get_mut(&mut self, a: ArchetypeId) -> (r: Option<&mut Archetype<T>>)
        ensures
            r is Some <==> a.0 < old(self).count(),
            r is None ==> *final(self) == *old(self),
            r matches Some(x) ==> *x == old(self).arch(a.0 as int) && old(self).replaced(
                *final(self),
                a.0 as int,
                *final(x),
            ),
    {
        if a.0 < self.nodes.len() {
            Some(&mut self.nodes[a.0].element)
        } else {
            None
        }
    }


    /// Moves the entity at row `row` of archetype `a` into archetype `b`,
    /// whose types are those of `a` and `ty`, giving it `component` as its
    /// value of type `ty`. Returns the entity's row in `b`.
    pub fn upgrade_entity(&mut self, a: ArchetypeId, b: ArchetypeId, row: usize, ty: ComponentType, component: T) -> (r: usize)
        requires
            old(self).wf(),
            a.0 < old(self).count(),
            b.0 < old(self).count(),
            one_step(old(self).types_of(a.0 as int), old(self).types_of(b.0 as int), ty),
            row < old(self).arch(a.0 as int).row_count(),
        ensures
            final(self).wf(),
            final(self).count() == old(self).count(),
            final(self).root_spec() == old(self).root_spec(),
            forall|j: int| 0 <= j < old(self).count() && j != a.0 && j != b.0 ==> #[trigger] final(self).arch(j) == old(self).arch(j),
            forall|j: int| 0 <= j < old(self).count() ==> #[trigger] final(self).types_of(j) == old(self).types_of(j),
            r == old(self).arch(b.0 as int).row_count(),
            moved_up(
                old(self).arch(a.0 as int),
                old(self).arch(b.0 as int),
                final(self).arch(a.0 as int),
                final(self).arch(b.0 as int),
                row as int,
                ty,
                component,
            ),
    {
        proof {
            assert(a.0 != b.0);
        }
        let mut src = Archetype::new();
        self.nodes[a.0].swap_element(&mut src);
        let ghost mid = *self;
        let r = self.nodes[b.0].upgrade_into(&mut src, row, ty, component);
        let ghost mid2 = *self;
        self.nodes[a.0].swap_element(&mut src);
        proof {
            assert forall|j: int| 0 <= j < self.count() && j != a.0 && j != b.0 implies #[trigger] self.nodes@[j] == old(self).nodes@[j] by {
                assert(mid.nodes@[j] == old(self).nodes@[j]);
                assert(mid2.nodes@[j] == mid.nodes@[j]);
            }
            assert(mid2.nodes@[a.0 as int] == mid.nodes@[a.0 as int]);
            assert(mid.nodes@[b.0 as int] == old(self).nodes@[b.0 as int]);
            assert(self.nodes@[b.0 as int] == mid2.nodes@[b.0 as int]);
            assert(self.nodes@[a.0 as int].subsets == old(self).nodes@[a.0 as int].subsets);
            assert(self.nodes@[a.0 as int].element.tags() == old(self).nodes@[a.0 as int].element.tags());
            assert(self.nodes@[b.0 as int].element.tags() == old(self).nodes@[b.0 as int].element.tags());
            assert(old(self).arch(a.0 as int).wf() && old(self).arch(b.0 as int).wf());
            assert forall|j: int| 0 <= j < old(self).count() implies {
                &&& (#[trigger] self.nodes@[j]).subsets == old(self).nodes@[j].subsets
                &&& self.nodes@[j].supsets == old(self).nodes@[j].supsets
                &&& self.nodes@[j].element.wf()
                &&& self.nodes@[j].element.tags() == old(self).nodes@[j].element.tags()
            } by {
                assert(old(self).arch(j).wf());
            }
            old(self).lemma_same_shape(*self);
        }
        r
    }


    /// Moves the entity at row `row` of archetype `a` into archetype `b`,
    /// whose types are those of `a` without `ty`; its component of type `ty`
    /// is dropped. Returns the entity's row in `b`.
    pub fn downgrade_entity(&mut self, a: ArchetypeId, b: ArchetypeId, row: usize, ty: ComponentType) -> (r: usize)
        requires
            old(self).wf(),
            a.0 < old(self).count(),
            b.0 < old(self).count(),
            one_step(old(self).types_of(b.0 as int), old(self).types_of(a.0 as int), ty),
            row < old(self).arch(a.0 as int).row_count(),
        ensures
            final(self).wf(),
            final(self).count() == old(self).count(),
            final(self).root_spec() == old(self).root_spec(),
            forall|j: int| 0 <= j < old(self).count() && j != a.0 && j != b.0 ==> #[trigger] final(self).arch(j) == old(self).arch(j),
            forall|j: int| 0 <= j < old(self).count() ==> #[trigger] final(self).types_of(j) == old(self).types_of(j),
            r == old(self).arch(b.0 as int).row_count(),
            moved_down(
                old(self).arch(a.0 as int),
                old(self).arch(b.0 as int),
                final(self).arch(a.0 as int),
                final(self).arch(b.0 as int),
                row as int,
            ),
    {
        proof {
            assert(a.0 != b.0);
            assert(old(self).types_of(b.0 as int) =~= old(self).types_of(a.0 as int).remove(ty));
            assert(old(self).arch(a.0 as int).types().contains(ty) && old(self).arch(b.0 as int).types()
                == old(self).arch(a.0 as int).types().remove(ty));
        }
        let mut src = Archetype::new();
        self.nodes[a.0].swap_element(&mut src);
        let ghost mid = *self;
        let r = self.nodes[b.0].downgrade_into(&mut src, row);
        let ghost mid2 = *self;
        self.nodes[a.0].swap_element(&mut src);
        proof {
            assert forall|j: int| 0 <= j < self.count() && j != a.0 && j != b.0 implies #[trigger] self.nodes@[j] == old(self).nodes@[j] by {
                assert(mid.nodes@[j] == old(self).nodes@[j]);
                assert(mid2.nodes@[j] == mid.nodes@[j]);
            }
            assert(mid2.nodes@[a.0 as int] == mid.nodes@[a.0 as int]);
            assert(mid.nodes@[b.0 as int] == old(self).nodes@[b.0 as int]);
            assert(self.nodes@[b.0 as int] == mid2.nodes@[b.0 as int]);
            assert(self.nodes@[a.0 as int].subsets == old(self).nodes@[a.0 as int].subsets);
            assert(self.nodes@[a.0 as int].element.tags() == old(self).nodes@[a.0 as int].element.tags());
            assert(self.nodes@[b.0 as int].element.tags() == old(self).nodes@[b.0 as int].element.tags());
            assert(old(self).arch(a.0 as int).wf() && old(self).arch(b.0 as int).wf());
            assert forall|j: int| 0 <= j < old(self).count() implies {
                &&& (#[trigger] self.nodes@[j]).subsets == old(self).nodes@[j].subsets
                &&& self.nodes@[j].supsets == old(self).nodes@[j].supsets
                &&& self.nodes@[j].element.wf()
                &&& self.nodes@[j].element.tags() == old(self).nodes@[j].element.tags()
            } by {
                assert(old(self).arch(j).wf());
            }
            old(self).lemma_same_shape(*self);
        }
        r
    }


    /// The component of type `ty` at row `row` of archetype `a`, for
    /// writing.
    pub fn get_component_mut(&mut self, a: ArchetypeId, ty: ComponentType, row: usize) -> (r: Option<&mut T>)
        requires
            old(self).wf(),
            a.0 < old(self).count(),
            row < old(self).arch(a.0 as int).row_count(),
            old(self).types_of(a.0 as int).contains(ty),
        ensures
            r is Some,
            r matches Some(v) ==> *v == old(self).arch(a.0 as int).column(ty)[row as int],
            r matches Some(v) ==> old(self).replaced(*final(self), a.0 as int, final(self).arch(a.0 as int)),
            r matches Some(v) ==> old(self).arch(a.0 as int).written(final(self).arch(a.0 as int), ty, row as int, *final(v)),
    {
        proof {
            self.lemma_wf();
        }
        self.nodes[a.0].element.get_component_mut(ty, row)
    }


    /// The components of the distinct types `t1` and `t2` at row `row` of
    /// archetype `a`, for writing at once.
    pub fn get_two_components_mut(&mut self, a: ArchetypeId, t1: ComponentType, t2: ComponentType, row: usize) -> (r: Option<(&mut T, &mut T)>)
        requires
            old(self).wf(),
            a.0 < old(self).count(),
            row < old(self).arch(a.0 as int).row_count(),
            old(self).types_of(a.0 as int).contains(t1),
            old(self).types_of(a.0 as int).contains(t2),
            t1 != t2,
        ensures
            r is Some,
            r matches Some(p) ==> *p.0 == old(self).arch(a.0 as int).column(t1)[row as int],
            r matches Some(p) ==> *p.1 == old(self).arch(a.0 as int).column(t2)[row as int],
            r matches Some(p) ==> old(self).replaced(*final(self), a.0 as int, final(self).arch(a.0 as int)),
            r matches Some(p) ==> old(self).arch(a.0 as int).written_two(final(self).arch(a.0 as int), t1, t2, row as int, *final(p.0), *final(p.1)),
    {
        proof {
            self.lemma_wf();
        }
        self.nodes[a.0].element.get_two_components_mut(t1, t2, row)
    }


    /// For each type of `types`, pairwise distinct, a mutable borrow of the
    /// component of that type of each row of archetype `a`, in row order.
    pub fn iter_columns_mut(&mut self, a: ArchetypeId, types: &Vec<ComponentType>) -> (r: Vec<Vec<&mut T>>)
        requires
            old(self).wf(),
            a.0 < old(self).count(),
            types@.no_duplicates(),
            forall|j: int| 0 <= j < types@.len() ==> old(self).types_of(a.0 as int).contains(#[trigger] types@[j]),
        ensures
            r@.len() == types@.len(),
            forall|j: int| 0 <= j < r@.len() ==> (#[trigger] r@[j])@.len() == old(self).arch(a.0 as int).row_count(),
            forall|j: int, k: int| 0 <= j < r@.len() && 0 <= k < old(self).arch(a.0 as int).row_count()
                ==> *(#[trigger] r@[j]@[k]) == old(self).arch(a.0 as int).column(types@[j])[k],
            old(self).replaced(*final(self), a.0 as int, final(self).arch(a.0 as int)),
            old(self).arch(a.0 as int).columns_set(
                final(self).arch(a.0 as int),
                types@,
                Seq::new(r@.len(), |j: int| Seq::new(r@[j]@.len(), |k: int| *final(r@[j]@[k]))),
            ),
    {
        proof {
            self.lemma_wf();
            assert(self.arch(a.0 as int).wf());
        }
        self.nodes[a.0].element.iter_columns_mut(types)
    }

}

} // verus!
