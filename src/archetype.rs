//! An archetype: the entities that carry one set of component types, stored
//! as one column per type beside a column of entity ids.
use vstd::prelude::*;

use crate::component_vec::{ComponentVec, borrow_each, swap_removed};
use crate::{ComponentType, EntityId};

verus! {

/// `big` is `small` with the one type `t` added.
pub open spec fn one_step(small: Set<ComponentType>, big: Set<ComponentType>, t: ComponentType) -> bool {
    !small.contains(t) && big == small.insert(t)
}

/// `src1` and `dst1` are `src0` and `dst0` after the entity at row `row` of
/// `src0` moved to the end of `dst0`, taking `component` as its value of type
/// `ty`, with the last row of `src0` taking the vacated row.
pub open spec fn moved_up<T>(
    src0: Archetype<T>,
    dst0: Archetype<T>,
    src1: Archetype<T>,
    dst1: Archetype<T>,
    row: int,
    ty: ComponentType,
    component: T,
) -> bool {
    &&& src1.wf()
    &&& dst1.wf()
    &&& src1.row_count() == src0.row_count() - 1
    &&& dst1.row_count() == dst0.row_count() + 1
    &&& src1.entities() == swap_removed(src0.entities(), row)
    &&& dst1.entities() == dst0.entities().push(src0.entities()[row])
    &&& src1.tags() == src0.tags()
    &&& dst1.tags() == dst0.tags()
    &&& forall|t: ComponentType|
        src0.types().contains(t) ==> #[trigger] src1.column(t) == swap_removed(src0.column(t), row)
    &&& forall|t: ComponentType|
        src0.types().contains(t) ==> #[trigger] dst1.column(t) == dst0.column(t).push(src0.column(t)[row])
    &&& dst1.column(ty) == dst0.column(ty).push(component)
}

/// `src1` and `dst1` are `src0` and `dst0` after the entity at row `row` of
/// `src0` moved to the end of `dst0`, leaving behind its components of the
/// types that `dst0` lacks, with the last row of `src0` taking the vacated row.
pub open spec fn moved_down<T>(
    src0: Archetype<T>,
    dst0: Archetype<T>,
    src1: Archetype<T>,
    dst1: Archetype<T>,
    row: int,
) -> bool {
    &&& src1.wf()
    &&& dst1.wf()
    &&& src1.row_count() == src0.row_count() - 1
    &&& dst1.row_count() == dst0.row_count() + 1
    &&& src1.entities() == swap_removed(src0.entities(), row)
    &&& dst1.entities() == dst0.entities().push(src0.entities()[row])
    &&& src1.tags() == src0.tags()
    &&& dst1.tags() == dst0.tags()
    &&& forall|t: ComponentType|
        src0.types().contains(t) ==> #[trigger] src1.column(t) == swap_removed(src0.column(t), row)
    &&& forall|t: ComponentType|
        dst0.types().contains(t) ==> #[trigger] dst1.column(t) == dst0.column(t).push(src0.column(t)[row])
}

/// Rows of one archetype: the same row index selects one entity's values in
/// every column.
pub struct Archetype<T> {
    entities: Vec<EntityId>,
    columns: Vec<ComponentVec<T>>,
    entity_count: usize,
}

impl<T> Archetype<T> {
    /// The entity of each row, in row order.
    pub closed spec fn entities(&self) -> Seq<EntityId> {
        self.entities@
    }

    /// The number of rows.
    pub closed spec fn row_count(&self) -> nat {
        self.entity_count as nat
    }

    /// The tag of each column, in column order.
    pub closed spec fn tags(&self) -> Seq<ComponentType> {
        self.columns@.map_values(|c: ComponentVec<T>| c.tag())
    }

    /// The component types of the archetype.
    pub open spec fn types(&self) -> Set<ComponentType> {
        self.tags().to_set()
    }

    closed spec fn col_index(&self, ty: ComponentType) -> int {
        choose|i: int| 0 <= i < self.columns@.len() && self.columns@[i].tag() == ty
    }

    /// The values of the column of type `ty`, in row order.
    pub closed spec fn column(&self, ty: ComponentType) -> Seq<T> {
        self.columns@[self.col_index(ty)]@
    }

    /// The components of the entity at row `r`, by type.
    pub open spec fn row(&self, r: int) -> Map<ComponentType, T> {
        Map::new(|t: ComponentType| self.types().contains(t), |t: ComponentType| self.column(t)[r])
    }

    closed spec fn tags_unique(&self) -> bool {
        forall|i: int, j: int|
            0 <= i < self.columns@.len() && 0 <= j < self.columns@.len() && i != j
                ==> self.columns@[i].tag() != self.columns@[j].tag()
    }

    /// Every column holds one value per row, and no two columns share a type.
    pub closed spec fn wf(&self) -> bool {
        &&& self.entities@.len() == self.entity_count
        &&& forall|i: int|
            0 <= i < self.columns@.len() ==> {
                &&& (#[trigger] self.columns@[i]).wf()
                &&& self.columns@[i]@.len() == self.entity_count
            }
        &&& self.tags_unique()
    }

    proof fn lemma_col_index(&self, i: int)
        requires
            self.tags_unique(),
            0 <= i < self.columns@.len(),
        ensures
            self.col_index(self.columns@[i].tag()) == i,
            self.column(self.columns@[i].tag()) == self.columns@[i]@,
            self.types().contains(self.columns@[i].tag()),
    {
        assert(self.tags()[i] == self.columns@[i].tag());
    }

    proof fn lemma_types(&self, ty: ComponentType)
        requires
            self.tags_unique(),
        ensures
            self.types().contains(ty) <==> exists|i: int|
                0 <= i < self.columns@.len() && self.columns@[i].tag() == ty,
            self.types().contains(ty) ==> {
                &&& 0 <= self.col_index(ty) < self.columns@.len()
                &&& self.columns@[self.col_index(ty)].tag() == ty
                &&& self.wf() ==> self.column(ty).len() == self.row_count()
            },
    {
        if self.types().contains(ty) {
            let i = choose|i: int| 0 <= i < self.tags().len() && self.tags()[i] == ty;
            assert(self.columns@[i].tag() == ty);
        }
        if exists|i: int| 0 <= i < self.columns@.len() && self.columns@[i].tag() == ty {
            let i = choose|i: int| 0 <= i < self.columns@.len() && self.columns@[i].tag() == ty;
            assert(self.tags()[i] == ty);
        }
    }

    /// `post` is `self` with the component of type `ty` at row `row` set to
    /// `x`.
    pub closed spec fn written(self, post: Self, ty: ComponentType, row: int, x: T) -> bool {
        let i = self.col_index(ty);
        &&& post.entities == self.entities
        &&& post.entity_count == self.entity_count
        &&& post.columns@.len() == self.columns@.len()
        &&& forall|j: int| 0 <= j < self.columns@.len() && j != i ==> post.columns@[j] == self.columns@[j]
        &&& post.columns@[i].tag() == self.columns@[i].tag()
        &&& post.columns@[i].capacity() == self.columns@[i].capacity()
        &&& post.columns@[i]@ == self.columns@[i]@.update(row, x)
    }

    /// Writing one component keeps the archetype well formed and leaves the
    /// other columns as they were.
    pub proof fn lemma_written(self, post: Self, ty: ComponentType, row: int, x: T)
        requires
            self.written(post, ty, row, x),
            self.wf(),
            self.types().contains(ty),
            0 <= row < self.row_count(),
        ensures
            post.wf(),
            post.tags() == self.tags(),
            post.entities() == self.entities(),
            post.row_count() == self.row_count(),
            post.column(ty) == self.column(ty).update(row, x),
            forall|t: ComponentType|
                self.types().contains(t) && t != ty ==> #[trigger] post.column(t) == self.column(t),
    {
        self.lemma_types(ty);
        let i = self.col_index(ty);
        assert(post.tags() =~= self.tags());
        self.lemma_col_index(i);
        post.lemma_col_index(i);
        assert forall|t: ComponentType| self.types().contains(t) && t != ty implies #[trigger] post.column(t)
            == self.column(t) by {
            self.lemma_types(t);
            self.lemma_col_index(self.col_index(t));
            post.lemma_col_index(self.col_index(t));
        }
    }

    /// Every column of a well-formed archetype, the column of entities
    /// included, holds one value per row.
    pub proof fn lemma_wf(&self)
        requires
            self.wf(),
        ensures
            self.entities().len() == self.row_count(),
            self.row_count() <= usize::MAX,
            forall|t: ComponentType| #[trigger] self.types().contains(t) ==> self.column(t).len() == self.row_count(),
            self.types().finite(),
    {
        assert forall|t: ComponentType| #[trigger] self.types().contains(t) implies self.column(t).len() == self.row_count() by {
            self.lemma_types(t);
        }
        self.lemma_types_len();
    }

    /// An archetype with no columns and no rows.
    pub fn new() -> (r: Self)
        ensures
            r.wf(),
            r.row_count() == 0,
            r.entities() == Seq::<EntityId>::empty(),
            r.types() == Set::<ComponentType>::empty(),
    {
        let r = Archetype { entities: Vec::new(), columns: Vec::new(), entity_count: 0 };
        assert(r.types() =~= Set::<ComponentType>::empty());
        r
    }

    pub fn len(&self) -> (r: usize)
        ensures
            r == self.row_count(),
    {
        self.entity_count
    }

    /// The position of the column of type `ty`, if there is one.
    fn find_column(&self, ty: ComponentType) -> (r: Option<usize>)
        requires
            self.tags_unique(),
        ensures
            r is Some <==> self.types().contains(ty),
            r matches Some(i) ==> i < self.columns@.len() && self.columns@[i as int].tag() == ty
                && i == self.col_index(ty),
    {
        let mut i: usize = 0;
        while i < self.columns.len()
            invariant
                self.tags_unique(),
                i <= self.columns@.len(),
                forall|j: int| 0 <= j < i ==> self.columns@[j].tag() != ty,
            decreases self.columns@.len() - i,
        {
            if self.columns[i].is_type(ty) {
                proof {
                    self.lemma_col_index(i as int);
                }
                return Some(i);
            }
            i += 1;
        }
        proof {
            self.lemma_types(ty);
        }
        None
    }

    /// An empty archetype with the same component types.
    pub fn imitate(&self) -> (r: Self)
        requires
            self.wf(),
        ensures
            r.wf(),
            r.row_count() == 0,
            r.entities() == Seq::<EntityId>::empty(),
            r.types() == self.types(),
    {
        let mut columns: Vec<ComponentVec<T>> = Vec::new();
        let mut i: usize = 0;
        while i < self.columns.len()
            invariant
                self.wf(),
                i <= self.columns@.len(),
                columns@.len() == i,
                forall|j: int|
                    0 <= j < i ==> {
                        &&& (#[trigger] columns@[j]).wf()
                        &&& columns@[j]@.len() == 0
                        &&& columns@[j].tag() == self.columns@[j].tag()
                    },
            decreases self.columns@.len() - i,
        {
            columns.push(self.columns[i].imitate());
            i += 1;
        }
        let r = Archetype { entities: Vec::new(), columns, entity_count: 0 };
        assert(r.tags() =~= self.tags());
        r
    }

    /// Adds an empty column of type `ty`; the types stay as they are when
    /// the archetype has `ty` already.
    pub fn add_component(&mut self, ty: ComponentType)
        requires
            old(self).wf(),
            old(self).row_count() == 0,
        ensures
            final(self).wf(),
            final(self).row_count() == 0,
            final(self).entities() == old(self).entities(),
            final(self).types() == old(self).types().insert(ty),
    {
        if self.find_column(ty).is_none() {
            let ghost old_tags = self.tags();
            proof {
                self.lemma_types(ty);
            }
            self.columns.push(ComponentVec::new_as(ty));
            assert(self.tags() =~= old_tags.push(ty));
            assert forall|t: ComponentType| #[trigger] self.types().contains(t)
                == old_tags.to_set().insert(ty).contains(t) by {
                if t != ty && self.types().contains(t) {
                    let j = choose|j: int| 0 <= j < self.tags().len() && self.tags()[j] == t;
                    assert(old_tags[j] == t);
                }
                if t != ty && old_tags.to_set().contains(t) {
                    let j = choose|j: int| 0 <= j < old_tags.len() && old_tags[j] == t;
                    assert(self.tags()[j] == t);
                }
                if t == ty {
                    assert(self.tags()[old_tags.len() as int] == t);
                }
            }
            assert(self.types() =~= old_tags.to_set().insert(ty));
        } else {
            assert(self.types() =~= self.types().insert(ty));
        }
    }

    /// Removes the column of type `ty`, if there is one.
    pub fn remove_component(&mut self, ty: ComponentType)
        requires
            old(self).wf(),
            old(self).row_count() == 0,
        ensures
            final(self).wf(),
            final(self).row_count() == 0,
            final(self).entities() == old(self).entities(),
            final(self).types() == old(self).types().remove(ty),
    {
        match self.find_column(ty) {
            Some(i) => {
                let ghost old_cols = self.columns@;
                let _dropped = self.columns.remove(i);
                assert(self.columns@ =~= old_cols.remove(i as int));
                assert forall|t: ComponentType| #[trigger]
                    self.types().contains(t) == old(self).types().remove(ty).contains(t) by {
                    old(self).lemma_types(t);
                    self.lemma_types(t);
                    if self.types().contains(t) {
                        let j = choose|j: int|
                            0 <= j < self.columns@.len() && self.columns@[j].tag() == t;
                        if j < i {
                            assert(old_cols[j] == self.columns@[j]);
                        } else {
                            assert(old_cols[j + 1] == self.columns@[j]);
                        }
                    }
                    if old(self).types().remove(ty).contains(t) {
                        let j = choose|j: int|
                            0 <= j < old_cols.len() && old_cols[j].tag() == t;
                        if j < i {
                            assert(old_cols[j] == self.columns@[j]);
                        } else {
                            assert(old_cols[j] == self.columns@[j - 1]);
                        }
                    }
                }
                assert(self.types() =~= old(self).types().remove(ty));
            },
            None => {
                assert(self.types() =~= self.types().remove(ty));
            },
        }
    }

    /// Appends a row for entity `e` to an archetype without columns; returns
    /// its row index.
    pub fn push_entity(&mut self, e: EntityId) -> (r: usize)
        requires
            old(self).wf(),
            old(self).types() == Set::<ComponentType>::empty(),
        ensures
            final(self).wf(),
            r == old(self).row_count(),
            final(self).row_count() == old(self).row_count() + 1,
            final(self).entities() == old(self).entities().push(e),
            final(self).types() == old(self).types(),
            final(self).tags() == old(self).tags(),
    {
        proof {
            if self.columns@.len() > 0 {
                self.lemma_col_index(0);
            }
        }
        let r = self.entity_count;
        self.entities.push(e);
        assert(self.entities@.len() == self.entities.len());
        self.entity_count = r + 1;
        r
    }

    /// Drops the components of row `row`; the last row takes its place.
    pub fn remove_entity(&mut self, row: usize)
        requires
            old(self).wf(),
            row < old(self).row_count(),
        ensures
            final(self).wf(),
            final(self).row_count() == old(self).row_count() - 1,
            final(self).entities() == swap_removed(old(self).entities(), row as int),
            final(self).tags() == old(self).tags(),
            forall|ty: ComponentType|
                old(self).types().contains(ty) ==> #[trigger] final(self).column(ty)
                    == swap_removed(old(self).column(ty), row as int),
    {
        let ghost old_cols = self.columns@;
        let mut i: usize = 0;
        while i < self.columns.len()
            invariant
                old(self).wf(),
                row < old(self).row_count(),
                self.entities == old(self).entities,
                self.entity_count == old(self).entity_count,
                old_cols == old(self).columns@,
                self.columns@.len() == old_cols.len(),
                i <= old_cols.len(),
                forall|j: int|
                    0 <= j < old_cols.len() ==> {
                        &&& (#[trigger] self.columns@[j]).wf()
                        &&& self.columns@[j].tag() == old_cols[j].tag()
                        &&& j < i ==> self.columns@[j]@ == swap_removed(old_cols[j]@, row as int)
                        &&& j >= i ==> self.columns@[j]@ == old_cols[j]@
                    },
            decreases old_cols.len() - i,
        {
            self.columns[i].swap_forget(row);
            i += 1;
        }
        let _dropped = self.entities.swap_remove(row);
        self.entity_count = self.entity_count - 1;
        assert(self.tags() =~= old(self).tags());
        assert forall|ty: ComponentType| old(self).types().contains(ty) implies #[trigger] self.column(ty)
            == swap_removed(old(self).column(ty), row as int) by {
            old(self).lemma_types(ty);
            let j = old(self).col_index(ty);
            old(self).lemma_col_index(j);
            assert(self.wf());
            self.lemma_col_index(j);
        }
    }


    /// The component of type `ty` at row `row`, if the archetype has `ty`.
    pub fn get_component(&self, ty: ComponentType, row: usize) -> (r: Option<&T>)
        requires
            self.wf(),
            row < self.row_count(),
        ensures
            r is Some <==> self.types().contains(ty),
            r matches Some(v) ==> *v == self.column(ty)[row as int],
    {
        match self.find_column(ty) {
            Some(i) => {
                proof {
                    self.lemma_col_index(i as int);
                }
                Some(self.columns[i].get(row))
            },
            None => None,
        }
    }

    /// The component of type `ty` at row `row`, for writing, if the
    /// archetype has `ty`.
    pub fn get_component_mut(&mut self, ty: ComponentType, row: usize) -> (r: Option<&mut T>)
        requires
            old(self).wf(),
            row < old(self).row_count(),
        ensures
            r is Some <==> old(self).types().contains(ty),
            r is None ==> *final(self) == *old(self),
            r matches Some(v) ==> {
                &&& *v == old(self).column(ty)[row as int]
                &&& old(self).written(*final(self), ty, row as int, *final(v))
            },
    {
        match self.find_column(ty) {
            Some(i) => {
                proof {
                    self.lemma_col_index(i as int);
                    self.lemma_types(ty);
                }
                let v = self.columns[i].get_mut(row);
                Some(v)
            },
            None => None,
        }
    }

    /// The values of the column of type `ty`, in row order.
    pub fn get_component_vec(&self, ty: ComponentType) -> (r: &[T])
        requires
            self.wf(),
            self.types().contains(ty),
        ensures
            r@ == self.column(ty),
    {
        proof {
            self.lemma_types(ty);
        }
        let i = self.find_column(ty).unwrap();
        self.columns[i].as_slice(ty)
    }


    /// Moves the entity at row `row` into `dst`, whose types are those of
    /// `self` and `ty`, giving it `component` as its value of type `ty`.
    /// The last row of `self` takes the vacated row. Returns the entity's row
    /// in `dst`.
    pub fn upgrade_entity(&mut self, dst: &mut Self, row: usize, ty: ComponentType, component: T) -> (r: usize)
        requires
            old(self).wf(),
            old(dst).wf(),
            row < old(self).row_count(),
            !old(self).types().contains(ty),
            old(dst).types() == old(self).types().insert(ty),
        ensures
            r == old(dst).row_count(),
            moved_up(*old(self), *old(dst), *final(self), *final(dst), row as int, ty, component),
    {
        let ghost src_cols = self.columns@;
        let ghost dst_cols = dst.columns@;
        let mut i: usize = 0;
        while i < self.columns.len()
            invariant
                old(self).wf(),
                old(dst).wf(),
                row < old(self).row_count(),
                !old(self).types().contains(ty),
                old(dst).types() == old(self).types().insert(ty),
                src_cols == old(self).columns@,
                dst_cols == old(dst).columns@,
                self.entities == old(self).entities,
                self.entity_count == old(self).entity_count,
                dst.entities == old(dst).entities,
                dst.entity_count == old(dst).entity_count,
                self.columns@.len() == src_cols.len(),
                dst.columns@.len() == dst_cols.len(),
                i <= src_cols.len(),
                forall|j: int|
                    0 <= j < src_cols.len() ==> {
                        &&& (#[trigger] self.columns@[j]).wf()
                        &&& self.columns@[j].tag() == src_cols[j].tag()
                        &&& j < i ==> self.columns@[j]@ == swap_removed(src_cols[j]@, row as int)
                        &&& j >= i ==> self.columns@[j]@ == src_cols[j]@
                    },
                forall|k: int|
                    0 <= k < dst_cols.len() ==> {
                        &&& (#[trigger] dst.columns@[k]).wf()
                        &&& dst.columns@[k].tag() == dst_cols[k].tag()
                        &&& if old(self).types().contains(dst_cols[k].tag()) && old(self).col_index(
                            dst_cols[k].tag(),
                        ) < i {
                            dst.columns@[k]@ == dst_cols[k]@.push(
                                src_cols[old(self).col_index(dst_cols[k].tag())]@[row as int],
                            )
                        } else {
                            dst.columns@[k]@ == dst_cols[k]@
                        }
                    },
            decreases src_cols.len() - i,
        {
            let tag = self.columns[i].type_id();
            proof {
                old(self).lemma_col_index(i as int);
                assert(dst.tags_unique()) by {
                    assert(old(dst).tags_unique());
                }
                assert(dst.tags() =~= old(dst).tags());
                old(dst).lemma_types(tag);
            }
            if let Some(j) = dst.find_column(tag) {
                proof {
                    old(dst).lemma_col_index(j as int);
                    assert forall|k: int| 0 <= k < dst_cols.len() && k != j implies
                        old(self).col_index(#[trigger] dst_cols[k].tag()) != i
                        || !old(self).types().contains(dst_cols[k].tag()) by {
                        if old(self).types().contains(dst_cols[k].tag()) && old(self).col_index(dst_cols[k].tag()) == i {
                            old(self).lemma_types(dst_cols[k].tag());
                        }
                    }
                }
                self.columns[i].swap_to_tail(row);
                dst.columns[j].adopt_tail(&mut self.columns[i]);
            }
            i += 1;
        }
        proof {
            assert(dst.tags_unique()) by {
                assert(old(dst).tags_unique());
            }
            assert(dst.tags() =~= old(dst).tags());
            old(dst).lemma_types(ty);
            assert forall|k: int| 0 <= k < dst_cols.len() && dst_cols[k].tag() != ty implies
                old(self).types().contains(#[trigger] dst_cols[k].tag())
                && old(self).col_index(dst_cols[k].tag()) < src_cols.len()
                && src_cols[old(self).col_index(dst_cols[k].tag())]@.len() == old(self).row_count() by {
                old(dst).lemma_col_index(k);
                old(self).lemma_types(dst_cols[k].tag());
                old(self).lemma_col_index(old(self).col_index(dst_cols[k].tag()));
            }
        }
        let k = dst.find_column(ty).unwrap();
        dst.columns[k].push(ty, component);
        proof {
            old(dst).lemma_col_index(k as int);
        }
        let e = self.entities.swap_remove(row);
        dst.entities.push(e);
        assert(dst.entities@.len() == dst.entities.len());
        let new_row = dst.entity_count;
        self.entity_count = self.entity_count - 1;
        dst.entity_count = new_row + 1;
        assert(self.tags() =~= old(self).tags());
        assert(dst.tags() =~= old(dst).tags());
        proof {
            assert forall|t: ComponentType| old(self).types().contains(t) implies #[trigger] self.column(t)
                == swap_removed(old(self).column(t), row as int) by {
                old(self).lemma_types(t);
                old(self).lemma_col_index(old(self).col_index(t));
                self.lemma_col_index(old(self).col_index(t));
                assert(old(dst).types().contains(t));
                old(dst).lemma_types(t);
                old(dst).lemma_col_index(old(dst).col_index(t));
                dst.lemma_col_index(old(dst).col_index(t));
            }
            assert forall|t: ComponentType| old(self).types().contains(t) implies #[trigger] dst.column(t)
                == old(dst).column(t).push(old(self).column(t)[row as int]) by {
                old(self).lemma_types(t);
                old(self).lemma_col_index(old(self).col_index(t));
                self.lemma_col_index(old(self).col_index(t));
                assert(old(dst).types().contains(t));
                old(dst).lemma_types(t);
                old(dst).lemma_col_index(old(dst).col_index(t));
                dst.lemma_col_index(old(dst).col_index(t));
            }
            old(dst).lemma_col_index(k as int);
            dst.lemma_col_index(k as int);
        }
        new_row
    }


    /// Moves the entity at row `row` into `dst`, whose types are those of
    /// `self` but one; the component of that one type is dropped. The last row
    /// of `self` takes the vacated row. Returns the entity's row in `dst`.
    pub fn downgrade_entity(&mut self, dst: &mut Self, row: usize) -> (r: usize)
        requires
            old(self).wf(),
            old(dst).wf(),
            row < old(self).row_count(),
            exists|t: ComponentType| #[trigger]
                old(self).types().contains(t) && old(dst).types() == old(self).types().remove(t),
        ensures
            r == old(dst).row_count(),
            moved_down(*old(self), *old(dst), *final(self), *final(dst), row as int),
    {
        let ghost gone = choose|t: ComponentType| #[trigger]
            old(self).types().contains(t) && old(dst).types() == old(self).types().remove(t);
        let ghost src_cols = self.columns@;
        let ghost dst_cols = dst.columns@;
        proof {
            assert forall|k: int| 0 <= k < dst_cols.len() implies
                0 <= old(self).col_index(#[trigger] dst_cols[k].tag()) < src_cols.len() by {
                old(dst).lemma_col_index(k);
                old(self).lemma_types(dst_cols[k].tag());
            }
        }
        let mut i: usize = 0;
        while i < self.columns.len()
            invariant
                old(self).wf(),
                old(dst).wf(),
                row < old(self).row_count(),
                old(self).types().contains(gone),
                old(dst).types() == old(self).types().remove(gone),
                src_cols == old(self).columns@,
                dst_cols == old(dst).columns@,
                self.entities == old(self).entities,
                self.entity_count == old(self).entity_count,
                dst.entities == old(dst).entities,
                dst.entity_count == old(dst).entity_count,
                self.columns@.len() == src_cols.len(),
                dst.columns@.len() == dst_cols.len(),
                i <= src_cols.len(),
                forall|j: int|
                    0 <= j < src_cols.len() ==> {
                        &&& (#[trigger] self.columns@[j]).wf()
                        &&& self.columns@[j].tag() == src_cols[j].tag()
                        &&& j < i ==> self.columns@[j]@ == swap_removed(src_cols[j]@, row as int)
                        &&& j >= i ==> self.columns@[j]@ == src_cols[j]@
                    },
                forall|k: int|
                    0 <= k < dst_cols.len() ==> {
                        &&& (#[trigger] dst.columns@[k]).wf()
                        &&& dst.columns@[k].tag() == dst_cols[k].tag()
                        &&& if old(self).col_index(dst_cols[k].tag()) < i {
                            dst.columns@[k]@ == dst_cols[k]@.push(
                                src_cols[old(self).col_index(dst_cols[k].tag())]@[row as int],
                            )
                        } else {
                            dst.columns@[k]@ == dst_cols[k]@
                        }
                    },
            decreases src_cols.len() - i,
        {
            let tag = self.columns[i].type_id();
            proof {
                old(self).lemma_col_index(i as int);
                assert(dst.tags_unique()) by {
                    assert(old(dst).tags_unique());
                }
                assert(dst.tags() =~= old(dst).tags());
                old(dst).lemma_types(tag);
                assert forall|k: int| 0 <= k < dst_cols.len() implies
                    old(self).types().contains(#[trigger] dst_cols[k].tag()) && 0 <= old(self).col_index(dst_cols[k].tag()) < src_cols.len()
                    && src_cols[old(self).col_index(dst_cols[k].tag())].tag() == dst_cols[k].tag() by {
                    old(dst).lemma_col_index(k);
                    old(self).lemma_types(dst_cols[k].tag());
                }
            }
            match dst.find_column(tag) {
                Some(j) => {
                    proof {
                        old(dst).lemma_col_index(j as int);
                    }
                    self.columns[i].swap_to_tail(row);
                    dst.columns[j].adopt_tail(&mut self.columns[i]);
                },
                None => {
                    self.columns[i].swap_forget(row);
                },
            }
            i += 1;
        }
        let e = self.entities.swap_remove(row);
        dst.entities.push(e);
        assert(dst.entities@.len() == dst.entities.len());
        let new_row = dst.entity_count;
        self.entity_count = self.entity_count - 1;
        dst.entity_count = new_row + 1;
        assert(self.tags() =~= old(self).tags());
        assert(dst.tags() =~= old(dst).tags());
        proof {
            assert forall|k: int| 0 <= k < dst_cols.len() implies
                old(self).types().contains(#[trigger] dst_cols[k].tag()) && 0 <= old(self).col_index(dst_cols[k].tag()) < src_cols.len()
                && src_cols[old(self).col_index(dst_cols[k].tag())]@.len() == old(self).row_count() by {
                old(dst).lemma_col_index(k);
                old(self).lemma_types(dst_cols[k].tag());
            }
            assert forall|t: ComponentType| old(self).types().contains(t) implies #[trigger] self.column(t)
                == swap_removed(old(self).column(t), row as int) by {
                old(self).lemma_types(t);
                old(self).lemma_col_index(old(self).col_index(t));
                self.lemma_col_index(old(self).col_index(t));
            }
            assert forall|t: ComponentType| old(dst).types().contains(t) implies #[trigger] dst.column(t)
                == old(dst).column(t).push(old(self).column(t)[row as int]) by {
                old(dst).lemma_types(t);
                old(dst).lemma_col_index(old(dst).col_index(t));
                dst.lemma_col_index(old(dst).col_index(t));
            }
        }
        new_row
    }


    proof fn lemma_types_len(&self)
        requires
            self.tags_unique(),
        ensures
            self.types().finite(),
            self.types().len() == self.columns@.len(),
    {
        broadcast use vstd::seq_lib::seq_to_set_is_finite;

        assert(self.tags().no_duplicates()) by {
            assert forall|i: int, j: int|
                0 <= i < self.tags().len() && 0 <= j < self.tags().len() && i != j implies
                self.tags()[i] != self.tags()[j] by {
                assert(self.tags()[i] == self.columns@[i].tag());
                assert(self.tags()[j] == self.columns@[j].tag());
            }
        }
        self.tags().unique_seq_to_set();
    }

    /// The one type that `big` has beyond the types of `self`, when `big`
    /// has exactly one type more.
    pub fn one_more_type(&self, big: &Self) -> (r: Option<ComponentType>)
        requires
            self.wf(),
            big.wf(),
        ensures
            r matches Some(t) ==> one_step(self.types(), big.types(), t),
            r is None ==> forall|t: ComponentType| !one_step(self.types(), big.types(), t),
    {
        proof {
            self.lemma_types_len();
            big.lemma_types_len();
            assert forall|t: ComponentType| one_step(self.types(), big.types(), t) implies
                big.columns@.len() == self.columns@.len() + 1 by {
            }
        }
        if big.columns.len() == 0 || big.columns.len() - 1 != self.columns.len() {
            return None;
        }
        let mut i: usize = 0;
        while i < self.columns.len()
            invariant
                self.wf(),
                big.wf(),
                i <= self.columns@.len(),
                forall|j: int| 0 <= j < i ==> big.types().contains(#[trigger] self.columns@[j].tag()),
            decreases self.columns@.len() - i,
        {
            if big.find_column(self.columns[i].type_id()).is_none() {
                proof {
                    self.lemma_col_index(i as int);
                    assert forall|t: ComponentType| !one_step(self.types(), big.types(), t) by {
                        if one_step(self.types(), big.types(), t) {
                            assert(big.types().contains(self.columns@[i as int].tag()));
                        }
                    }
                }
                return None;
            }
            i += 1;
        }
        proof {
            assert forall|t: ComponentType| self.types().contains(t) implies big.types().contains(t) by {
                self.lemma_types(t);
            }
        }
        let mut k: usize = 0;
        while k < big.columns.len()
            invariant
                self.wf(),
                big.wf(),
                k <= big.columns@.len(),
                big.columns@.len() == self.columns@.len() + 1,
                self.types().subset_of(big.types()),
                self.types().finite(),
                big.types().finite(),
                self.types().len() == self.columns@.len(),
                big.types().len() == big.columns@.len(),
                forall|j: int| 0 <= j < k ==> self.types().contains(#[trigger] big.columns@[j].tag()),
            decreases big.columns@.len() - k,
        {
            let t = big.columns[k].type_id();
            if self.find_column(t).is_none() {
                proof {
                    big.lemma_col_index(k as int);
                    vstd::set_lib::lemma_len_subset(self.types().insert(t), big.types());
                    vstd::set_lib::lemma_subset_equality(self.types().insert(t), big.types());
                }
                return Some(t);
            }
            k += 1;
        }
        proof {
            assert forall|t: ComponentType| !one_step(self.types(), big.types(), t) by {
                if one_step(self.types(), big.types(), t) {
                    big.lemma_types(t);
                    big.lemma_col_index(big.col_index(t));
                }
            }
        }
        None
    }


    /// The entity at row `row`.
    pub fn entity_at(&self, row: usize) -> (r: EntityId)
        requires
            self.wf(),
            row < self.row_count(),
        ensures
            r == self.entities()[row as int],
    {
        self.entities[row]
    }

    /// Replaces the component of type `ty` at row `row` by `value`.
    pub fn set_component(&mut self, ty: ComponentType, row: usize, value: T)
        requires
            old(self).wf(),
            row < old(self).row_count(),
            old(self).types().contains(ty),
        ensures
            old(self).written(*final(self), ty, row as int, value),
    {
        let i = self.find_column(ty).unwrap();
        self.columns[i].set(row, value);
    }


    /// After a swap-remove of row `row`, each row holds what the row it came
    /// from held.
    pub proof fn lemma_rows_swap_removed(self, post: Self, row: int)
        requires
            self.wf(),
            0 <= row < self.row_count(),
            post.tags() == self.tags(),
            post.row_count() == self.row_count() - 1,
            forall|t: ComponentType|
                self.types().contains(t) ==> #[trigger] post.column(t) == swap_removed(self.column(t), row),
        ensures
            forall|r: int|
                0 <= r < post.row_count() ==> #[trigger] post.row(r) == self.row(
                    if r == row {
                        self.row_count() - 1
                    } else {
                        r
                    },
                ),
    {
        assert forall|r: int| 0 <= r < post.row_count() implies #[trigger] post.row(r) == self.row(
            if r == row {
                self.row_count() - 1
            } else {
                r
            },
        ) by {
            let src = if r == row {
                self.row_count() - 1
            } else {
                r
            };
            assert forall|t: ComponentType| self.types().contains(t) implies post.column(t)[r] == self.column(t)[src] by {
                self.lemma_types(t);
            }
            assert(post.row(r) =~= self.row(
                if r == row {
                    self.row_count() - 1
                } else {
                    r
                },
            ));
        }
    }

    /// After a row holding `extra` is appended, the earlier rows are as they
    /// were.
    pub proof fn lemma_rows_pushed(self, post: Self, extra: Map<ComponentType, T>)
        requires
            post.tags() == self.tags(),
            post.row_count() == self.row_count() + 1,
            extra.dom() == self.types(),
            forall|t: ComponentType|
                self.types().contains(t) ==> #[trigger] post.column(t) == self.column(t).push(extra[t]),
            self.wf(),
        ensures
            forall|r: int| 0 <= r < self.row_count() ==> #[trigger] post.row(r) == self.row(r),
            post.row(self.row_count() as int) == extra,
    {
        assert forall|r: int| 0 <= r < self.row_count() implies #[trigger] post.row(r) == self.row(r) by {
            assert forall|t: ComponentType| self.types().contains(t) implies post.column(t)[r] == self.column(t)[r] by {
                self.lemma_types(t);
            }
            assert(post.row(r) =~= self.row(r));
        }
        assert forall|t: ComponentType| self.types().contains(t) implies post.column(t)[self.row_count() as int] == extra[t] by {
            self.lemma_types(t);
        }
        assert(post.row(self.row_count() as int) =~= extra);
    }

    /// After one component is written, the rows are as they were but for
    /// that component.
    pub proof fn lemma_rows_written(self, post: Self, ty: ComponentType, row: int, x: T)
        requires
            self.written(post, ty, row, x),
            self.wf(),
            self.types().contains(ty),
            0 <= row < self.row_count(),
        ensures
            post.wf(),
            post.tags() == self.tags(),
            post.entities() == self.entities(),
            post.row_count() == self.row_count(),
            forall|r: int| 0 <= r < self.row_count() && r != row ==> #[trigger] post.row(r) == self.row(r),
            post.row(row) == self.row(row).insert(ty, x),
    {
        self.lemma_written(post, ty, row, x);
        self.lemma_types(ty);
        assert forall|r: int| 0 <= r < self.row_count() && r != row implies #[trigger] post.row(r) == self.row(r) by {
            assert forall|t: ComponentType| self.types().contains(t) implies post.column(t)[r] == self.column(t)[r] by {
                self.lemma_types(t);
            }
            assert(post.row(r) =~= self.row(r));
        }
        assert(post.row(row) =~= self.row(row).insert(ty, x));
    }


    /// Whether the archetype has component type `ty`.
    pub fn has_type(&self, ty: ComponentType) -> (r: bool)
        requires
            self.wf(),
        ensures
            r == self.types().contains(ty),
    {
        self.find_column(ty).is_some()
    }

    /// The component types of the archetype, in column order.
    pub fn component_types(&self) -> (r: Vec<ComponentType>)
        requires
            self.wf(),
        ensures
            r@ == self.tags(),
            r@.to_set() == self.types(),
            r@.no_duplicates(),
    {
        let mut r: Vec<ComponentType> = Vec::new();
        let mut i: usize = 0;
        while i < self.columns.len()
            invariant
                i <= self.columns@.len(),
                r@ == self.tags().subrange(0, i as int),
            decreases self.columns@.len() - i,
        {
            r.push(self.columns[i].type_id());
            i += 1;
        }
        assert(r@ =~= self.tags());
        assert forall|x: int, y: int| 0 <= x < r@.len() && 0 <= y < r@.len() && x != y implies r@[x] != r@[y] by {
            assert(r@[x] == self.columns@[x].tag());
            assert(r@[y] == self.columns@[y].tag());
        }
        r
    }


    /// `post` is `self` with the components of types `t1` and `t2` at row
    /// `row` set to `x1` and `x2`.
    pub closed spec fn written_two(self, post: Self, t1: ComponentType, t2: ComponentType, row: int, x1: T, x2: T) -> bool {
        let i = self.col_index(t1);
        let j = self.col_index(t2);
        &&& post.entities == self.entities
        &&& post.entity_count == self.entity_count
        &&& post.columns@.len() == self.columns@.len()
        &&& forall|k: int| 0 <= k < self.columns@.len() && k != i && k != j ==> post.columns@[k] == self.columns@[k]
        &&& post.columns@[i].tag() == self.columns@[i].tag()
        &&& post.columns@[i].capacity() == self.columns@[i].capacity()
        &&& post.columns@[i]@ == self.columns@[i]@.update(row, x1)
        &&& post.columns@[j].tag() == self.columns@[j].tag()
        &&& post.columns@[j].capacity() == self.columns@[j].capacity()
        &&& post.columns@[j]@ == self.columns@[j]@.update(row, x2)
    }

    /// The components of the two distinct types `t1` and `t2` at row `row`,
    /// for writing at once, if the archetype has both types.
    pub fn get_two_components_mut(&mut self, t1: ComponentType, t2: ComponentType, row: usize) -> (r: Option<(&mut T, &mut T)>)
        requires
            old(self).wf(),
            row < old(self).row_count(),
            t1 != t2,
        ensures
            r is Some <==> old(self).types().contains(t1) && old(self).types().contains(t2),
            r is None ==> *final(self) == *old(self),
            r matches Some(p) ==> {
                &&& *p.0 == old(self).column(t1)[row as int]
                &&& *p.1 == old(self).column(t2)[row as int]
                &&& old(self).written_two(*final(self), t1, t2, row as int, *final(p.0), *final(p.1))
            },
    {
        let i = match self.find_column(t1) {
            Some(i) => i,
            None => return None,
        };
        let j = match self.find_column(t2) {
            Some(j) => j,
            None => return None,
        };
        proof {
            self.lemma_col_index(i as int);
            self.lemma_col_index(j as int);
            self.lemma_types(t1);
            self.lemma_types(t2);
        }
        let cols = self.columns.as_mut_slice();
        if i < j {
            let (left, right) = cols.split_at_mut(j);
            let (_, mid) = left.split_at_mut(i);
            let c1 = mid.first_mut().unwrap();
            let c2 = right.first_mut().unwrap();
            Some((c1.get_mut(row), c2.get_mut(row)))
        } else {
            let (left, right) = cols.split_at_mut(i);
            let (_, mid) = left.split_at_mut(j);
            let c2 = mid.first_mut().unwrap();
            let c1 = right.first_mut().unwrap();
            Some((c1.get_mut(row), c2.get_mut(row)))
        }
    }


    /// After two components of one row are written, the rows are as they
    /// were but for those two components.
    pub proof fn lemma_rows_written_two(self, post: Self, t1: ComponentType, t2: ComponentType, row: int, x1: T, x2: T)
        requires
            self.written_two(post, t1, t2, row, x1, x2),
            self.wf(),
            self.types().contains(t1),
            self.types().contains(t2),
            t1 != t2,
            0 <= row < self.row_count(),
        ensures
            post.wf(),
            post.tags() == self.tags(),
            post.entities() == self.entities(),
            post.row_count() == self.row_count(),
            forall|r: int| 0 <= r < self.row_count() && r != row ==> #[trigger] post.row(r) == self.row(r),
            post.row(row) == self.row(row).insert(t1, x1).insert(t2, x2),
    {
        self.lemma_types(t1);
        self.lemma_types(t2);
        let i = self.col_index(t1);
        let j = self.col_index(t2);
        self.lemma_col_index(i);
        self.lemma_col_index(j);
        assert(post.tags() =~= self.tags());
        post.lemma_col_index(i);
        post.lemma_col_index(j);
        assert forall|t: ComponentType| self.types().contains(t) implies {
            &&& post.column(t).len() == self.column(t).len()
            &&& forall|r: int| 0 <= r < self.row_count() && (r != row || (t != t1 && t != t2))
                ==> post.column(t)[r] == self.column(t)[r]
        } by {
            self.lemma_types(t);
            self.lemma_col_index(self.col_index(t));
            post.lemma_col_index(self.col_index(t));
        }
        assert forall|r: int| 0 <= r < self.row_count() && r != row implies #[trigger] post.row(r) == self.row(r) by {
            assert(post.row(r) =~= self.row(r));
        }
        assert(post.row(row) =~= self.row(row).insert(t1, x1).insert(t2, x2));
    }


    /// `post` is `self` with the column of type `types[j]` holding
    /// `vals[j]`, for each `j`, and the other columns as they were.
    pub closed spec fn columns_set(self, post: Self, types: Seq<ComponentType>, vals: Seq<Seq<T>>) -> bool {
        &&& post.entities == self.entities
        &&& post.entity_count == self.entity_count
        &&& post.columns@.len() == self.columns@.len()
        &&& forall|i: int| 0 <= i < self.columns@.len() && !types.contains(self.columns@[i].tag())
            ==> #[trigger] post.columns@[i] == self.columns@[i]
        &&& forall|j: int| 0 <= j < types.len() ==> {
            let i = self.col_index(#[trigger] types[j]);
            &&& post.columns@[i].tag() == self.columns@[i].tag()
            &&& post.columns@[i].capacity() == self.columns@[i].capacity()
            &&& post.columns@[i]@.len() == vals[j].len()
            &&& forall|r: int| 0 <= r < vals[j].len() ==> post.columns@[i]@[r] == vals[j][r]
        }
    }

    /// For each type of `types`, pairwise distinct, a mutable borrow of the
    /// component of that type of each row, in row order.
    pub fn iter_columns_mut(&mut self, types: &Vec<ComponentType>) -> (r: Vec<Vec<&mut T>>)
        requires
            old(self).wf(),
            types@.no_duplicates(),
            forall|j: int| 0 <= j < types@.len() ==> old(self).types().contains(#[trigger] types@[j]),
        ensures
            r@.len() == types@.len(),
            forall|j: int| 0 <= j < r@.len() ==> (#[trigger] r@[j])@.len() == old(self).row_count(),
            forall|j: int, k: int| 0 <= j < r@.len() && 0 <= k < old(self).row_count()
                ==> *(#[trigger] r@[j]@[k]) == old(self).column(types@[j])[k],
            old(self).columns_set(
                *final(self),
                types@,
                Seq::new(r@.len(), |j: int| Seq::new(r@[j]@.len(), |k: int| *final(r@[j]@[k]))),
            ),
    {
        let ghost pre = *self;
        let ghost cols = self.columns@;
        let ghost n = self.entity_count as nat;
        let k = types.len();
        let mut idxs: Vec<usize> = Vec::new();
        let mut j: usize = 0;
        while j < k
            invariant
                *self == pre,
                pre.wf(),
                cols == pre.columns@,
                k == types@.len(),
                j <= k,
                idxs@.len() == j,
                forall|q: int| 0 <= q < types@.len() ==> pre.types().contains(#[trigger] types@[q]),
                forall|q: int| 0 <= q < j ==> #[trigger] idxs@[q] == pre.col_index(types@[q]) && idxs@[q] < cols.len()
                    && cols[idxs@[q] as int].tag() == types@[q],
            decreases k - j,
        {
            let i = self.find_column(types[j]).unwrap();
            let ghost old_idxs = idxs@;
            idxs.push(i);
            proof {
                assert forall|q: int| 0 <= q < j + 1 implies #[trigger] idxs@[q] == pre.col_index(types@[q]) && idxs@[q] < cols.len()
                    && cols[idxs@[q] as int].tag() == types@[q] by {
                    if q < j {
                        assert(idxs@[q] == old_idxs[q]);
                    }
                }
            }
            j += 1;
        }
        let ncols = self.columns.len();
        let mut refs = borrow_each(&mut self.columns);
        let ghost refs0 = refs@;
        let mut slots: Vec<Option<Vec<&mut T>>> = Vec::new();
        let mut q: usize = 0;
        while q < k
            invariant
                q <= k,
                slots@.len() == q,
                forall|x: int| 0 <= x < q ==> slots@[x] is None,
            decreases k - q,
        {
            slots.push(None);
            q += 1;
        }
        let mut i: usize = ncols;
        while i > 0
            invariant
                pre.wf(),
                types@.no_duplicates(),
                cols == pre.columns@,
                ncols == cols.len(),
                n == pre.row_count(),
                k == types@.len(),
                i <= ncols,
                refs@ == refs0.subrange(0, i as int),
                refs0.len() == ncols,
                forall|x: int| 0 <= x < ncols ==> *refs0[x] == cols[x],
                idxs@.len() == k,
                forall|q: int| 0 <= q < k ==> #[trigger] idxs@[q] == pre.col_index(types@[q]) && idxs@[q] < cols.len()
                    && cols[idxs@[q] as int].tag() == types@[q],
                slots@.len() == k,
                forall|q: int| 0 <= q < k ==> (#[trigger] slots@[q] is Some <==> idxs@[q] >= i),
                forall|q: int| 0 <= q < k && idxs@[q] >= i ==> {
                    let v = (#[trigger] slots@[q]).unwrap();
                    &&& v@.len() == n
                    &&& forall|r: int| 0 <= r < n ==> *v@[r] == cols[idxs@[q] as int]@[r]
                    &&& (*final(refs0[idxs@[q] as int])).tag() == cols[idxs@[q] as int].tag()
                    &&& (*final(refs0[idxs@[q] as int])).capacity() == cols[idxs@[q] as int].capacity()
                    &&& (*final(refs0[idxs@[q] as int]))@.len() == n
                    &&& forall|r: int| 0 <= r < n ==> (*final(refs0[idxs@[q] as int]))@[r] == *final(v@[r])
                },
                forall|x: int| i <= x < ncols && !types@.contains(cols[x].tag()) ==> *final(#[trigger] refs0[x]) == cols[x],
            decreases i,
        {
            i -= 1;
            let c = refs.pop().unwrap();
            proof {
                assert(*c == cols[i as int]);
                assert(pre.columns@[i as int].wf());
                pre.lemma_col_index(i as int);
            }
            let ghost old_slots = slots@;
            let mut q: usize = 0;
            let mut found = false;
            while q < k
                invariant_except_break
                    !found,
                invariant
                    q <= k,
                    idxs@.len() == k,
                    forall|x: int| 0 <= x < q ==> idxs@[x] != i,
                ensures
                    !found ==> forall|x: int| 0 <= x < k ==> idxs@[x] != i,
                    found ==> q < k && idxs@[q as int] == i,
                decreases k - q,
            {
                if idxs[q] == i {
                    found = true;
                    break;
                }
                q += 1;
            }
            if found {
                let v = c.iter_mut();
                let _old_slot = slots.remove(q);
                slots.insert(q, Some(v));
                proof {
                    assert(slots@ =~= old_slots.update(q as int, Some(v)));
                    assert forall|x: int| 0 <= x < k && x != q implies idxs@[x] != i by {
                        if idxs@[x] == i {
                            assert(types@[x] == types@[q as int]);
                        }
                    }
                }
            } else {
                proof {
                    assert(!types@.contains(cols[i as int].tag())) by {
                        if types@.contains(cols[i as int].tag()) {
                            let x = choose|x: int| 0 <= x < types@.len() && types@[x] == cols[i as int].tag();
                            assert(idxs@[x] == i);
                        }
                    }
                }
            }
        }
        proof {
            assert forall|q: int, r: int| 0 <= q < k && 0 <= r < n implies
                (*final(refs0[idxs@[q] as int]))@[r] == *final(slots@[q].unwrap()@[r]) by {
                assert(slots@[q] is Some);
            }
        }
        let ghost slots0 = slots@;
        let mut rev: Vec<Vec<&mut T>> = Vec::new();
        while slots.len() > 0
            invariant
                slots0.len() == k,
                forall|q: int| 0 <= q < k ==> (#[trigger] slots0[q]) is Some,
                slots@ == slots0.subrange(0, slots@.len() as int),
                rev@.len() + slots@.len() == k,
                forall|x: int| 0 <= x < rev@.len() ==> ((#[trigger] rev@[x])@.len() == slots0[k - 1 - x].unwrap()@.len() && forall|r: int| 0 <= r < (#[trigger] rev@[x])@.len() ==> *(#[trigger] rev@[x])@[r] == *slots0[k - 1 - x].unwrap()@[r] && *final((#[trigger] rev@[x])@[r]) == *final(slots0[k - 1 - x].unwrap()@[r])),
            decreases slots@.len(),
        {
            let x = slots.pop().unwrap();
            rev.push(x.unwrap());
        }
        let mut out: Vec<Vec<&mut T>> = Vec::new();
        while rev.len() > 0
            invariant
                slots0.len() == k,
                rev@.len() + out@.len() == k,
                forall|x: int| 0 <= x < rev@.len() ==> ((#[trigger] rev@[x])@.len() == slots0[k - 1 - x].unwrap()@.len() && forall|r: int| 0 <= r < (#[trigger] rev@[x])@.len() ==> *(#[trigger] rev@[x])@[r] == *slots0[k - 1 - x].unwrap()@[r] && *final((#[trigger] rev@[x])@[r]) == *final(slots0[k - 1 - x].unwrap()@[r])),
                forall|x: int| 0 <= x < out@.len() ==> ((#[trigger] out@[x])@.len() == slots0[x].unwrap()@.len() && forall|r: int| 0 <= r < (#[trigger] out@[x])@.len() ==> *(#[trigger] out@[x])@[r] == *slots0[x].unwrap()@[r] && *final((#[trigger] out@[x])@[r]) == *final(slots0[x].unwrap()@[r])),
            decreases rev@.len(),
        {
            let x = rev.pop().unwrap();
            out.push(x);
        }
        proof {
            assert forall|q: int| 0 <= q < k implies {
                let c1 = *final(refs0[pre.col_index(#[trigger] types@[q])]);
                &&& c1.tag() == cols[pre.col_index(types@[q])].tag()
                &&& c1.capacity() == cols[pre.col_index(types@[q])].capacity()
                &&& c1@.len() == n
                &&& out@[q]@.len() == n
                &&& forall|r: int| 0 <= r < n ==> c1@[r] == *final(out@[q]@[r])
            } by {
                assert(slots0[q] is Some);
                assert(idxs@[q] == pre.col_index(types@[q]));
            }
            assert forall|x: int| 0 <= x < ncols && !types@.contains(cols[x].tag()) implies *final(#[trigger] refs0[x]) == cols[x] by {}
        }
        out
    }


    /// After the columns of `types` are replaced by `vals`, each row holds
    /// `vals[j]` at its row as its component of type `types[j]`, and its
    /// other components as before.
    pub proof fn lemma_rows_columns_set(self, post: Self, types: Seq<ComponentType>, vals: Seq<Seq<T>>)
        requires
            self.columns_set(post, types, vals),
            self.wf(),
            types.no_duplicates(),
            forall|j: int| 0 <= j < types.len() ==> self.types().contains(#[trigger] types[j]),
            vals.len() == types.len(),
            forall|j: int| 0 <= j < types.len() ==> (#[trigger] vals[j]).len() == self.row_count(),
        ensures
            post.wf(),
            post.tags() == self.tags(),
            post.entities() == self.entities(),
            post.row_count() == self.row_count(),
            forall|r: int| 0 <= r < self.row_count() ==> (#[trigger] post.row(r)).dom() == self.row(r).dom(),
            forall|r: int, j: int| 0 <= r < self.row_count() && 0 <= j < types.len() ==> #[trigger] post.row(r)[types[j]]
                == vals[j][r],
            forall|r: int, t: ComponentType| 0 <= r < self.row_count() && self.types().contains(t) && !types.contains(t)
                ==> #[trigger] post.row(r)[t] == self.row(r)[t],
    {
        assert(post.tags() =~= self.tags());
        assert forall|x: int| 0 <= x < self.columns@.len() implies (#[trigger] post.columns@[x]).wf()
            && post.columns@[x]@.len() == self.entity_count by {
            if types.contains(self.columns@[x].tag()) {
                let j = choose|j: int| 0 <= j < types.len() && types[j] == self.columns@[x].tag();
                self.lemma_col_index(x);
                assert(self.col_index(types[j]) == x);
            }
        }
        assert forall|t: ComponentType| self.types().contains(t) implies #[trigger] post.column(t).len() == self.row_count() by {
            self.lemma_types(t);
            post.lemma_col_index(self.col_index(t));
            self.lemma_col_index(self.col_index(t));
        }
        assert forall|r: int, j: int| 0 <= r < self.row_count() && 0 <= j < types.len() implies #[trigger] post.row(r)[types[j]]
            == vals[j][r] by {
            self.lemma_types(types[j]);
            self.lemma_col_index(self.col_index(types[j]));
            post.lemma_col_index(self.col_index(types[j]));
        }
        assert forall|r: int, t: ComponentType| 0 <= r < self.row_count() && self.types().contains(t) && !types.contains(t)
            implies #[trigger] post.row(r)[t] == self.row(r)[t] by {
            self.lemma_types(t);
            self.lemma_col_index(self.col_index(t));
            post.lemma_col_index(self.col_index(t));
        }
        assert forall|r: int| 0 <= r < self.row_count() implies (#[trigger] post.row(r)).dom() == self.row(r).dom() by {
            assert(post.row(r).dom() =~= self.row(r).dom());
        }
    }

    /// The entity of each row, in row order.
    pub fn entity_ids(&self) -> (r: Vec<EntityId>)
        requires
            self.wf(),
        ensures
            r@ == self.entities(),
    {
        let mut r: Vec<EntityId> = Vec::new();
        let mut i: usize = 0;
        while i < self.entities.len()
            invariant
                i <= self.entities@.len(),
                r@ == self.entities@.subrange(0, i as int),
            decreases self.entities@.len() - i,
        {
            r.push(self.entities[i]);
            i += 1;
        }
        assert(r@ =~= self.entities@);
        r
    }

}

} // verus!
