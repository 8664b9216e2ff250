//! A column: a growable buffer of component values of one component type.
use vstd::prelude::*;

use crate::ComponentType;

verus! {

/// The capacity a column moves to when it is full: 0, 1, 2, 4, ...
pub open spec fn grown_capacity(cap: nat) -> nat {
    if cap == 0 {
        1
    } else if cap <= usize::MAX / 2 {
        2 * cap
    } else {
        usize::MAX as nat
    }
}

/// The sequence `s` after its element at `i` is replaced by its last element
/// and the last slot is removed.
pub open spec fn swap_removed<A>(s: Seq<A>, i: int) -> Seq<A> {
    s.update(i, s.last()).drop_last()
}

/// A buffer of values of one component type, tagged with that type.
pub struct ComponentVec<T> {
    data: Vec<T>,
    cap: usize,
    tag: ComponentType,
}

impl<T> View for ComponentVec<T> {
    type V = Seq<T>;

    closed spec fn view(&self) -> Seq<T> {
        self.data@
    }
}

impl<T> ComponentVec<T> {
    /// The component type that every value of the column belongs to.
    pub closed spec fn tag(&self) -> ComponentType {
        self.tag
    }

    /// The number of slots reserved for values.
    pub closed spec fn capacity(&self) -> nat {
        self.cap as nat
    }

    /// Every value stands in a reserved slot.
    pub open spec fn wf(&self) -> bool {
        self@.len() <= self.capacity()
    }

    pub fn len(&self) -> (r: usize)
        ensures
            r == self@.len(),
    {
        self.data.len()
    }

    pub fn cap(&self) -> (r: usize)
        ensures
            r == self.capacity(),
    {
        self.cap
    }

    pub fn type_id(&self) -> (r: ComponentType)
        ensures
            r == self.tag(),
    {
        self.tag
    }

    pub fn is_type(&self, ty: ComponentType) -> (r: bool)
        ensures
            r == (self.tag() == ty),
    {
        self.tag == ty
    }

    /// An empty column tagged `ty`, with nothing reserved.
    pub fn new_as(ty: ComponentType) -> (r: Self)
        ensures
            r.wf(),
            r@ == Seq::<T>::empty(),
            r.tag() == ty,
            r.capacity() == 0,
    {
        ComponentVec { data: Vec::new(), cap: 0, tag: ty }
    }

    /// An empty column with the same tag as `self`, with nothing reserved.
    pub fn imitate(&self) -> (r: Self)
        ensures
            r.wf(),
            r@ == Seq::<T>::empty(),
            r.tag() == self.tag(),
            r.capacity() == 0,
    {
        ComponentVec { data: Vec::new(), cap: 0, tag: self.tag }
    }

    fn grow(&mut self)
        requires
            old(self).wf(),
        ensures
            final(self).wf(),
            final(self)@ == old(self)@,
            final(self).tag() == old(self).tag(),
            final(self).capacity() == grown_capacity(old(self).capacity()),
    {
        let new_cap: usize = if self.cap == 0 {
            1
        } else if self.cap <= usize::MAX / 2 {
            2 * self.cap
        } else {
            usize::MAX
        };
        self.data.reserve(new_cap - self.data.len());
        self.cap = new_cap;
    }

    /// Appends `elem`, growing the reserved slots when they are all in use.
    pub fn push(&mut self, ty: ComponentType, elem: T)
        requires
            old(self).wf(),
            old(self).tag() == ty,
        ensures
            final(self).wf(),
            final(self)@ == old(self)@.push(elem),
            final(self).tag() == old(self).tag(),
            final(self).capacity() == if old(self)@.len() < old(self).capacity() {
                old(self).capacity()
            } else {
                grown_capacity(old(self).capacity())
            },
    {
        if self.data.len() == self.cap {
            self.grow();
        }
        self.data.push(elem);
        assert(self.data@.len() == self.data.len());
    }

    /// A column tagged `ty` holding the values of `items`, pushed in order.
    pub fn from(ty: ComponentType, items: Vec<T>) -> (r: Self)
        ensures
            r.wf(),
            r@ == items@,
            r.tag() == ty,
    {
        let ghost orig = items@;
        let mut items = items;
        let mut rev: Vec<T> = Vec::new();
        while items.len() > 0
            invariant
                items@ == orig.subrange(0, items@.len() as int),
                rev@.len() + items@.len() == orig.len(),
                forall|i: int| 0 <= i < rev@.len() ==> #[trigger] rev@[i] == orig[orig.len() - 1 - i],
            decreases items.len(),
        {
            let x = items.pop().unwrap();
            rev.push(x);
        }
        let mut cv = ComponentVec::new_as(ty);
        while rev.len() > 0
            invariant
                cv.wf(),
                cv.tag() == ty,
                cv@ == orig.subrange(0, cv@.len() as int),
                rev@.len() + cv@.len() == orig.len(),
                forall|i: int| 0 <= i < rev@.len() ==> #[trigger] rev@[i] == orig[orig.len() - 1 - i],
            decreases rev.len(),
        {
            let x = rev.pop().unwrap();
            cv.push(ty, x);
        }
        assert(cv@ =~= orig);
        cv
    }


    /// Takes the last value out, if any.
    pub fn pop(&mut self, ty: ComponentType) -> (r: Option<T>)
        requires
            old(self).wf(),
            old(self).tag() == ty,
        ensures
            final(self).wf(),
            final(self).tag() == old(self).tag(),
            final(self).capacity() == old(self).capacity(),
            old(self)@.len() == 0 ==> r is None && final(self)@ == old(self)@,
            old(self)@.len() > 0 ==> r == Some(old(self)@.last()) && final(self)@
                == old(self)@.drop_last(),
    {
        self.data.pop()
    }

    /// Inserts `elem` at `index`, shifting the later values up by one.
    pub fn insert(&mut self, ty: ComponentType, index: usize, elem: T)
        requires
            old(self).wf(),
            old(self).tag() == ty,
            index < old(self)@.len(),
        ensures
            final(self).wf(),
            final(self)@ == old(self)@.insert(index as int, elem),
            final(self).tag() == old(self).tag(),
            final(self).capacity() == if old(self)@.len() < old(self).capacity() {
                old(self).capacity()
            } else {
                grown_capacity(old(self).capacity())
            },
    {
        if self.data.len() == self.cap {
            self.grow();
        }
        self.data.insert(index, elem);
        assert(self.data@.len() == self.data.len());
    }

    /// Takes out the value at `index`, shifting the later values down by one.
    pub fn remove(&mut self, ty: ComponentType, index: usize) -> (r: T)
        requires
            old(self).wf(),
            old(self).tag() == ty,
            index < old(self)@.len(),
        ensures
            final(self).wf(),
            r == old(self)@[index as int],
            final(self)@ == old(self)@.remove(index as int),
            final(self).tag() == old(self).tag(),
            final(self).capacity() == old(self).capacity(),
    {
        self.data.remove(index)
    }

    /// Takes out the value at `index`; the last value takes its slot.
    pub fn swap_remove(&mut self, ty: ComponentType, index: usize) -> (r: T)
        requires
            old(self).wf(),
            old(self).tag() == ty,
            index < old(self)@.len(),
        ensures
            final(self).wf(),
            r == old(self)@[index as int],
            final(self)@ == swap_removed(old(self)@, index as int),
            final(self).tag() == old(self).tag(),
            final(self).capacity() == old(self).capacity(),
    {
        self.data.swap_remove(index)
    }

    /// Drops the value at `index`; the last value takes its slot.
    pub fn swap_forget(&mut self, index: usize)
        requires
            old(self).wf(),
            index < old(self)@.len(),
        ensures
            final(self).wf(),
            final(self)@ == swap_removed(old(self)@, index as int),
            final(self).tag() == old(self).tag(),
            final(self).capacity() == old(self).capacity(),
    {
        let _dropped = self.data.swap_remove(index);
    }

    /// The values, in order.
    pub fn as_slice(&self, ty: ComponentType) -> (r: &[T])
        requires
            self.tag() == ty,
        ensures
            r@ == self@,
    {
        self.data.as_slice()
    }

    /// The value at `index`.
    pub fn get(&self, index: usize) -> (r: &T)
        requires
            index < self@.len(),
        ensures
            *r == self@[index as int],
    {
        &self.data[index]
    }

    /// The value at `index`, for writing.
    pub fn get_mut(&mut self, index: usize) -> (r: &mut T)
        requires
            index < old(self)@.len(),
        ensures
            *r == old(self)@[index as int],
            final(self)@ == old(self)@.update(index as int, *final(r)),
            final(self).tag() == old(self).tag(),
            final(self).capacity() == old(self).capacity(),
    {
        &mut self.data[index]
    }

    /// Replaces the value at `index` by `value`.
    pub fn set(&mut self, index: usize, value: T)
        requires
            index < old(self)@.len(),
        ensures
            final(self)@ == old(self)@.update(index as int, value),
            final(self).tag() == old(self).tag(),
            final(self).capacity() == old(self).capacity(),
    {
        self.data.set(index, value);
    }

    /// Exchanges the value at `index` with the last value.
    pub fn swap_to_tail(&mut self, index: usize)
        requires
            old(self).wf(),
            index < old(self)@.len(),
        ensures
            final(self).wf(),
            final(self)@ == old(self)@.update(index as int, old(self)@.last()).update(
                old(self)@.len() - 1,
                old(self)@[index as int],
            ),
            final(self).tag() == old(self).tag(),
            final(self).capacity() == old(self).capacity(),
    {
        let ghost s = self.data@;
        if index != self.data.len() - 1 {
            let x = self.data.swap_remove(index);
            self.data.push(x);
        }
        assert(self.data@ =~= s.update(index as int, s.last()).update(s.len() - 1, s[index as int]));
    }

    /// Moves the last value of `src` to the end of `self`; does nothing when
    /// `src` is empty.
    pub fn adopt_tail(&mut self, src: &mut Self)
        requires
            old(self).wf(),
            old(src).wf(),
            old(self).tag() == old(src).tag(),
        ensures
            final(self).wf(),
            final(src).wf(),
            final(self).tag() == old(self).tag(),
            final(src).tag() == old(src).tag(),
            final(src).capacity() == old(src).capacity(),
            old(src)@.len() == 0 ==> final(self)@ == old(self)@ && final(src)@ == old(src)@,
            old(src)@.len() > 0 ==> final(self)@ == old(self)@.push(old(src)@.last())
                && final(src)@ == old(src)@.drop_last(),
    {
        if let Some(x) = src.data.pop() {
            self.push(src.tag, x);
        }
    }

    /// Takes every value out, in order, leaving the column empty.
    pub fn drain(&mut self, ty: ComponentType) -> (r: Drain<T>)
        requires
            old(self).wf(),
            old(self).tag() == ty,
        ensures
            final(self).wf(),
            r@ == old(self)@,
            final(self)@ == Seq::<T>::empty(),
            final(self).tag() == old(self).tag(),
            final(self).capacity() == old(self).capacity(),
    {
        Drain { rev: reversed(&mut self.data) }
    }

    /// Consumes the column, handing out its values in order.
    pub fn into_iter(self, ty: ComponentType) -> (r: IntoIter<T>)
        requires
            self.tag() == ty,
        ensures
            r@ == self@,
    {
        let mut data = self.data;
        IntoIter { rev: reversed(&mut data) }
    }

    /// A mutable borrow of each value, in order.
    pub fn iter_mut(&mut self) -> (r: Vec<&mut T>)
        requires
            old(self).wf(),
        ensures
            r@.len() == old(self)@.len(),
            forall|i: int| 0 <= i < r@.len() ==> *r@[i] == old(self)@[i],
            final(self).tag() == old(self).tag(),
            final(self).capacity() == old(self).capacity(),
            final(self)@.len() == old(self)@.len(),
            forall|i: int| 0 <= i < r@.len() ==> final(self)@[i] == *final(r@[i]),
    {
        borrow_each(&mut self.data)
    }
}

/// A mutable borrow of each element of `v`, in order.
pub fn borrow_each<X>(v: &mut Vec<X>) -> (r: Vec<&mut X>)
    ensures
        r@.len() == old(v)@.len(),
        forall|i: int| 0 <= i < r@.len() ==> *r@[i] == old(v)@[i],
        final(v)@.len() == old(v)@.len(),
        forall|i: int| 0 <= i < r@.len() ==> final(v)@[i] == *final(r@[i]),
{
    let ghost orig = v@;
    let mut rest: &mut [X] = v.as_mut_slice();
    let ghost whole = rest;
    let mut out: Vec<&mut X> = Vec::new();
    while rest.len() > 0
        invariant
            out@.len() + rest@.len() == orig.len(),
            forall|i: int| 0 <= i < out@.len() ==> *out@[i] == orig[i],
            rest@ == orig.subrange(out@.len() as int, orig.len() as int),
            final(whole)@ == Seq::new(out@.len(), |i: int| *final(out@[i])) + final(rest)@,
        decreases rest@.len(),
    {
        let (head, tail) = rest.split_at_mut(1);
        let h = head.first_mut().unwrap();
        out.push(h);
        rest = tail;
    }
    out
}

/// The sequence that `rev` holds, read from its end.
pub open spec fn backwards<A>(rev: Seq<A>) -> Seq<A> {
    Seq::new(rev.len(), |i: int| rev[rev.len() - 1 - i])
}

/// Empties `v` into a vector that holds its values in reverse order.
fn reversed<T>(v: &mut Vec<T>) -> (r: Vec<T>)
    ensures
        backwards(r@) == old(v)@,
        final(v)@ == Seq::<T>::empty(),
{
    let ghost orig = v@;
    let mut rev: Vec<T> = Vec::new();
    while v.len() > 0
        invariant
            v@ == orig.subrange(0, v@.len() as int),
            rev@.len() + v@.len() == orig.len(),
            forall|i: int| 0 <= i < rev@.len() ==> #[trigger] rev@[i] == orig[orig.len() - 1 - i],
        decreases v.len(),
    {
        let x = v.pop().unwrap();
        rev.push(x);
    }
    assert(backwards(rev@) =~= orig);
    assert(v@ =~= Seq::<T>::empty());
    rev
}

/// Takes the first value of the sequence `backwards(rev@)`.
fn take_front<T>(rev: &mut Vec<T>) -> (r: Option<T>)
    ensures
        backwards(old(rev)@).len() == 0 ==> r is None && final(rev)@ == old(rev)@,
        backwards(old(rev)@).len() > 0 ==> r == Some(backwards(old(rev)@)[0]) && backwards(
            final(rev)@,
        ) == backwards(old(rev)@).drop_first(),
{
    let r = rev.pop();
    if r.is_some() {
        assert(backwards(rev@) =~= backwards(old(rev)@).drop_first());
    }
    r
}

/// Takes the last value of the sequence `backwards(rev@)`.
fn take_back<T>(rev: &mut Vec<T>) -> (r: Option<T>)
    ensures
        backwards(old(rev)@).len() == 0 ==> r is None && final(rev)@ == old(rev)@,
        backwards(old(rev)@).len() > 0 ==> r == Some(backwards(old(rev)@).last()) && backwards(
            final(rev)@,
        ) == backwards(old(rev)@).drop_last(),
{
    if rev.len() == 0 {
        None
    } else {
        let r = rev.remove(0);
        assert(backwards(rev@) =~= backwards(old(rev)@).drop_last());
        Some(r)
    }
}

/// The values taken out of a column by `ComponentVec::drain`, handed out in
/// order from either end.
pub struct Drain<T> {
    rev: Vec<T>,
}

/// The values of a consumed column, handed out in order from either end.
pub struct IntoIter<T> {
    rev: Vec<T>,
}

impl<T> View for Drain<T> {
    type V = Seq<T>;

    closed spec fn view(&self) -> Seq<T> {
        backwards(self.rev@)
    }
}

impl<T> View for IntoIter<T> {
    type V = Seq<T>;

    closed spec fn view(&self) -> Seq<T> {
        backwards(self.rev@)
    }
}

impl<T> Drain<T> {
    /// The first value left, taken out.
    pub fn next(&mut self) -> (r: Option<T>)
        ensures
            old(self)@.len() == 0 ==> r is None && final(self)@ == old(self)@,
            old(self)@.len() > 0 ==> r == Some(old(self)@[0]) && final(self)@ == old(
                self,
            )@.drop_first(),
    {
        take_front(&mut self.rev)
    }

    /// The last value left, taken out.
    pub fn next_back(&mut self) -> (r: Option<T>)
        ensures
            old(self)@.len() == 0 ==> r is None && final(self)@ == old(self)@,
            old(self)@.len() > 0 ==> r == Some(old(self)@.last()) && final(self)@ == old(
                self,
            )@.drop_last(),
    {
        take_back(&mut self.rev)
    }

    /// How many values are left, as a lower and an upper bound.
    pub fn size_hint(&self) -> (r: (usize, Option<usize>))
        ensures
            r.0 == self@.len(),
            r.1 == Some(r.0),
    {
        (self.rev.len(), Some(self.rev.len()))
    }
}

impl<T> IntoIter<T> {
    /// The first value left, taken out.
    pub fn next(&mut self) -> (r: Option<T>)
        ensures
            old(self)@.len() == 0 ==> r is None && final(self)@ == old(self)@,
            old(self)@.len() > 0 ==> r == Some(old(self)@[0]) && final(self)@ == old(
                self,
            )@.drop_first(),
    {
        take_front(&mut self.rev)
    }

    /// The last value left, taken out.
    pub fn next_back(&mut self) -> (r: Option<T>)
        ensures
            old(self)@.len() == 0 ==> r is None && final(self)@ == old(self)@,
            old(self)@.len() > 0 ==> r == Some(old(self)@.last()) && final(self)@ == old(
                self,
            )@.drop_last(),
    {
        take_back(&mut self.rev)
    }

    /// How many values are left, as a lower and an upper bound.
    pub fn size_hint(&self) -> (r: (usize, Option<usize>))
        ensures
            r.0 == self@.len(),
            r.1 == Some(r.0),
    {
        (self.rev.len(), Some(self.rev.len()))
    }
}

} // verus!
