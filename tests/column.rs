use aecs::component_vec::ComponentVec;
use aecs::ComponentType;

const T: ComponentType = ComponentType(7);

#[test]
fn capacity_grows_geometrically() {
    let mut cv: ComponentVec<u32> = ComponentVec::new_as(T);
    assert_eq!(cv.cap(), 0);
    let mut caps = Vec::new();
    for i in 0..9u32 {
        cv.push(T, i);
        caps.push(cv.cap());
    }
    assert_eq!(caps, vec![1, 2, 4, 4, 8, 8, 8, 8, 16]);
    assert_eq!(cv.len(), 9);
    assert_eq!(cv.as_slice(T), &[0, 1, 2, 3, 4, 5, 6, 7, 8]);
}

#[test]
fn tag_and_imitate() {
    let cv = ComponentVec::from(T, vec![1u8, 2, 3]);
    assert_eq!(cv.type_id(), T);
    assert!(cv.is_type(T));
    assert!(!cv.is_type(ComponentType(8)));
    assert_eq!(cv.as_slice(T), &[1, 2, 3]);
    assert_eq!(cv.cap(), 4);
    let im = cv.imitate();
    assert_eq!(im.len(), 0);
    assert_eq!(im.cap(), 0);
    assert_eq!(im.type_id(), T);
}

#[test]
fn pop_insert_remove() {
    let mut cv = ComponentVec::from(T, vec![10, 20, 30]);
    assert_eq!(cv.pop(T), Some(30));
    cv.insert(T, 0, 5);
    assert_eq!(cv.as_slice(T), &[5, 10, 20]);
    assert_eq!(cv.remove(T, 1), 10);
    assert_eq!(cv.as_slice(T), &[5, 20]);
    assert_eq!(cv.pop(T), Some(20));
    assert_eq!(cv.pop(T), Some(5));
    assert_eq!(cv.pop(T), None);
    assert_eq!(cv.cap(), 4);
}

#[test]
fn swap_remove_and_forget() {
    let mut cv = ComponentVec::from(T, vec![1, 2, 3, 4]);
    assert_eq!(cv.swap_remove(T, 0), 1);
    assert_eq!(cv.as_slice(T), &[4, 2, 3]);
    cv.swap_forget(1);
    assert_eq!(cv.as_slice(T), &[4, 3]);
    cv.swap_forget(1);
    assert_eq!(cv.as_slice(T), &[4]);
    assert_eq!(cv.cap(), 4);
}

#[test]
fn swap_to_tail_and_adopt() {
    let mut src = ComponentVec::from(T, vec![1, 2, 3]);
    let mut dst = ComponentVec::from(T, vec![9]);
    src.swap_to_tail(0);
    assert_eq!(src.as_slice(T), &[3, 2, 1]);
    dst.adopt_tail(&mut src);
    assert_eq!(src.as_slice(T), &[3, 2]);
    assert_eq!(dst.as_slice(T), &[9, 1]);
    src.swap_to_tail(1);
    assert_eq!(src.as_slice(T), &[3, 2]);
    let mut empty: ComponentVec<i32> = ComponentVec::new_as(T);
    dst.adopt_tail(&mut empty);
    assert_eq!(dst.as_slice(T), &[9, 1]);
}

#[test]
fn get_set_and_get_mut() {
    let mut cv = ComponentVec::from(T, vec![1, 2]);
    cv.set(0, 11);
    *cv.get_mut(1) = 12;
    assert_eq!(*cv.get(0), 11);
    assert_eq!(cv.as_slice(T), &[11, 12]);
}

#[test]
fn drain_and_into_iter() {
    let mut cv = ComponentVec::from(T, vec![1, 2, 3, 4]);
    let mut d = cv.drain(T);
    assert_eq!(cv.len(), 0);
    assert_eq!(cv.cap(), 4);
    assert_eq!(d.size_hint(), (4, Some(4)));
    assert_eq!(d.next(), Some(1));
    assert_eq!(d.next_back(), Some(4));
    assert_eq!(d.next(), Some(2));
    assert_eq!(d.next(), Some(3));
    assert_eq!(d.next(), None);
    assert_eq!(d.next_back(), None);
    let cv = ComponentVec::from(T, vec![5, 6, 7]);
    let mut it = cv.into_iter(T);
    assert_eq!(it.size_hint(), (3, Some(3)));
    assert_eq!(it.next_back(), Some(7));
    assert_eq!(it.next(), Some(5));
    assert_eq!(it.next(), Some(6));
    assert_eq!(it.next(), None);
}

#[test]
fn zero_sized_values() {
    let mut cv: ComponentVec<()> = ComponentVec::new_as(T);
    for _ in 0..3 {
        cv.push(T, ());
    }
    assert_eq!(cv.len(), 3);
    cv.swap_forget(0);
    assert_eq!(cv.len(), 2);
}

#[test]
fn iter_mut_borrows_each_value() {
    let mut cv = ComponentVec::from(T, vec![1, 2, 3]);
    for v in cv.iter_mut() {
        *v *= 10;
    }
    assert_eq!(cv.as_slice(T), &[10, 20, 30]);
    assert_eq!(cv.cap(), 4);
}
