use snapshot::snap::{apply, diff, Delta, DeltaError, Item, ItemKey, Snap, SnapError};
use snapshot::to_usize;

fn item(t: u16, id: u16, data: &[i32]) -> Item {
    Item::new(ItemKey::new(t, id), data.to_vec())
}

fn snap(items: Vec<Item>) -> Snap {
    Snap::from_items(items).unwrap()
}

fn contents(s: &Snap) -> Vec<(u16, u16, Vec<i32>)> {
    let mut out = Vec::new();
    for i in 0..s.len() {
        let it = s.item(i);
        out.push((it.key.type_id, it.key.id, it.data.clone()));
    }
    out
}

fn items(v: &[Item]) -> Vec<(u16, u16, Vec<i32>)> {
    v.iter().map(|it| (it.key.type_id, it.key.id, it.data.clone())).collect()
}

fn keys(v: &[ItemKey]) -> Vec<(u16, u16)> {
    v.iter().map(|k| (k.type_id, k.id)).collect()
}

#[test]
fn scenario_diff_and_apply() {
    let a = snap(vec![item(1, 1, &[5, 5])]);
    let b = snap(vec![item(1, 1, &[5, 9]), item(2, 1, &[1])]);
    let d = diff(&a, &b);
    assert_eq!(items(&d.added), vec![(2, 1, vec![1])]);
    assert!(d.removed.is_empty());
    assert_eq!(items(&d.updated), vec![(1, 1, vec![0, 4])]);
    let r = apply(&a, &d).unwrap();
    assert_eq!(contents(&r), contents(&b));
}

#[test]
fn round_trip_with_removals_and_wrapping() {
    let a = snap(vec![
        item(0, 3, &[1]),
        item(1, 1, &[i32::MAX, 0]),
        item(1, 2, &[7]),
        item(4, 0, &[2, 2, 2]),
    ]);
    let b = snap(vec![
        item(1, 1, &[i32::MIN, 0]),
        item(1, 2, &[7]),
        item(3, 9, &[8]),
        item(4, 0, &[2, -2, 2]),
        item(5, 5, &[]),
    ]);
    let d = diff(&a, &b);
    assert_eq!(keys(&d.removed), vec![(0, 3)]);
    assert_eq!(items(&d.added), vec![(3, 9, vec![8]), (5, 5, vec![])]);
    assert_eq!(items(&d.updated), vec![(1, 1, vec![1, 0]), (4, 0, vec![0, -4, 0])]);
    let r = apply(&a, &d).unwrap();
    assert_eq!(contents(&r), contents(&b));
    let back = apply(&b, &diff(&b, &a)).unwrap();
    assert_eq!(contents(&back), contents(&a));
}

#[test]
fn empty_base_adds_everything() {
    let s = snap(vec![item(1, 1, &[1, 2]), item(2, 7, &[3])]);
    let empty = Snap::empty();
    let d = diff(&empty, &s);
    assert_eq!(items(&d.added), contents(&s));
    assert!(d.removed.is_empty());
    assert!(d.updated.is_empty());
    let r = apply(&empty, &d).unwrap();
    assert_eq!(contents(&r), contents(&s));
}

#[test]
fn diff_of_snap_with_itself_is_empty() {
    let s = snap(vec![item(1, 1, &[1, 2]), item(2, 7, &[3]), item(9, 0, &[])]);
    let d = diff(&s, &s);
    assert!(d.added.is_empty());
    assert!(d.removed.is_empty());
    assert!(d.updated.is_empty());
}

#[test]
fn unchanged_item_is_not_updated() {
    let a = snap(vec![item(1, 1, &[4, 4]), item(1, 2, &[6])]);
    let b = snap(vec![item(1, 1, &[4, 4]), item(1, 2, &[7])]);
    let d = diff(&a, &b);
    assert_eq!(items(&d.updated), vec![(1, 2, vec![1])]);
    assert!(d.added.is_empty());
    assert!(d.removed.is_empty());
}

#[test]
fn diff_to_empty_removes_everything() {
    let a = snap(vec![item(1, 1, &[4]), item(3, 2, &[6])]);
    let d = diff(&a, &Snap::empty());
    assert_eq!(keys(&d.removed), vec![(1, 1), (3, 2)]);
    let r = apply(&a, &d).unwrap();
    assert_eq!(r.len(), 0);
}

#[test]
fn from_items_rejects_unsorted_and_duplicate_keys() {
    let e = Snap::from_items(vec![item(2, 1, &[1]), item(1, 1, &[1])]).unwrap_err();
    assert_eq!(e, SnapError::UnsortedItems);
    let e = Snap::from_items(vec![item(1, 1, &[1]), item(1, 1, &[2])]).unwrap_err();
    assert_eq!(e, SnapError::UnsortedItems);
    assert!(Snap::from_items(vec![item(1, 9, &[1]), item(2, 0, &[2])]).is_ok());
}

#[test]
fn apply_rejects_removed_key_absent_from_base() {
    let base = snap(vec![item(1, 1, &[1])]);
    let d = Delta { added: vec![], removed: vec![ItemKey::new(1, 2)], updated: vec![] };
    assert_eq!(apply(&base, &d).unwrap_err(), DeltaError::InconsistentDelta);
}

#[test]
fn apply_rejects_updated_key_absent_from_base() {
    let base = snap(vec![item(1, 1, &[1])]);
    let d = Delta { added: vec![], removed: vec![], updated: vec![item(0, 1, &[1])] };
    assert_eq!(apply(&base, &d).unwrap_err(), DeltaError::InconsistentDelta);
}

#[test]
fn apply_rejects_added_key_present_in_base() {
    let base = snap(vec![item(1, 1, &[1])]);
    let d = Delta { added: vec![item(1, 1, &[2])], removed: vec![], updated: vec![] };
    assert_eq!(apply(&base, &d).unwrap_err(), DeltaError::InconsistentDelta);
}

#[test]
fn apply_rejects_arity_mismatch() {
    let base = snap(vec![item(1, 1, &[1, 2])]);
    let d = Delta { added: vec![], removed: vec![], updated: vec![item(1, 1, &[1])] };
    assert_eq!(apply(&base, &d).unwrap_err(), DeltaError::InconsistentDelta);
}

#[test]
fn apply_rejects_unsorted_delta() {
    let base = Snap::empty();
    let d = Delta { added: vec![item(2, 1, &[2]), item(1, 1, &[1])], removed: vec![], updated: vec![] };
    assert_eq!(apply(&base, &d).unwrap_err(), DeltaError::InconsistentDelta);
}

#[test]
fn apply_rejects_key_both_removed_and_updated() {
    let base = snap(vec![item(1, 1, &[1])]);
    let d = Delta { added: vec![], removed: vec![ItemKey::new(1, 1)], updated: vec![item(1, 1, &[1])] };
    assert_eq!(apply(&base, &d).unwrap_err(), DeltaError::InconsistentDelta);
}

#[test]
fn apply_adds_word_differences_wrapping() {
    let base = snap(vec![item(1, 1, &[i32::MAX, -1])]);
    let d = Delta { added: vec![], removed: vec![], updated: vec![item(1, 1, &[1, 1])] };
    let r = apply(&base, &d).unwrap();
    assert_eq!(contents(&r), vec![(1, 1, vec![i32::MIN, 0])]);
}

#[test]
fn key_order_is_type_then_instance() {
    assert!(ItemKey::new(1, 9).less_than(&ItemKey::new(2, 0)));
    assert!(ItemKey::new(1, 1).less_than(&ItemKey::new(1, 2)));
    assert!(!ItemKey::new(1, 2).less_than(&ItemKey::new(1, 2)));
    assert!(!ItemKey::new(2, 0).less_than(&ItemKey::new(1, 9)));
}

#[test]
fn to_usize_widens_both_ends() {
    let r = to_usize(3..u32::MAX);
    assert_eq!(r, 3usize..(u32::MAX as usize));
}
