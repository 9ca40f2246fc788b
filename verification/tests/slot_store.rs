use leo_synthesizer::slot_store::OptionalVec;

#[test]
fn empty_store_has_no_values() {
    let store: OptionalVec<u64> = OptionalVec::with_capacity(8);
    assert_eq!(store.len(), 0);
    assert_eq!(store.next_idx(), 0);
    assert!(store.iter().is_empty());
}

#[test]
fn insert_appends_when_there_is_no_hole() {
    let mut store = OptionalVec::with_capacity(0);
    assert_eq!(store.insert(10u64), 0);
    assert_eq!(store.insert(20u64), 1);
    assert_eq!(store.insert(30u64), 2);
    assert_eq!(store.len(), 3);
    assert_eq!(store.next_idx(), 3);
    assert_eq!(*store.index(0), 10);
    assert_eq!(*store.index(1), 20);
    assert_eq!(*store.index(2), 30);
}

#[test]
fn remove_returns_the_value_and_leaves_a_hole() {
    let mut store = OptionalVec::with_capacity(4);
    store.insert(10u64);
    store.insert(20u64);
    store.insert(30u64);
    assert_eq!(store.remove(1), 20);
    assert_eq!(store.len(), 2);
    assert_eq!(*store.index(0), 10);
    assert_eq!(*store.index(2), 30);
    assert_eq!(store.iter(), vec![&10, &30]);
}

#[test]
fn insert_after_remove_reuses_the_freed_index() {
    let mut store = OptionalVec::with_capacity(4);
    store.insert(10u64);
    store.insert(20u64);
    store.insert(30u64);
    store.remove(1);
    assert_eq!(store.next_idx(), 1);
    assert_eq!(store.insert(40), 1);
    assert_eq!(store.len(), 3);
    assert_eq!(store.next_idx(), 3);
    assert_eq!(store.iter(), vec![&10, &40, &30]);
}

#[test]
fn holes_are_reused_last_freed_first() {
    let mut store = OptionalVec::with_capacity(0);
    for v in 0..6u64 {
        store.insert(v);
    }
    store.remove(4);
    store.remove(1);
    store.remove(3);
    assert_eq!(store.len(), 3);
    assert_eq!(store.next_idx(), 3);
    assert_eq!(store.insert(100), 3);
    assert_eq!(store.next_idx(), 1);
    assert_eq!(store.insert(101), 1);
    assert_eq!(store.insert(102), 4);
    assert_eq!(store.insert(103), 6);
    assert_eq!(store.len(), 7);
    assert_eq!(store.iter(), vec![&0, &101, &2, &100, &102, &5, &103]);
}

#[test]
fn next_idx_does_not_change_the_store() {
    let mut store = OptionalVec::with_capacity(0);
    store.insert(1u64);
    store.insert(2u64);
    store.remove(0);
    assert_eq!(store.next_idx(), 0);
    assert_eq!(store.next_idx(), 0);
    assert_eq!(store.len(), 1);
    assert_eq!(store.iter(), vec![&2]);
}

#[test]
fn iter_can_be_taken_again() {
    let mut store = OptionalVec::with_capacity(0);
    store.insert(7u64);
    store.insert(8u64);
    store.insert(9u64);
    store.remove(0);
    let first: Vec<u64> = store.iter().into_iter().copied().collect();
    let second: Vec<u64> = store.iter().into_iter().copied().collect();
    assert_eq!(first, vec![8, 9]);
    assert_eq!(first, second);
}

#[test]
fn index_mut_overwrites_in_place() {
    let mut store = OptionalVec::with_capacity(0);
    store.insert(vec![1u64]);
    store.insert(vec![2u64]);
    store.index_mut(1).push(3);
    *store.index_mut(0) = vec![9, 9];
    assert_eq!(*store.index(0), vec![9, 9]);
    assert_eq!(*store.index(1), vec![2, 3]);
    assert_eq!(store.len(), 2);
    assert_eq!(store.next_idx(), 2);
}

#[test]
fn removing_everything_leaves_length_zero() {
    let mut store = OptionalVec::with_capacity(0);
    for v in 0..4u64 {
        store.insert(v);
    }
    for i in 0..4usize {
        assert_eq!(store.remove(i), i as u64);
    }
    assert_eq!(store.len(), 0);
    assert!(store.iter().is_empty());
    assert_eq!(store.insert(50), 3);
    assert_eq!(store.insert(51), 2);
    assert_eq!(store.insert(52), 1);
    assert_eq!(store.insert(53), 0);
    assert_eq!(store.insert(54), 4);
}

#[test]
fn random_inserts_and_removes_agree_with_a_plain_model() {
    let mut store = OptionalVec::with_capacity(0);
    let mut cells: Vec<Option<u64>> = Vec::new();
    let mut holes: Vec<usize> = Vec::new();
    let mut state: u64 = 0x2545_f491_4f6c_dd1d;
    for round in 0..2000u64 {
        state = state.wrapping_mul(6364136223846793005).wrapping_add(1442695040888963407);
        let pick = (state >> 33) as usize;
        let occupied: Vec<usize> = (0..cells.len()).filter(|i| cells[*i].is_some()).collect();
        if pick % 3 == 0 && !occupied.is_empty() {
            let idx = occupied[(pick / 3) % occupied.len()];
            let expected = cells[idx].take().unwrap();
            holes.push(idx);
            assert_eq!(store.remove(idx), expected);
            assert_eq!(store.next_idx(), idx);
        } else {
            let expected = match holes.pop() {
                Some(idx) => {
                    cells[idx] = Some(round);
                    idx
                }
                None => {
                    cells.push(Some(round));
                    cells.len() - 1
                }
            };
            assert_eq!(store.next_idx(), expected);
            assert_eq!(store.insert(round), expected);
        }
        let present: Vec<u64> = cells.iter().filter_map(|c| *c).collect();
        assert_eq!(store.len(), present.len());
        let seen: Vec<u64> = store.iter().into_iter().copied().collect();
        assert_eq!(seen, present);
    }
}
