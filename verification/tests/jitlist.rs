//! The container exercised end to end: the ported removal scenarios, the
//! documented bounds and error behaviour, and the fast path.

use jitlist::JITList;
use jitlist::ListError;

/// test removing one element
#[test]
fn remove_one() {
    let mut jit_list = JITList::new(vec![1, 2, 3, 4, 5]);
    jit_list.remove(1);

    let expected_result = [1, 3, 4, 5];
    for (i, j) in jit_list
        .into_vec()
        .unwrap()
        .into_iter()
        .zip(expected_result.into_iter())
    {
        assert_eq!(i, j);
    }
}

/// test removing two elements
#[test]
fn remove_two() {
    let mut jit_list = JITList::new(vec![1, 2, 3, 4, 5]);
    jit_list.remove(1);
    jit_list.remove(1);

    let expected_result = [1, 4, 5];
    for (i, j) in jit_list
        .into_vec()
        .unwrap()
        .into_iter()
        .zip(expected_result.into_iter())
    {
        assert_eq!(i, j);
    }
}

/// test removing three elements
#[test]
fn remove_three() {
    let mut jit_list = JITList::new(vec![1, 2, 3, 4, 5]);
    jit_list.remove(1);
    jit_list.remove(1);
    jit_list.remove(2);

    let expected_result = [1, 4];
    for (i, j) in jit_list
        .into_vec()
        .unwrap()
        .into_iter()
        .zip(expected_result.into_iter())
    {
        assert_eq!(i, j);
    }
}

#[test]
fn scenario_one_removal_length_and_order() {
    let mut l = JITList::new(vec![1, 2, 3, 4, 5]);
    l.remove(1);
    assert_eq!(l.len(), 4);
    assert_eq!(l.into_vec().unwrap(), vec![1, 3, 4, 5]);
}

#[test]
fn scenario_two_removals_length_and_order() {
    let mut l = JITList::new(vec![1, 2, 3, 4, 5]);
    l.remove(1);
    l.remove(1);
    assert_eq!(l.len(), 3);
    assert_eq!(l.into_vec().unwrap(), vec![1, 4, 5]);
}

#[test]
fn scenario_three_removals_length_and_order() {
    let mut l = JITList::new(vec![1, 2, 3, 4, 5]);
    l.remove(1);
    l.remove(1);
    l.remove(2);
    assert_eq!(l.len(), 2);
    assert_eq!(l.into_vec().unwrap(), vec![1, 4]);
}

#[test]
fn scenario_remove_zero_then_get_zero() {
    let mut l = JITList::new(vec![1, 2, 3, 4, 5]);
    l.remove(0);
    assert_eq!(*l.get(0).unwrap(), 2);
}

#[test]
fn scenario_remove_at_length_leaves_state() {
    let mut l = JITList::new(vec![1, 2, 3, 4, 5]);
    assert_eq!(l.try_remove(5), Err(ListError::OutOfBounds));
    assert_eq!(l.len(), 5);
    assert_eq!(l.into_vec().unwrap(), vec![1, 2, 3, 4, 5]);
}

#[test]
fn length_tracks_removals() {
    let mut l = JITList::new(vec![10, 20, 30, 40, 50, 60]);
    assert_eq!(l.len(), 6);
    assert!(!l.is_empty());
    l.remove(5);
    assert_eq!(l.len(), 5);
    l.remove(0);
    assert_eq!(l.len(), 4);
    l.remove(2);
    assert_eq!(l.len(), 3);
}

#[test]
fn bounds_rejected_at_and_past_length() {
    let mut l = JITList::new(vec![7, 8, 9]);
    assert_eq!(l.get(3).map(|v| *v), Err(ListError::OutOfBounds));
    assert_eq!(l.get(4).map(|v| *v), Err(ListError::OutOfBounds));
    assert_eq!(l.set(3, 0), Err(ListError::OutOfBounds));
    assert_eq!(l.set(usize::MAX, 0), Err(ListError::OutOfBounds));
    assert_eq!(l.try_remove(3), Err(ListError::OutOfBounds));
    assert_eq!(l.try_remove(usize::MAX), Err(ListError::OutOfBounds));
    assert_eq!(l.len(), 3);
}

#[test]
fn bounds_rejected_on_empty() {
    let mut l: JITList<u8> = JITList::new(Vec::new());
    assert_eq!(l.len(), 0);
    assert!(l.is_empty());
    assert_eq!(l.get(0).map(|v| *v), Err(ListError::OutOfBounds));
    assert_eq!(l.set(0, 1), Err(ListError::OutOfBounds));
    assert_eq!(l.try_remove(0), Err(ListError::OutOfBounds));
    assert_eq!(l.into_vec().unwrap(), Vec::<u8>::new());
}

#[test]
fn fresh_container_reads_identically() {
    let original = vec![3, 1, 4, 1, 5, 9, 2, 6];
    let l = JITList::new(original.clone());
    for (i, x) in original.iter().enumerate() {
        assert_eq!(l.get_real_index(i), i);
        assert_eq!(l.get(i).unwrap(), x);
    }
    assert_eq!(l.into_vec().unwrap(), original);
}

#[test]
fn translation_skips_removed_slot() {
    let mut l = JITList::new(vec![10, 20, 30, 40, 50]);
    l.remove(2);
    assert_eq!(l.get_real_index(2), 3);
    assert_eq!(l.get_real_index(3), 4);
    assert_eq!(*l.get(0).unwrap(), 10);
    assert_eq!(*l.get(1).unwrap(), 20);
    assert_eq!(*l.get(2).unwrap(), 40);
    assert_eq!(*l.get(3).unwrap(), 50);
}

#[test]
fn set_writes_through_the_translation() {
    let mut l = JITList::new(vec![1, 2, 3, 4, 5]);
    l.remove(1);
    assert_eq!(l.set(1, 99), Ok(()));
    assert_eq!(*l.get(1).unwrap(), 99);
    assert_eq!(l.into_vec().unwrap(), vec![1, 99, 4, 5]);
}

#[test]
fn inconsistent_removal_refuses_and_poisons() {
    let mut l = JITList::new(vec![1, 2, 3, 4, 5]);
    assert_eq!(l.try_remove(3), Ok(()));
    assert_eq!(l.try_remove(0), Ok(()));
    // The routine maps logical 2 onto physical 3, which is already removed.
    assert_eq!(l.try_remove(2), Err(ListError::Inconsistent));
    assert_eq!(l.len(), 3);
    assert_eq!(l.get(0).map(|v| *v), Err(ListError::Poisoned));
    assert_eq!(l.set(0, 9), Err(ListError::Poisoned));
    assert_eq!(l.try_remove(0), Err(ListError::Poisoned));
    assert_eq!(l.into_vec(), Err(ListError::Poisoned));
}

#[test]
fn removal_past_the_routine_domain_overflows() {
    let n: usize = 0x8000_0002;
    let mut l = JITList::new(vec![(); n]);
    assert_eq!(l.try_remove(0x8000_0000), Err(ListError::IndexOverflow));
    assert_eq!(l.len(), n);
}
