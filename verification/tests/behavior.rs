use cpp_map::{LinkedList, MapError, PIterator, So, OUT_OF_BOUNDS};

/// Collect the keys of an `<i8, i8>` list, head to tail.
fn keys_of(ll: &LinkedList<i8, i8>) -> Vec<i8> {
    let mut it = ll.iter();
    let mut v: Vec<i8> = Vec::new();
    while let Some((k, _)) = it.next() {
        v.push(*k);
    }
    v
}

#[test]
fn round_trip_push_front_then_pop_front() -> Result<(), MapError> {
    let mut ll = LinkedList::<i8, i8>::default();
    let _ = ll.push_front_(7, 9)?;
    assert_eq!(ll.len(), 1);
    let v = ll.pop_front()?;
    assert_eq!(v, Some((7, 9)));
    assert!(ll.is_empty());
    assert_eq!(keys_of(&ll), Vec::<i8>::new());
    Ok(())
}

#[test]
fn duplicate_insert_keeps_stored_value() -> Result<(), MapError> {
    let mut ll = LinkedList::<i8, i8>::default();
    let first = ll.ordered_insert(5, 0)?;
    let second = ll.ordered_insert(5, 100)?;
    assert_eq!(first, second);
    assert_eq!(ll.len(), 1);
    assert_eq!(*ll.get_v(first)?, 0);
    assert_eq!(keys_of(&ll), vec![5_i8]);
    Ok(())
}

#[test]
fn index_reuse_last_freed_first() -> Result<(), MapError> {
    let mut ll = LinkedList::<i8, i8>::default();
    let a = ll.ordered_insert(1, 0)?;
    let b = ll.ordered_insert(2, 1)?;
    let c = ll.ordered_insert(3, 2)?;
    assert_eq!((a, b, c), (0, 1, 2));
    let _ = ll.remove_(b)?;
    assert_eq!(ll.next_free_index(), b);
    let again = ll.ordered_insert(9, 9)?;
    assert_eq!(again, b);
    Ok(())
}

#[test]
fn cursor_drain_from_tail_descending() -> Result<(), MapError> {
    let mut ll = LinkedList::<i8, i8>::default();
    let _ = ll.ordered_insert(1, 10)?;
    let _ = ll.ordered_insert(2, 20)?;
    let _ = ll.ordered_insert(3, 30)?;
    let mut removed: Vec<i8> = Vec::new();
    let mut p = PIterator::new(&ll);
    while ll.len() > 0 {
        p.move_to_tail(&ll)?;
        let (k, _) = p.remove_current(&mut ll, false)?;
        removed.push(k);
    }
    assert_eq!(removed, vec![3_i8, 2, 1]);
    assert_eq!(ll.len(), 0);
    Ok(())
}

#[test]
fn sorted_after_hinted_inserts() -> Result<(), MapError> {
    let mut ll = LinkedList::<i8, i8>::default();
    let mut hint = ll.head();
    for key in [40_i8, 10, 30, 20, 50, 25, 5].iter() {
        hint = ll.ordered_insert_pos(*key, 0, hint)?;
    }
    assert_eq!(keys_of(&ll), vec![5_i8, 10, 20, 25, 30, 40, 50]);
    Ok(())
}

#[test]
fn empty_list_pops_fail() {
    let mut ll = LinkedList::<i8, i8>::default();
    assert_eq!(ll.pop_front(), Err(MapError::InvariantViolation));
    assert_eq!(ll.pop_back(), Err(MapError::InvariantViolation));
    assert_eq!(ll.remove_(0), Err(MapError::InvariantViolation));
}

#[test]
fn bad_indices_are_distinguished() -> Result<(), MapError> {
    let mut ll = LinkedList::<i8, i8>::default();
    let idx = ll.ordered_insert(1, 1)?;
    assert!(matches!(ll.get_k(17), Err(MapError::NotFound)));
    assert!(matches!(ll.get_k(OUT_OF_BOUNDS), Err(MapError::NotFound)));
    let _ = ll.ordered_insert(2, 2)?;
    let _ = ll.remove_(idx)?;
    assert!(matches!(ll.get_k(idx), Err(MapError::Tombstoned)));
    assert!(matches!(ll.get_v(idx), Err(MapError::Tombstoned)));
    assert!(matches!(ll.get(idx), Err(MapError::Tombstoned)));
    assert!(matches!(ll.insert_before_(17, 9, 9), Err(MapError::NotFound)));
    assert!(matches!(ll.insert_before_(idx, 9, 9), Err(MapError::Tombstoned)));
    Ok(())
}

#[test]
fn insert_before_sentinel_degrades_to_push_front() -> Result<(), MapError> {
    let mut ll = LinkedList::<i8, i8>::default();
    let _ = ll.push_back_(2, 0)?;
    let _ = ll.insert_before_(OUT_OF_BOUNDS, 1, 1)?;
    assert_eq!(keys_of(&ll), vec![1_i8, 2]);
    Ok(())
}

#[test]
fn peeks_and_ends() -> Result<(), MapError> {
    let mut ll = LinkedList::<i8, i8>::default();
    assert_eq!(ll.peek_front_k(), None);
    assert_eq!(ll.peek_back_k(), None);
    assert_eq!(ll.head(), OUT_OF_BOUNDS);
    assert_eq!(ll.tail(), OUT_OF_BOUNDS);
    let _ = ll.ordered_insert(2, 0)?;
    let _ = ll.ordered_insert(1, 1)?;
    assert_eq!(ll.peek_front_k(), Some(&1));
    assert_eq!(ll.peek_back_k(), Some(&2));
    assert_eq!(*ll.get_prev_k(ll.tail())?, 1);
    assert!(matches!(ll.get_prev_k(ll.head()), Err(MapError::NotFound)));
    Ok(())
}

#[test]
fn capacity_covers_contents() -> Result<(), MapError> {
    let mut ll = LinkedList::<i8, i8>::with_capacity(4);
    let _ = ll.ordered_insert(1, 0)?;
    let _ = ll.ordered_insert(2, 0)?;
    let _ = ll.ordered_insert(3, 0)?;
    let (nodes_cap, pool_cap) = ll.capacity();
    assert!(nodes_cap >= 3);
    let _ = ll.remove_(0)?;
    let (_, pool_cap2) = ll.capacity();
    assert!(pool_cap2 >= 1);
    assert!(pool_cap <= nodes_cap);
    Ok(())
}

#[test]
fn next_free_index_on_fresh_list() {
    let ll = LinkedList::<i8, i8>::default();
    assert_eq!(ll.next_free_index(), 0);
}

#[test]
fn disconnect_only_removal_keeps_slot_dead() -> Result<(), MapError> {
    let mut ll = LinkedList::<i8, i8>::default();
    let a = ll.ordered_insert(1, 0)?;
    let b = ll.ordered_insert(2, 1)?;
    let mut p = PIterator::new_2(&ll, b);
    let removed = p.remove_current(&mut ll, true)?;
    assert_eq!(removed, (2, 1));
    // the detached slot still counts as allocated and is not reused
    assert_eq!(ll.len(), 2);
    assert!(matches!(ll.get_k(b), Err(MapError::Tombstoned)));
    assert_eq!(keys_of(&ll), vec![1_i8]);
    let c = ll.ordered_insert(3, 2)?;
    assert_ne!(c, b);
    assert_eq!(keys_of(&ll), vec![1_i8, 3]);
    // a full clear finally resets everything, detached slots included
    ll.clear();
    assert_eq!(ll.len(), 0);
    assert_eq!(ll.next_free_index(), 0);
    assert!(matches!(ll.get_k(a), Err(MapError::NotFound)));
    Ok(())
}

#[test]
fn replace_key_in_place() -> Result<(), MapError> {
    let mut ll = LinkedList::<i8, i8>::default();
    let _ = ll.ordered_insert(1, 10)?;
    let _ = ll.ordered_insert(5, 50)?;
    let p = PIterator::new(&ll);
    p.replace_key(&mut ll, 3)?;
    assert_eq!(keys_of(&ll), vec![3_i8, 5]);
    assert_eq!(p.get_k(&ll)?, 3);
    assert_eq!(p.get_v(&ll)?, 10);
    assert_eq!(ll.len(), 2);
    Ok(())
}

#[test]
fn cursor_movement_and_position_checks() -> Result<(), MapError> {
    let mut ll = LinkedList::<i8, i8>::default();
    let _ = ll.ordered_insert(1, 0)?;
    let _ = ll.ordered_insert(2, 1)?;
    let _ = ll.ordered_insert(3, 2)?;
    let mut p = PIterator::new(&ll);
    assert!(p.is_at_head(&ll));
    assert!(!p.is_at_tail(&ll));
    assert!(p.is_ok(&ll));
    p.move_to_tail(&ll)?;
    assert!(p.is_at_tail(&ll));
    assert_eq!(p.get_k(&ll)?, 3);
    p.prev(&ll)?;
    assert_eq!(p.get_k(&ll)?, 2);
    p.next(&ll)?;
    p.next(&ll)?;
    // moved past the tail
    assert!(!p.is_ok(&ll));
    assert_eq!(p.current(), OUT_OF_BOUNDS);
    p.move_to_head(&ll)?;
    p.prev(&ll)?;
    // moved past the head
    assert!(!p.is_ok(&ll));
    let q = PIterator::new_2(&ll, 1);
    assert_eq!(q.get_k(&ll)?, 2);
    Ok(())
}

#[test]
fn pop_back_returns_greatest_first() -> Result<(), MapError> {
    let mut ll = LinkedList::<i8, i8>::default();
    let _ = ll.ordered_insert(1, 0)?;
    let _ = ll.ordered_insert(2, 1)?;
    assert_eq!(ll.pop_back()?, Some((2, 1)));
    assert_eq!(ll.pop_back()?, Some((1, 0)));
    assert!(ll.is_empty());
    Ok(())
}

#[test]
fn lower_bound_on_duplicate_run_finds_headmost() -> Result<(), MapError> {
    let mut ll = LinkedList::<i8, i8>::default();
    let _ = ll.push_front_(2, 1)?; // 0
    let _ = ll.push_front_(2, 0)?; // 1
    assert_eq!(keys_of(&ll), vec![2_i8, 2]);
    assert_eq!(ll.lower_bound(2)?, Some(1));
    assert_eq!(ll.lower_bound(3)?, None);
    Ok(())
}

#[test]
fn iterator_is_restartable() -> Result<(), MapError> {
    let mut ll = LinkedList::<i8, i8>::default();
    let _ = ll.ordered_insert(1, 4)?;
    let _ = ll.ordered_insert(2, 5)?;
    let mut first = ll.iter();
    assert_eq!(first.next().map(|(k, v)| (*k, *v)), Some((1, 4)));
    let mut second = ll.iter();
    assert_eq!(second.next().map(|(k, v)| (*k, *v)), Some((1, 4)));
    assert_eq!(first.next().map(|(k, v)| (*k, *v)), Some((2, 5)));
    assert_eq!(first.next(), None);
    assert_eq!(second.next().map(|(k, v)| (*k, *v)), Some((2, 5)));
    Ok(())
}

#[test]
fn iterator_directions_meet_in_the_middle() -> Result<(), MapError> {
    let mut ll = LinkedList::<i8, i8>::default();
    let _ = ll.ordered_insert(1, 0)?;
    let _ = ll.ordered_insert(2, 0)?;
    let _ = ll.ordered_insert(3, 0)?;
    let _ = ll.ordered_insert(4, 0)?;
    let mut it = ll.iter();
    assert_eq!(it.next().map(|(k, _)| *k), Some(1));
    assert_eq!(it.next_back().map(|(k, _)| *k), Some(4));
    assert_eq!(it.next().map(|(k, _)| *k), Some(2));
    assert_eq!(it.next_back().map(|(k, _)| *k), Some(3));
    assert_eq!(it.next().map(|(k, _)| *k), None);
    assert_eq!(it.next_back().map(|(k, _)| *k), None);
    let mut back = ll.iter();
    assert_eq!(back.next_back().map(|(k, _)| *k), Some(4));
    assert_eq!(back.next_back().map(|(k, _)| *k), Some(3));
    assert_eq!(back.next_back().map(|(k, _)| *k), Some(2));
    assert_eq!(back.next_back().map(|(k, _)| *k), Some(1));
    assert_eq!(back.next_back().map(|(k, _)| *k), None);
    Ok(())
}

#[test]
fn so_orders_by_key_and_compares_by_both_fields() {
    let a = So::new(2, 1);
    let b = So::new(2, 5);
    assert_ne!(a, b);
    assert_eq!(a, So::new(2, 1));
    assert_eq!(a.key, 2);
    assert_eq!(b.value, 5);
}
