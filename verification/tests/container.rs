use opt_vec::store::capacity_of;
use opt_vec::OptVec;

#[test]
fn ok() {
    let mut v: OptVec<i32> = OptVec::new();
    assert_eq!(v.push(1), 0);
    assert_eq!(v.push(2), 1);
    assert_eq!(v.push(3), 2);
    assert_eq!(v.push(4), 3);
    assert_eq!(v.push(5), 4);

    assert_eq!(v.pop(), Some(5));
    assert_eq!(v.as_slice(), vec![Some(1), Some(2), Some(3), Some(4)]);
    assert_eq!(v.free_indices(), vec![] as Vec<usize>);

    assert_eq!(v.remove(1), Some(2));
    assert_eq!(v.as_slice(), vec![Some(1), None, Some(3), Some(4)]);
    assert_eq!(v.free_indices(), vec![1]);

    assert_eq!(v.remove(1), None);
    assert_eq!(v.as_slice(), vec![Some(1), None, Some(3), Some(4)]);
    assert_eq!(v.free_indices(), vec![1]);

    assert_eq!(v.push(5), 1);
    assert_eq!(v.as_slice(), vec![Some(1), Some(5), Some(3), Some(4)]);
    assert_eq!(v.free_indices(), vec![] as Vec<usize>);
}

#[should_panic]
#[test]
fn err() {
    let mut v = OptVec::new();
    v.push(1);
    v.remove(1);
}

#[test]
fn scenario_ends_in_occupied_order() {
    let mut v: OptVec<i32> = OptVec::new();
    for value in 1..=5 {
        v.push(value);
    }
    assert_eq!(v.pop(), Some(5));
    assert_eq!(v.inner_len(), 4);
    assert_eq!(v.remove(1), Some(2));
    assert_eq!(v.remove(1), None);
    assert_eq!(v.push(5), 1);
    assert_eq!(v.to_vec(), vec![1, 5, 3, 4]);
}

#[test]
fn new_is_empty() {
    let v: OptVec<String> = OptVec::new();
    assert_eq!(v.len(), 0);
    assert_eq!(v.inner_len(), 0);
    assert!(v.as_slice().is_empty());
    assert!(v.free_indices().is_empty());
    assert_eq!(v.to_vec(), Vec::<String>::new());
}

#[test]
fn with_capacity_behaves_as_new() {
    let mut v: OptVec<u8> = OptVec::with_capacity(16);
    assert_eq!(v.len(), 0);
    assert_eq!(v.inner_len(), 0);
    assert!(v.capacity() >= 16);
    assert_eq!(v.push(7), 0);
    assert_eq!(v.push(8), 1);
    assert_eq!(v.to_vec(), vec![7, 8]);
}

#[test]
fn default_is_empty() {
    let v: OptVec<u8> = OptVec::default();
    assert_eq!(v.inner_len(), 0);
    assert!(v.free_indices().is_empty());
}

#[test]
fn pop_on_empty_returns_none() {
    let mut v: OptVec<i32> = OptVec::new();
    assert_eq!(v.pop(), None);
    assert_eq!(v.inner_len(), 0);
    assert_eq!(v.pop(), None);
}

#[test]
fn pop_of_empty_slot_returns_none_and_shrinks() {
    let mut v: OptVec<i32> = OptVec::new();
    v.push(10);
    v.push(20);
    assert_eq!(v.remove(1), Some(20));
    assert_eq!(v.free_indices(), vec![1]);
    assert_eq!(v.pop(), None);
    assert_eq!(v.inner_len(), 1);
    assert_eq!(v.as_slice(), vec![Some(10)]);
    assert_eq!(v.free_indices(), vec![] as Vec<usize>);
}

#[test]
fn push_after_pop_of_empty_slot_appends() {
    let mut v: OptVec<i32> = OptVec::new();
    v.push(10);
    v.push(20);
    v.remove(1);
    v.pop();
    assert!(v.free_indices().is_empty());
    assert_eq!(v.push(30), 1);
    assert_eq!(v.as_slice(), vec![Some(10), Some(30)]);
    assert!(v.free_indices().is_empty());
}

#[test]
fn pop_takes_only_the_dropped_index_out_of_the_registry() {
    let mut v: OptVec<i32> = OptVec::new();
    v.push(10);
    v.push(20);
    v.push(30);
    assert_eq!(v.remove(0), Some(10));
    assert_eq!(v.remove(2), Some(30));
    assert_eq!(v.free_indices(), vec![0, 2]);
    assert_eq!(v.pop(), None);
    assert_eq!(v.free_indices(), vec![0]);
    assert_eq!(v.push(40), 0);
    assert_eq!(v.as_slice(), vec![Some(40), Some(20)]);
    assert!(v.free_indices().is_empty());
    assert_eq!(v.push(50), 2);
    assert_eq!(v.to_vec(), vec![40, 20, 50]);
}

#[test]
fn pop_finds_the_dropped_index_below_the_top() {
    let mut v: OptVec<i32> = OptVec::new();
    for value in 0..5 {
        v.push(value);
    }
    assert_eq!(v.remove(1), Some(1));
    assert_eq!(v.remove(4), Some(4));
    assert_eq!(v.remove(3), Some(3));
    assert_eq!(v.remove(0), Some(0));
    assert_eq!(v.free_indices(), vec![1, 4, 3, 0]);
    assert_eq!(v.pop(), None);
    assert_eq!(v.free_indices(), vec![1, 3, 0]);
    assert_eq!(v.pop(), None);
    assert_eq!(v.free_indices(), vec![1, 0]);
    assert_eq!(v.pop(), Some(2));
    assert_eq!(v.free_indices(), vec![1, 0]);
    assert_eq!(v.as_slice(), vec![None, None]);
    assert_eq!(v.pop(), None);
    assert_eq!(v.pop(), None);
    assert_eq!(v.inner_len(), 0);
    assert!(v.free_indices().is_empty());
    assert_eq!(v.push(9), 0);
}

#[test]
fn pop_of_occupied_slot_leaves_registry_alone() {
    let mut v: OptVec<i32> = OptVec::new();
    v.push(1);
    v.push(2);
    v.push(3);
    v.remove(0);
    assert_eq!(v.pop(), Some(3));
    assert_eq!(v.free_indices(), vec![0]);
    assert_eq!(v.as_slice(), vec![None, Some(2)]);
}

#[test]
fn push_discards_entry_left_by_writes_through_iteration() {
    let mut v: OptVec<i32> = OptVec::new();
    v.push(1);
    v.push(2);
    v.remove(1);
    for slot in &mut v {
        if slot.is_none() {
            *slot = Some(9);
        }
    }
    assert_eq!(v.pop(), Some(9));
    assert_eq!(v.free_indices(), vec![1]);
    assert_eq!(v.push(5), 1);
    assert_eq!(v.as_slice(), vec![Some(1), Some(5)]);
    assert!(v.free_indices().is_empty());
}

#[test]
fn index_stays_valid_through_churn() {
    let mut v: OptVec<&str> = OptVec::new();
    let a = v.push("a");
    let b = v.push("b");
    let c = v.push("c");
    assert_eq!(v[c], "c");
    v.remove(b);
    assert_eq!(v[a], "a");
    assert_eq!(v[c], "c");
    let d = v.push("d");
    assert_eq!(d, b);
    let e = v.push("e");
    assert_eq!(e, 3);
    v.remove(a);
    assert_eq!(v[c], "c");
    assert_eq!(v[d], "d");
    assert_eq!(v[e], "e");
}

#[test]
fn freed_indices_are_reused_last_removed_first() {
    let mut v: OptVec<u32> = OptVec::new();
    for value in 0..6 {
        v.push(value);
    }
    assert_eq!(v.remove(4), Some(4));
    assert_eq!(v.remove(1), Some(1));
    assert_eq!(v.remove(3), Some(3));
    assert_eq!(v.free_indices(), vec![4, 1, 3]);
    assert_eq!(v.push(100), 3);
    assert_eq!(v.push(101), 1);
    assert_eq!(v.push(102), 4);
    assert_eq!(v.push(103), 6);
    assert_eq!(v.to_vec(), vec![0, 101, 2, 100, 102, 5, 103]);
}

#[test]
fn remove_twice_returns_value_then_none() {
    let mut v: OptVec<char> = OptVec::new();
    v.push('x');
    v.push('y');
    assert_eq!(v.remove(0), Some('x'));
    let cells = v.as_slice().to_vec();
    let free = v.free_indices().to_vec();
    assert_eq!(v.remove(0), None);
    assert_eq!(v.as_slice(), cells);
    assert_eq!(v.free_indices(), free);
}

#[test]
fn len_counts_occupied_slots() {
    let mut v: OptVec<u32> = OptVec::new();
    assert_eq!(v.len(), 0);
    v.push(1);
    v.push(2);
    v.push(3);
    assert_eq!(v.len(), 3);
    assert_eq!(v.inner_len(), 3);
    v.remove(1);
    assert_eq!(v.len(), 2);
    assert_eq!(v.inner_len(), 3);
    v.remove(1);
    assert_eq!(v.len(), 2);
    v.pop();
    assert_eq!(v.len(), 1);
    assert_eq!(v.inner_len(), 2);
    v.pop();
    assert_eq!(v.len(), 1);
    assert_eq!(v.inner_len(), 1);
    v.push(9);
    assert_eq!(v.len(), 2);
}

#[test]
fn to_vec_round_trips_insertions() {
    let values = vec![5, 3, 8, 8, 1, 0, 13];
    let mut v: OptVec<i64> = OptVec::new();
    for (k, value) in values.iter().enumerate() {
        assert_eq!(v.push(*value), k);
    }
    assert_eq!(v.to_vec(), values);
}

#[test]
fn to_vec_leaves_out_empty_slots() {
    let mut v: OptVec<i32> = OptVec::new();
    for value in 0..5 {
        v.push(value);
    }
    v.remove(0);
    v.remove(3);
    assert_eq!(v.to_vec(), vec![1, 2, 4]);
}

#[test]
fn capacity_adds_registry_to_allocation() {
    let mut v: OptVec<u64> = OptVec::with_capacity(8);
    let empty = v.capacity();
    assert!(empty >= 8);
    v.push(1);
    v.push(2);
    assert!(v.capacity() >= v.inner_len());
    let before = v.capacity();
    v.remove(0);
    assert_eq!(v.capacity(), before + 1);
}

#[test]
fn capacity_of_sums_and_saturates() {
    assert_eq!(capacity_of(0, 0), 0);
    assert_eq!(capacity_of(8, 3), 11);
    assert_eq!(capacity_of(usize::MAX, 0), usize::MAX);
    assert_eq!(capacity_of(usize::MAX, 1), usize::MAX);
    assert_eq!(capacity_of(usize::MAX - 2, 5), usize::MAX);
}

#[test]
fn index_mut_replaces_value_in_place() {
    let mut v: OptVec<i32> = OptVec::new();
    v.push(1);
    v.push(2);
    v[1] = 20;
    v[0] += 10;
    assert_eq!(v[0], 11);
    assert_eq!(v[1], 20);
    assert_eq!(v.as_slice(), vec![Some(11), Some(20)]);
    assert!(v.free_indices().is_empty());
}

#[test]
fn iteration_shows_every_slot() {
    let mut v: OptVec<i32> = OptVec::new();
    v.push(1);
    v.push(2);
    v.push(3);
    v.remove(1);
    let mut seen = Vec::new();
    for slot in &v {
        seen.push(*slot);
    }
    assert_eq!(seen, vec![Some(1), None, Some(3)]);
    let again: Vec<Option<i32>> = (&v).into_iter().cloned().collect();
    assert_eq!(again, seen);
}

#[test]
fn mutable_iteration_changes_values_in_place() {
    let mut v: OptVec<i32> = OptVec::new();
    v.push(1);
    v.push(2);
    v.push(3);
    v.remove(1);
    for slot in &mut v {
        if let Some(value) = slot {
            *value *= 10;
        }
    }
    assert_eq!(v.as_slice(), vec![Some(10), None, Some(30)]);
    assert_eq!(v.free_indices(), vec![1]);
    assert_eq!(v.inner_len(), 3);
}

#[test]
fn mutable_iteration_yields_slots_in_store_order() {
    let mut v: OptVec<i32> = OptVec::new();
    v.push(7);
    v.push(8);
    v.push(9);
    v.remove(0);
    let mut seen = Vec::new();
    for slot in &mut v {
        seen.push(*slot);
    }
    assert_eq!(seen, vec![None, Some(8), Some(9)]);
    let mut slots = (&mut v).into_iter();
    let second = slots.nth(1);
    assert_eq!(second, Some(&mut Some(8)));
    if let Some(slot) = second {
        *slot = Some(80);
    }
    assert_eq!(v.as_slice(), vec![None, Some(80), Some(9)]);
    assert_eq!(v.free_indices(), vec![0]);
}

#[test]
fn clone_copies_store_and_registry() {
    let mut v: OptVec<String> = OptVec::new();
    v.push("a".to_string());
    v.push("b".to_string());
    v.push("c".to_string());
    v.remove(1);
    let mut copy = v.clone();
    assert_eq!(copy.as_slice(), v.as_slice());
    assert_eq!(copy.free_indices(), v.free_indices());
    assert_eq!(copy.push("d".to_string()), 1);
    assert_eq!(v.as_slice()[1], None);
}

#[test]
fn equality_compares_store_and_registry() {
    let mut a: OptVec<i32> = OptVec::new();
    let mut b: OptVec<i32> = OptVec::new();
    assert!(a == b);
    a.push(1);
    assert!(a != b);
    b.push(1);
    assert!(a == b);
    a.push(2);
    b.push(3);
    assert!(a != b);
    a.remove(1);
    b.remove(1);
    assert!(a == b);
    a.pop();
    assert!(a != b);
}

#[test]
fn debug_names_both_parts() {
    let mut v: OptVec<i32> = OptVec::new();
    v.push(1);
    v.push(2);
    v.remove(0);
    assert_eq!(format!("{:?}", v), "OptVec { inner: [None, Some(2)], free: [0] }");
}
