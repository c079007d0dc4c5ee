use glib_native::list::{List, SList};

fn int_to_ptr(n: i32) -> usize {
    (n as isize) as usize
}

fn ptr_to_int(p: usize) -> i32 {
    p as isize as i32
}

fn int_compare(a: usize, b: usize) -> i32 {
    let a = ptr_to_int(a);
    let b = ptr_to_int(b);
    a.cmp(&b) as i32
}

fn int_compare_eq(a: usize, b: usize) -> i32 {
    if ptr_to_int(a) == ptr_to_int(b) {
        0
    } else {
        1
    }
}

fn contents(list: &List) -> Vec<i32> {
    (0..list.length()).map(|i| ptr_to_int(list.nth_data(i))).collect()
}

fn scontents(list: &SList) -> Vec<i32> {
    (0..list.length()).map(|i| ptr_to_int(list.nth_data(i))).collect()
}

fn backwards(list: &List) -> Vec<i32> {
    let mut seen = Vec::new();
    let mut current = None;
    let mut next = list.as_ptr();
    while let Some(id) = next {
        current = Some(id);
        next = list.node(id).next;
    }
    while let Some(id) = current {
        seen.push(ptr_to_int(list.node(id).data));
        current = list.node(id).prev;
    }
    seen
}

#[test]
fn glist_append_and_length() {
    let mut list = List::new();
    list.append(int_to_ptr(1));
    list.append(int_to_ptr(2));
    list.append(int_to_ptr(3));

    assert_eq!(list.length(), 3);
    assert!(!list.is_empty());
    assert_eq!(ptr_to_int(list.nth_data(0)), 1);
    assert_eq!(ptr_to_int(list.nth_data(2)), 3);
}

#[test]
fn glist_prepend_order() {
    let mut list = List::new();
    list.prepend(int_to_ptr(2));
    list.prepend(int_to_ptr(1));

    assert_eq!(ptr_to_int(list.nth_data(0)), 1);
    assert_eq!(ptr_to_int(list.nth_data(1)), 2);
}

#[test]
fn glist_remove_first_match() {
    let mut list = List::new();
    for i in 0..10 {
        list.append(int_to_ptr(i));
        list.append(int_to_ptr(i));
    }
    assert_eq!(list.length(), 20);

    for i in 0..10 {
        list.remove(int_to_ptr(i));
    }

    assert_eq!(list.length(), 10);
    for i in 0..10 {
        assert_eq!(ptr_to_int(list.nth_data(i as u32)), i);
    }
}

#[test]
fn glist_remove_all() {
    let mut list = List::new();
    for i in 0..10 {
        list.append(int_to_ptr(i));
        list.append(int_to_ptr(i));
    }
    assert_eq!(list.length(), 20);

    for i in 0..5 {
        list.remove_all(int_to_ptr(2 * i + 1));
        list.remove_all(int_to_ptr(8 - 2 * i));
    }

    assert!(list.is_empty());
    assert_eq!(list.length(), 0);
}

#[test]
fn glist_find_and_nth() {
    let mut list = List::new();
    let nums: [i32; 10] = [0, 1, 2, 3, 4, 5, 6, 7, 8, 9];
    for &n in &nums {
        list.append(int_to_ptr(n));
    }

    for (i, &n) in nums.iter().enumerate() {
        let node = list.nth(i as u32);
        assert!(node.is_some());
        assert_eq!(ptr_to_int(node.unwrap().data), n);
    }

    let found = list.find(int_to_ptr(5));
    assert!(found.is_some());
    assert_eq!(ptr_to_int(found.unwrap().data), 5);

    assert!(list.find(int_to_ptr(99)).is_none());
}

#[test]
fn glist_find_custom() {
    let mut list = List::new();
    list.append(int_to_ptr(10));
    list.append(int_to_ptr(20));

    let found = list.find_custom(int_to_ptr(20), int_compare_eq);
    assert!(found.is_some());
    assert_eq!(ptr_to_int(found.unwrap().data), 20);
}

#[test]
fn glist_concat() {
    let mut list1 = List::new();
    let mut list2 = List::new();
    for i in 0..5 {
        list1.append(int_to_ptr(i));
        list2.append(int_to_ptr(i + 5));
    }

    list1.concat(list2);
    assert_eq!(list1.length(), 10);
    for i in 0..10 {
        assert_eq!(ptr_to_int(list1.nth_data(i)), i as i32);
    }
}

#[test]
fn glist_reverse() {
    let mut list = List::new();
    for i in 0..10 {
        list.append(int_to_ptr(i));
    }

    list.reverse();
    for i in 0..10 {
        assert_eq!(ptr_to_int(list.nth_data(i)), (9 - i) as i32);
    }
}

#[test]
fn glist_copy_shares_data() {
    let mut list = List::new();
    list.append(int_to_ptr(1));
    list.append(int_to_ptr(2));

    let copy = list.copy();
    let mut u = list.as_ptr();
    let mut v = copy.as_ptr();
    while u.is_some() && v.is_some() {
        assert_eq!(list.node(u.unwrap()).data, copy.node(v.unwrap()).data);
        u = list.node(u.unwrap()).next;
        v = copy.node(v.unwrap()).next;
    }
    assert!(u.is_none() && v.is_none());
}

#[test]
fn glist_sort() {
    let values = [5, 1, 4, 2, 8, 0, 2];
    let mut list = List::new();
    for &v in &values {
        list.append(int_to_ptr(v));
    }

    list.sort(int_compare);
    for i in 0..list.length() - 1 {
        let a = ptr_to_int(list.nth_data(i));
        let b = ptr_to_int(list.nth_data(i + 1));
        assert!(a <= b);
    }
}

#[test]
fn glist_insert() {
    let mut list = List::new();
    list.insert(int_to_ptr(1), 0);
    list.insert(int_to_ptr(3), 1);
    list.insert(int_to_ptr(2), 1);

    assert_eq!(ptr_to_int(list.nth_data(0)), 1);
    assert_eq!(ptr_to_int(list.nth_data(1)), 2);
    assert_eq!(ptr_to_int(list.nth_data(2)), 3);
}

#[test]
fn glist_foreach() {
    let mut list = List::new();
    list.append(int_to_ptr(1));
    list.append(int_to_ptr(2));
    list.append(int_to_ptr(3));

    let seen = list.foreach(|data, seen: u32| seen + ptr_to_int(data) as u32, 0);
    assert_eq!(seen, 6);
}

#[test]
fn gslist_append_prepend_find() {
    let mut list = SList::new();
    list.append(int_to_ptr(2));
    list.prepend(int_to_ptr(1));

    assert_eq!(list.length(), 2);
    assert_eq!(ptr_to_int(list.nth_data(0)), 1);
    assert_eq!(ptr_to_int(list.nth_data(1)), 2);

    let found = list.find(int_to_ptr(2));
    assert!(found.is_some());
}

#[test]
fn gslist_remove_and_remove_all() {
    let mut list = SList::new();
    list.append(int_to_ptr(1));
    list.append(int_to_ptr(2));
    list.append(int_to_ptr(1));

    list.remove(int_to_ptr(1));
    assert_eq!(list.length(), 2);

    list.remove_all(int_to_ptr(2));
    assert_eq!(list.length(), 1);
    assert_eq!(ptr_to_int(list.nth_data(0)), 1);
}

#[test]
fn gslist_sort_and_reverse() {
    let mut list = SList::new();
    for v in [3, 1, 4, 1, 5] {
        list.append(int_to_ptr(v));
    }

    list.sort(int_compare);
    assert_eq!(ptr_to_int(list.nth_data(0)), 1);

    list.reverse();
    assert_eq!(ptr_to_int(list.nth_data(0)), 5);
}

#[test]
fn glist_links_both_ways() {
    let mut list = List::new();
    for v in [5, 1, 4, 2, 8] {
        list.append(int_to_ptr(v));
    }
    list.insert(int_to_ptr(7), 2);
    list.insert(int_to_ptr(9), -1);
    list.insert(int_to_ptr(6), 99);
    list.prepend(int_to_ptr(3));
    assert_eq!(contents(&list), vec![3, 5, 1, 7, 4, 2, 8, 9, 6]);
    assert_eq!(backwards(&list), vec![6, 9, 8, 2, 4, 7, 1, 5, 3]);
    list.remove(int_to_ptr(3));
    list.remove(int_to_ptr(4));
    list.remove(int_to_ptr(6));
    list.remove(int_to_ptr(100));
    assert_eq!(contents(&list), vec![5, 1, 7, 2, 8, 9]);
    assert_eq!(backwards(&list), vec![9, 8, 2, 7, 1, 5]);
    list.sort(int_compare);
    assert_eq!(contents(&list), vec![1, 2, 5, 7, 8, 9]);
    assert_eq!(backwards(&list), vec![9, 8, 7, 5, 2, 1]);
    list.reverse();
    assert_eq!(backwards(&list), vec![1, 2, 5, 7, 8, 9]);
    list.reverse();
    assert_eq!(contents(&list), vec![1, 2, 5, 7, 8, 9]);
}

#[test]
fn glist_sort_is_stable() {
    let mut list = List::new();
    let mut other = SList::new();
    for v in [31, 12, 30, 11, 22, 10, 21] {
        list.append(int_to_ptr(v));
        other.append(int_to_ptr(v));
    }
    let by_tens = |a: usize, b: usize| ptr_to_int(a) / 10 - ptr_to_int(b) / 10;
    list.sort(by_tens);
    other.sort(by_tens);
    assert_eq!(contents(&list), vec![12, 11, 10, 22, 21, 31, 30]);
    assert_eq!(scontents(&other), vec![12, 11, 10, 22, 21, 31, 30]);
}

#[test]
fn glist_parts_and_places() {
    let mut list = List::new();
    assert_eq!(list.as_ptr(), None);
    assert_eq!(list.nth_data(0), 0);
    assert!(list.nth(0).is_none());
    list.append(int_to_ptr(1));
    list.append(int_to_ptr(2));
    let head = list.as_ptr();
    list.remove(int_to_ptr(2));
    list.append(int_to_ptr(3));
    assert_eq!(list.as_ptr(), head);
    let (nodes, first) = list.into_ptr();
    assert_eq!(nodes.len(), 2);
    let back = List::from_ptr(nodes, first);
    assert_eq!(contents(&back), vec![1, 3]);
    assert_eq!(backwards(&back), vec![3, 1]);
}

#[test]
fn gslist_insert_concat_copy() {
    let mut list = SList::new();
    list.insert(int_to_ptr(1), 5);
    list.insert(int_to_ptr(3), 1);
    list.insert(int_to_ptr(2), 1);
    list.insert(int_to_ptr(0), 0);
    list.insert(int_to_ptr(4), -1);
    assert_eq!(scontents(&list), vec![0, 1, 2, 3, 4]);
    let copy = list.copy();
    list.concat(copy);
    assert_eq!(scontents(&list), vec![0, 1, 2, 3, 4, 0, 1, 2, 3, 4]);
    list.remove_all(int_to_ptr(0));
    list.remove(int_to_ptr(4));
    assert_eq!(scontents(&list), vec![1, 2, 3, 1, 2, 3, 4]);
    list.reverse();
    list.reverse();
    assert_eq!(scontents(&list), vec![1, 2, 3, 1, 2, 3, 4]);
    assert_eq!(list.find_custom(int_to_ptr(3), int_compare_eq).unwrap().data, 3);
    assert!(list.find_custom(int_to_ptr(9), int_compare_eq).is_none());
    assert!(list.find(int_to_ptr(9)).is_none());
    assert_eq!(list.foreach(|data, sum: usize| sum + data, 0), 16);
    let (nodes, first) = list.into_ptr();
    assert_eq!(scontents(&SList::from_ptr(nodes, first)), vec![1, 2, 3, 1, 2, 3, 4]);
}

#[test]
fn nodes_that_stay_keep_their_places() {
    let mut list = List::new();
    let mut single = SList::new();
    for v in [1, 2, 1, 3] {
        list.append(int_to_ptr(v));
        single.append(int_to_ptr(v));
    }
    let second = list.node(list.as_ptr().unwrap()).next;
    let single_second = single.node(single.as_ptr().unwrap()).next;
    list.remove_all(int_to_ptr(1));
    single.remove_all(int_to_ptr(1));
    assert_eq!(list.as_ptr(), second);
    assert_eq!(single.as_ptr(), single_second);
    let third = list.node(second.unwrap()).next;
    let mut more = List::new();
    more.append(int_to_ptr(9));
    let mut more_single = SList::new();
    more_single.append(int_to_ptr(9));
    list.concat(more);
    single.concat(more_single);
    assert_eq!(list.as_ptr(), second);
    assert_eq!(list.node(second.unwrap()).next, third);
    assert_eq!(single.as_ptr(), single_second);
    assert_eq!(contents(&list), vec![2, 3, 9]);
    assert_eq!(scontents(&single), vec![2, 3, 9]);
}

#[test]
fn sorting_keeps_the_order_of_nodes_that_are_alike() {
    let mut list = List::new();
    let mut single = SList::new();
    for v in [2, 1, 2, 1] {
        list.append(int_to_ptr(v));
        single.append(int_to_ptr(v));
    }
    let mut places = Vec::new();
    let mut next = list.as_ptr();
    while let Some(id) = next {
        places.push(id);
        next = list.node(id).next;
    }
    let mut single_places = Vec::new();
    let mut next = single.as_ptr();
    while let Some(id) = next {
        single_places.push(id);
        next = single.node(id).next;
    }
    list.sort(int_compare);
    single.sort(int_compare);
    let mut sorted = Vec::new();
    let mut next = list.as_ptr();
    while let Some(id) = next {
        sorted.push(id);
        next = list.node(id).next;
    }
    let mut single_sorted = Vec::new();
    let mut next = single.as_ptr();
    while let Some(id) = next {
        single_sorted.push(id);
        next = single.node(id).next;
    }
    assert_eq!(sorted, vec![places[1], places[3], places[0], places[2]]);
    assert_eq!(
        single_sorted,
        vec![single_places[1], single_places[3], single_places[0], single_places[2]]
    );
}
