use glib_native::ptr_array::{GPointer, PtrArray};
use glib_native::refcount::RefHeap;

fn int_to_ptr(value: i32) -> GPointer {
    value as isize as GPointer
}

fn ptr_to_int(value: GPointer) -> i32 {
    value as isize as i32
}

fn assert_null_terminated(array: &PtrArray, expected: bool) {
    assert_eq!(array.is_null_terminated(), expected);
    if let Some(pdata) = array.pdata() {
        if expected {
            assert_eq!(pdata[array.len() as usize], 0);
        }
    } else {
        assert_eq!(array.len(), 0);
    }
}

fn contents(array: &PtrArray) -> Vec<i32> {
    (0..array.len()).map(|i| ptr_to_int(array.index(i))).collect()
}

#[test]
fn new_add_and_index() {
    let mut array = PtrArray::sized_new(1000);
    for i in 0..10_000 {
        array.add(int_to_ptr(i));
    }
    assert_eq!(array.len(), 10_000);
    for i in 0..10_000 {
        assert_eq!(ptr_to_int(array.index(i)), i as i32);
    }
}

#[test]
fn add_foreach_and_free_segment() {
    let mut heap = RefHeap::new();
    let array = heap.adopt(PtrArray::sized_new(1000));
    for i in 0..10_000 {
        heap.get_mut(&array).add(int_to_ptr(i));
    }
    let sum = heap.get(&array).foreach(|value, sum: i32| sum + ptr_to_int(value), 0);
    assert_eq!(sum, 49_995_000);

    let (segment, due) = PtrArray::free(&mut heap, array, false);
    let segment = segment.expect("segment");
    for (i, value) in segment.iter().take(10_000).enumerate() {
        assert_eq!(ptr_to_int(*value), i as i32);
    }
    assert!(due.is_empty());
}

#[test]
fn free_null_terminated_empty_segment() {
    let mut heap = RefHeap::new();
    let array = heap.adopt(PtrArray::new_null_terminated(0, false, true));
    assert_null_terminated(heap.get(&array), true);

    let (segment, _) = PtrArray::free(&mut heap, array, false);
    let segment = segment.expect("null-terminated segment");
    assert_eq!(segment.len(), 1);
    assert_eq!(segment[0], 0);
}

#[test]
fn ref_count_and_free_with_extra_ref() {
    let mut heap = RefHeap::new();
    let array = heap.adopt(PtrArray::new_null_terminated(0, false, true));
    for i in 0..10_000 {
        heap.get_mut(&array).add(int_to_ptr(i));
        assert_null_terminated(heap.get(&array), true);
    }

    let sum = heap.get(&array).foreach(|value, sum: i32| sum + ptr_to_int(value), 0);
    assert_eq!(sum, 49_995_000);

    let survivor = PtrArray::ref_(&mut heap, &array);
    PtrArray::free(&mut heap, array, true);

    assert_eq!(heap.get(&survivor).len(), 0);
    assert_null_terminated(heap.get(&survivor), true);
    PtrArray::unref(&mut heap, survivor);
}

#[test]
fn free_func_on_remove_and_set_size() {
    let mut heap = RefHeap::new();
    let empty = heap.adopt(PtrArray::new_with_free_func());
    assert_eq!(PtrArray::unref(&mut heap, empty).len(), 0);

    let mut counter = 0;
    let shared = heap.adopt(PtrArray::new_with_free_func());
    let array = heap.get_mut(&shared);
    array.add(int_to_ptr(1));
    array.add(int_to_ptr(2));
    array.add(int_to_ptr(3));
    array.remove_index(0);
    counter += array.take_freed().len();
    assert_eq!(counter, 1);
    array.remove_index_fast(1);
    counter += array.take_freed().len();
    assert_eq!(counter, 2);

    let frob = int_to_ptr(99);
    array.add(frob);
    assert!(array.remove(frob));
    assert!(!array.remove(int_to_ptr(1234)));
    counter += array.take_freed().len();
    assert_eq!(counter, 3);

    array.add(int_to_ptr(77));
    array.set_size(1);
    counter += array.take_freed().len();
    assert_eq!(counter, 4);

    let extra = PtrArray::ref_(&mut heap, &shared);
    counter += PtrArray::unref(&mut heap, extra).len();
    assert_eq!(counter, 4);
    counter += PtrArray::unref(&mut heap, shared).len();
    assert_eq!(counter, 5);
}

#[test]
fn sort_ascending() {
    let mut array = PtrArray::new();
    array.sort(&|_, _| 0);

    let values = [5_i32, 1, 9, 3, 7, 2, 8, 0, 4, 6];
    for value in values {
        array.add(int_to_ptr(value));
    }

    array.sort(&|a, b| {
        let av = ptr_to_int(a);
        let bv = ptr_to_int(b);
        av.cmp(&bv) as i32
    });

    let mut prev = i32::MIN;
    for i in 0..array.len() {
        let cur = ptr_to_int(array.index(i));
        assert!(prev <= cur);
        prev = cur;
    }
}

#[test]
fn find_empty_array() {
    let array = PtrArray::new();
    let mut idx = u32::MAX;
    assert!(!array.find(0, None));
    assert!(!array.find(0, Some(&mut idx)));
    assert!(!array.find_with_equal_func(0, Some(|_: GPointer, _: GPointer| true), Some(&mut idx)));
    assert_eq!(idx, u32::MAX);
}

#[test]
fn find_non_empty_array() {
    let mut array = PtrArray::new();
    let some = "some".as_ptr() as GPointer;
    let random = "random".as_ptr() as GPointer;
    let values = [
        some,
        random,
        "values".as_ptr() as GPointer,
        some,
        "duplicated".as_ptr() as GPointer,
    ];
    for value in values {
        array.add(value);
    }
    let static_string = "static-string";
    array.add(static_string.as_ptr() as GPointer);

    let same = |element: GPointer, target: GPointer| element == target;
    let mut idx = u32::MAX;
    assert!(array.find_with_equal_func(random, Some(same), Some(&mut idx)));
    assert_eq!(idx, 1);

    assert!(array.find_with_equal_func(some, Some(same), Some(&mut idx)));
    assert_eq!(idx, 0);

    assert!(!array.find_with_equal_func("nope".as_ptr() as GPointer, Some(same), None));

    idx = u32::MAX;
    assert!(array.find(static_string.as_ptr() as GPointer, Some(&mut idx)));
    assert_eq!(idx, 5);
}

#[test]
fn remove_range_empty() {
    let mut array = PtrArray::new();
    array.remove_range(0, 0);
    assert!(array.is_empty());
}

#[test]
fn remove_index_preserves_order() {
    let mut array = PtrArray::new();
    for i in 0..5 {
        array.add(int_to_ptr(i));
    }
    assert_eq!(ptr_to_int(array.remove_index(1).unwrap()), 1);
    for (i, expected) in [0, 2, 3, 4].iter().enumerate() {
        assert_eq!(ptr_to_int(array.index(i as u32)), *expected);
    }
}

#[test]
fn remove_index_fast_swaps_last() {
    let mut array = PtrArray::new();
    for i in 0..4 {
        array.add(int_to_ptr(i));
    }
    assert_eq!(ptr_to_int(array.remove_index_fast(0).unwrap()), 0);
    assert_eq!(ptr_to_int(array.index(0)), 3);
    assert_eq!(ptr_to_int(array.index(1)), 1);
    assert_eq!(ptr_to_int(array.index(2)), 2);
}

#[test]
fn set_size_grows_and_shrinks() {
    let mut array = PtrArray::new_with_free_func();
    array.set_size(4);
    assert_eq!(array.len(), 4);
    for i in 0..4 {
        assert_eq!(array.index(i), 0);
    }

    array.set_size(0);
    assert_eq!(array.len(), 0);

    array.add(int_to_ptr(10));
    array.add(int_to_ptr(20));
    assert_eq!(array.take_freed(), vec![0, 0, 0, 0]);
    array.set_size(1);
    assert_eq!(array.len(), 1);
    assert_eq!(array.take_freed().len(), 1);
    assert_eq!(ptr_to_int(array.index(0)), 10);
}

#[test]
fn null_terminated_add_remove() {
    let mut array = PtrArray::new_null_terminated(4, false, true);
    assert_null_terminated(&array, true);
    array.add(int_to_ptr(1));
    array.add(int_to_ptr(2));
    assert_null_terminated(&array, true);
    array.remove_index(0);
    assert_null_terminated(&array, true);
    assert_eq!(ptr_to_int(array.index(0)), 2);
}

#[test]
fn buffers_are_powers_of_two() {
    let mut array = PtrArray::new();
    assert!(array.pdata().is_none());
    array.add(1);
    assert_eq!(array.pdata().unwrap().len(), 16);
    for i in 0..16 {
        array.add(i);
    }
    assert_eq!(array.pdata().unwrap().len(), 32);
    assert_eq!(PtrArray::sized_new(33).pdata().unwrap().len(), 64);
    assert_eq!(PtrArray::new_null_terminated(32, false, true).pdata().unwrap().len(), 64);
}

#[test]
fn segments_keep_the_whole_buffer() {
    let mut heap = RefHeap::new();
    let shared = heap.adopt(PtrArray::new_with_free_func());
    let array = heap.get_mut(&shared);
    for i in 1..5 {
        array.add(i);
    }
    array.remove_range(1, 2);
    assert_eq!(contents(array), vec![1, 4]);
    let other = PtrArray::ref_(&mut heap, &shared);
    let (segment, due) = PtrArray::free(&mut heap, shared, false);
    let segment = segment.unwrap();
    assert_eq!(segment.len(), 16);
    assert_eq!(&segment[..5], &[1, 4, 3, 4, 0]);
    assert_eq!(due, vec![2, 3]);
    assert!(heap.get(&other).pdata().is_none());
    let (segment, due) = PtrArray::free(&mut heap, other, false);
    assert!(segment.is_none() && due.is_empty());
}

#[test]
fn edges_of_lookup_and_removal() {
    let mut array = PtrArray::default();
    array.add(5);
    assert_eq!(array.get(0), Some(5));
    assert_eq!(array.get(1), None);
    assert_eq!(array.remove_index(1), None);
    assert_eq!(array.remove_index_fast(7), None);
    assert!(array.find_with_equal_func(5, None::<fn(GPointer, GPointer) -> bool>, None));
    assert_eq!(array.remove_index_fast(0), Some(5));
    assert_eq!(array.take_freed(), Vec::<GPointer>::new());
    for v in [31, 12, 30, 11, 22] {
        array.add(v);
    }
    array.sort(&|a, b| (a / 10) as i32 - (b / 10) as i32);
    assert_eq!(contents(&array), vec![12, 11, 22, 31, 30]);
}
