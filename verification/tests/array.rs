use glib_native::array::{ByteArray, GArray};
use glib_native::refcount::RefHeap;
use glib_native::UInt;

fn append_i32(array: &mut GArray, value: i32) {
    array.append_vals(Some(&value.to_ne_bytes()), 1);
}

fn prepend_i32(array: &mut GArray, value: i32) {
    array.prepend_vals(Some(&value.to_ne_bytes()), 1);
}

fn int_array_from(array: &GArray) -> Vec<i32> {
    (0..array.len()).map(|i| array.index_i32(i)).collect()
}

fn assert_int_array_equal(array: &GArray, expected: &[i32]) {
    assert_eq!(array.len() as usize, expected.len());
    for (i, &exp) in expected.iter().enumerate() {
        assert_eq!(array.index_i32(i as UInt), exp);
    }
}

fn i32_slice_bytes(values: &[i32]) -> Vec<u8> {
    let mut bytes = Vec::new();
    for value in values {
        bytes.extend_from_slice(&value.to_ne_bytes());
    }
    bytes
}

#[test]
fn array_set_size_clears_when_configured() {
    let mut array = GArray::new(false, true, std::mem::size_of::<i32>() as UInt);
    assert_eq!(array.len(), 0);
    array.set_size(5);
    assert_eq!(array.len(), 5);
    for i in 0..5 {
        assert_eq!(array.index_i32(i), 0);
    }
}

#[test]
fn array_set_size_sized_new() {
    let mut array = GArray::sized_new(false, true, std::mem::size_of::<i32>() as UInt, 10);
    assert_eq!(array.len(), 0);
    array.set_size(5);
    assert_eq!(array.len(), 5);
    for i in 0..5 {
        assert_eq!(array.index_i32(i), 0);
    }
}

#[test]
fn array_new_zero_terminated() {
    let mut heap = RefHeap::new();
    let array = heap.adopt(GArray::new(true, false, 1));
    heap.get_mut(&array).append_vals(Some(b"hello"), 5);
    assert_eq!(heap.get(&array).len(), 5);
    assert_eq!(heap.get(&array).data(), b"hello".to_vec());
    let clone = GArray::ref_(&mut heap, &array);
    let data = GArray::free(&mut heap, clone, false).unwrap();
    assert_eq!(&data[..5], b"hello");
    assert_eq!(data[5], 0);
    assert_eq!(data.len(), 6);
}

#[test]
fn array_append_vals() {
    let mut heap = RefHeap::new();
    let array = heap.adopt(GArray::new(false, false, std::mem::size_of::<i32>() as UInt));
    for i in 0..100u32 {
        append_i32(heap.get_mut(&array), i as i32);
    }
    assert_eq!(heap.get(&array).len(), 100);
    for i in 0..100 {
        assert_eq!(heap.get(&array).index_i32(i), i as i32);
    }
    let clone = GArray::ref_(&mut heap, &array);
    let segment = GArray::free(&mut heap, clone, false).unwrap();
    assert_eq!(segment.len(), 100 * std::mem::size_of::<i32>());
    GArray::unref(&mut heap, array);
}

#[test]
fn array_prepend_vals() {
    let mut array = GArray::new(false, false, std::mem::size_of::<i32>() as UInt);
    let vals = [0i32, 1, 2, 3, 4];
    array.prepend_vals(Some(&i32_slice_bytes(&vals[..2])), 2);
    assert_int_array_equal(&array, &[0, 1]);
    array.prepend_vals(Some(&i32_slice_bytes(&vals[2..3])), 1);
    assert_int_array_equal(&array, &[2, 0, 1]);
    array.prepend_vals(Some(&i32_slice_bytes(&vals[3..5])), 2);
    assert_int_array_equal(&array, &[3, 4, 2, 0, 1]);
    array.prepend_vals(None, 0);
    assert_int_array_equal(&array, &[3, 4, 2, 0, 1]);
}

#[test]
fn array_insert_vals() {
    let mut array = GArray::new(false, true, std::mem::size_of::<i32>() as UInt);
    let vals = [0i32, 1, 2, 3, 4, 5, 6, 7];
    array.insert_vals(0, Some(&i32_slice_bytes(&vals[..2])), 2);
    assert_int_array_equal(&array, &[0, 1]);
    array.insert_vals(1, Some(&i32_slice_bytes(&vals[2..4])), 2);
    assert_int_array_equal(&array, &[0, 2, 3, 1]);
    array.insert_vals(array.len(), Some(&i32_slice_bytes(&vals[4..5])), 1);
    assert_int_array_equal(&array, &[0, 2, 3, 1, 4]);
    array.insert_vals(0, Some(&i32_slice_bytes(&vals[5..6])), 1);
    assert_int_array_equal(&array, &[5, 0, 2, 3, 1, 4]);
    array.insert_vals(array.len() + 4, Some(&i32_slice_bytes(&vals[6..8])), 2);
    assert_eq!(array.len(), 12);
    assert_eq!(array.index_i32(0), 5);
    assert_eq!(array.index_i32(5), 4);
    assert_eq!(array.index_i32(6), 0);
    assert_eq!(array.index_i32(10), 6);
    assert_eq!(array.index_i32(11), 7);
}

#[test]
fn array_remove_index() {
    let mut array = GArray::new(false, false, std::mem::size_of::<i32>() as UInt);
    for i in 0..100 {
        append_i32(&mut array, i);
    }
    array.remove_index(1);
    array.remove_index(3);
    array.remove_index(21);
    array.remove_index(57);
    assert_eq!(array.len(), 96);
    let values = int_array_from(&array);
    for w in [1, 4, 23, 60] {
        assert!(!values.contains(&w));
    }
    let mut prev = -1;
    for v in values {
        assert!(prev < v);
        prev = v;
    }
}

#[test]
fn array_remove_index_fast() {
    let mut array = GArray::new(false, false, std::mem::size_of::<i32>() as UInt);
    for i in 0..100 {
        append_i32(&mut array, i);
    }
    array.remove_index_fast(1);
    array.remove_index_fast(3);
    array.remove_index_fast(21);
    array.remove_index_fast(57);
    assert_eq!(array.len(), 96);
    let values = int_array_from(&array);
    for w in [1, 3, 21, 57] {
        assert!(!values.contains(&w));
    }
    assert_eq!(values[1], 99);
    assert_eq!(values[57], 96);
}

#[test]
fn array_remove_range() {
    let mut array = GArray::new(false, false, std::mem::size_of::<i32>() as UInt);
    for i in 0..100 {
        append_i32(&mut array, i);
    }
    array.remove_range(31, 4);
    assert_eq!(array.len(), 96);
    let values = int_array_from(&array);
    for v in values {
        assert!(v < 31 || v > 34);
    }
    array.remove_range(0, array.len());
    assert_eq!(array.len(), 0);
    array.remove_range(0, 0);
    assert_eq!(array.len(), 0);
}

#[test]
fn array_ref_count() {
    let mut heap = RefHeap::new();
    let array = heap.adopt(GArray::new(false, false, std::mem::size_of::<i32>() as UInt));
    assert_eq!(heap.get(&array).element_size(), std::mem::size_of::<i32>() as UInt);
    for i in 0..100 {
        prepend_i32(heap.get_mut(&array), i);
    }
    let array2 = GArray::ref_(&mut heap, &array);
    assert!(array.same(&array2));
    GArray::unref(&mut heap, array2);
    for i in 0..100 {
        assert_eq!(heap.get(&array).index_i32(i), (100 - i - 1) as i32);
    }
    let array2 = GArray::ref_(&mut heap, &array);
    assert!(GArray::free(&mut heap, array, true).is_none());
    assert_eq!(heap.get(&array2).len(), 0);
    GArray::unref(&mut heap, array2);
}

#[test]
fn array_copy_sized() {
    let mut array1 = GArray::sized_new(false, false, std::mem::size_of::<i32>() as UInt, 1);
    let array2 = array1.copy();
    assert_eq!(array2.len(), array1.len());
    append_i32(&mut array1, 5);
    let array3 = array1.copy();
    assert_eq!(array3.len(), array1.len());
    assert_eq!(array3.index_i32(0), array1.index_i32(0));
    assert_eq!(array3.len(), 1);
    assert_eq!(array3.index_i32(0), 5);
}

#[test]
fn array_copy_zero_terminated() {
    let mut array = GArray::new(true, false, 1);
    for _ in 0..32 {
        array = array.copy();
    }
    assert_eq!(array.len(), 0);
}

#[test]
fn byte_array_append() {
    let chunk = b"abcd";
    let mut heap = RefHeap::new();
    let array = heap.adopt(ByteArray::sized_new(1000));
    for _ in 0..1000 {
        heap.get_mut(&array).append(chunk, 4);
    }
    assert_eq!(heap.get(&array).len(), 4000);
    assert_eq!(&heap.get(&array).data()[0..4], chunk);
    let clone = ByteArray::ref_(&mut heap, &array);
    let segment = ByteArray::free(&mut heap, clone, false).unwrap();
    assert_eq!(segment.len(), 4000);
    ByteArray::unref(&mut heap, array);
}

#[test]
fn byte_array_ref_count() {
    let mut heap = RefHeap::new();
    let array = heap.adopt(ByteArray::new());
    heap.get_mut(&array).append(b"abcd", 4);
    let array2 = ByteArray::ref_(&mut heap, &array);
    ByteArray::unref(&mut heap, array2);
    assert_eq!(heap.get(&array).data(), b"abcd".to_vec());
    let array2 = ByteArray::ref_(&mut heap, &array);
    ByteArray::free(&mut heap, array, true);
    assert_eq!(heap.get(&array2).len(), 0);
    ByteArray::unref(&mut heap, array2);
}

#[test]
fn array_grows_again_after_it_shrank() {
    let mut array = GArray::new(true, false, 4);
    for i in 0..20 {
        append_i32(&mut array, i + 1);
    }
    array.set_size(3);
    array.remove_index(0);
    for i in 0..20 {
        append_i32(&mut array, -i);
    }
    assert_eq!(array.len(), 22);
    assert_eq!(array.index_i32(0), 2);
    assert_eq!(array.index_i32(1), 3);
    assert_eq!(array.index_i32(2), 0);
    assert_eq!(array.index_i32(21), -19);
    array.set_size(1).set_size(4);
    assert_int_array_equal(&array, &[2, 0, 0, 0]);
}

#[test]
fn array_index_pads_short_elements() {
    let mut array = GArray::new(false, false, 1);
    array.append_vals(Some(&[0, 7, 0]), 3);
    assert_eq!(array.index_i32(0), 0);
    assert_eq!(array.index_i32(1), i32::from_ne_bytes([7, 0, 0, 0]));
    let mut wide = GArray::new(false, false, 8);
    wide.append_vals(Some(&[1, 2, 3, 4, 5, 6, 7, 8]), 1);
    assert_eq!(wide.index_i32(0), i32::from_ne_bytes([1, 2, 3, 4]));
    assert_eq!(wide.data(), vec![1, 2, 3, 4, 5, 6, 7, 8]);
}

#[test]
fn array_freed_under_another_reference_starts_anew() {
    let mut heap = RefHeap::new();
    let array = heap.adopt(GArray::new(true, false, 2));
    heap.get_mut(&array).append_vals(Some(b"abcd"), 2);
    let other = GArray::ref_(&mut heap, &array);
    let segment = GArray::free(&mut heap, array, false).unwrap();
    assert_eq!(segment, b"abcd\0\0".to_vec());
    assert!(heap.get(&other).is_empty());
    heap.get_mut(&other).append_vals(Some(b"xy"), 1);
    assert_eq!(heap.get(&other).data(), b"xy".to_vec());
    let segment = GArray::free(&mut heap, other, false).unwrap();
    assert_eq!(segment, b"xy\0\0".to_vec());
}

#[test]
fn array_insert_then_remove_gives_the_elements_back() {
    let mut array = GArray::new(false, false, 2);
    array.append_vals(Some(b"aabbcc"), 3);
    array.insert_vals(1, Some(b"xxyy"), 2);
    assert_eq!(array.data(), b"aaxxyybbcc".to_vec());
    array.remove_range(1, 2);
    assert_eq!(array.data(), b"aabbcc".to_vec());
}

#[test]
fn byte_array_edits() {
    let mut bytes = ByteArray::default();
    assert!(bytes.is_empty());
    bytes.append(b"cdef", 3).prepend(b"ab", 2);
    assert_eq!(bytes.data(), b"abcde".to_vec());
    bytes.remove_index(1);
    assert_eq!(bytes.data(), b"acde".to_vec());
    bytes.remove_index_fast(0);
    assert_eq!(bytes.data(), b"ecd".to_vec());
    bytes.remove_range(1, 1);
    assert_eq!(bytes.data(), b"ed".to_vec());
    bytes.set_size(4);
    assert_eq!(bytes.data(), vec![b'e', b'd', 0, 0]);
}
