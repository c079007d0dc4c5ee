use glib_native::dataset::{
    datalist_clear, datalist_foreach, datalist_id_get_data, datalist_id_remove_no_notify,
    datalist_id_set_data, datalist_id_set_data_full, datalist_init, DataList, INDEX_THRESHOLD,
};
use glib_native::ptr_array::GPointer;
use glib_native::quark::Quark;

fn str_ptr(s: &'static str) -> GPointer {
    s.as_ptr() as GPointer
}

fn int_ptr(value: i32) -> GPointer {
    value as isize as GPointer
}

fn ptr_to_int(value: GPointer) -> i32 {
    value as isize as i32
}

#[test]
fn datalist_init_empty() {
    let mut list = DataList::<u32>::new();
    datalist_init(&mut list);
    assert!(list.is_empty());
    assert_eq!(datalist_id_get_data(&list, 1), 0);
}

#[test]
fn datalist_basic_few() {
    let bogus_quark: Quark = 1_000_000_000;
    let mut list = DataList::<u32>::new();
    let data = str_ptr("one");

    datalist_init(&mut list);
    datalist_id_set_data(&mut list, bogus_quark, data);

    let ret = datalist_id_get_data(&list, bogus_quark);
    assert_eq!(ret, data);

    assert_eq!(datalist_id_get_data(&list, bogus_quark + 1), 0);
    assert_eq!(datalist_id_get_data(&list, 0), 0);

    datalist_clear(&mut list);
    assert!(list.is_empty());
}

#[test]
fn datalist_basic_many_uses_index_path() {
    let bogus_quark: Quark = 1_000_000_000;
    let mut list = DataList::<u32>::new();
    let data = str_ptr("one");

    datalist_init(&mut list);

    for i in 0..200 {
        datalist_id_set_data(&mut list, bogus_quark + 1 + i, data);
    }

    assert!(list.len() >= INDEX_THRESHOLD);
    datalist_id_set_data(&mut list, bogus_quark, data);

    let ret = datalist_id_get_data(&list, bogus_quark);
    assert_eq!(ret, data);

    datalist_clear(&mut list);
    assert!(list.is_empty());
}

#[test]
fn datalist_id_set_get_remove() {
    let mut list = DataList::<u32>::new();
    let data = str_ptr("one");
    let one = 42_u32;
    let two = 99_u32;

    datalist_init(&mut list);
    datalist_id_set_data(&mut list, one, data);

    let ret = datalist_id_get_data(&list, one);
    assert_eq!(ret, data);

    assert_eq!(datalist_id_get_data(&list, two), 0);
    assert_eq!(datalist_id_get_data(&list, 0), 0);

    datalist_id_set_data(&mut list, one, str_ptr("new-value"));
    let ret = datalist_id_get_data(&list, one);
    assert_ne!(ret, data);

    datalist_id_set_data(&mut list, one, 0);
    assert_eq!(datalist_id_get_data(&list, one), 0);

    datalist_clear(&mut list);
}

#[test]
fn datalist_clear_recursive_from_destroy() {
    let mut list = DataList::<&str>::new();
    datalist_init(&mut list);
    datalist_id_set_data_full(&mut list, 1, int_ptr(1), Some("clear"));
    datalist_id_set_data(&mut list, 2, int_ptr(2));

    for call in datalist_clear(&mut list) {
        assert_eq!(call.destroy, "clear");
        assert_eq!(ptr_to_int(call.data), 1);
        assert!(datalist_clear(&mut list).is_empty());
    }
    assert!(list.is_empty());
}

#[test]
fn datalist_destroy_on_remove_and_replace() {
    let mut list = DataList::new();

    assert!(datalist_id_set_data_full(&mut list, 1, str_ptr("test1"), Some(7u32)).is_none());
    let due = datalist_id_set_data(&mut list, 1, 0).unwrap();
    assert_eq!((due.destroy, due.data), (7, str_ptr("test1")));

    assert!(datalist_id_set_data_full(&mut list, 1, str_ptr("test1"), Some(8u32)).is_none());
    let due = datalist_id_set_data(&mut list, 1, 0).unwrap();
    assert_eq!((due.destroy, due.data), (8, str_ptr("test1")));

    assert!(datalist_clear(&mut list).is_empty());
}

#[test]
fn datalist_remove_no_notify_skips_destroy() {
    let mut list = DataList::new();
    datalist_id_set_data_full(&mut list, 1, str_ptr("test1"), Some(7u32));

    let stolen = datalist_id_remove_no_notify(&mut list, 1);
    assert_eq!(stolen, str_ptr("test1"));
    assert_eq!(datalist_id_get_data(&list, 1), 0);
    assert!(datalist_clear(&mut list).is_empty());
}

#[test]
fn datalist_foreach_visits_all_entries() {
    let mut list = DataList::new();

    datalist_id_set_data_full(&mut list, 1, int_ptr(1), Some(7u32));
    datalist_id_set_data(&mut list, 2, int_ptr(2));
    datalist_id_set_data(&mut list, 3, int_ptr(3));

    let (mut list, count) = datalist_foreach(list, |_, _, list, count: u32| (list, count + 1), 0);
    assert_eq!(count, 3);

    assert_eq!(datalist_clear(&mut list).len(), 1);
}

#[test]
fn datalist_foreach_skips_removed_during_iteration() {
    let mut list = DataList::<u32>::new();
    datalist_id_set_data(&mut list, 1, int_ptr(1));
    datalist_id_set_data(&mut list, 2, int_ptr(2));
    datalist_id_set_data(&mut list, 3, int_ptr(3));

    let (list, seen) = datalist_foreach(
        list,
        |key, data, mut list, mut seen: Vec<(Quark, i32)>| {
            seen.push((key, ptr_to_int(data)));
            if key == 2 {
                datalist_id_set_data(&mut list, 3, 0);
            }
            (list, seen)
        },
        Vec::new(),
    );

    assert_eq!(seen.len(), 2);
    assert_eq!(datalist_id_get_data(&list, 3), 0);
    assert_eq!(list.len(), 2);
}

#[test]
fn datalist_clear_invokes_all_destroy_callbacks() {
    let mut list = DataList::new();

    for key in 1..=3 {
        datalist_id_set_data_full(&mut list, key, int_ptr(key as i32), Some(key));
    }

    let due = datalist_clear(&mut list);
    assert_eq!(due.len(), 3);
    assert!(list.is_empty());
}

#[test]
fn datalist_replacing_ends_the_old_data() {
    let mut list = DataList::default();
    datalist_id_set_data_full(&mut list, 5, 100, Some("first"));
    let due = datalist_id_set_data_full(&mut list, 5, 200, Some("second")).unwrap();
    assert_eq!((due.destroy, due.data), ("first", 100));
    assert_eq!(datalist_id_get_data(&list, 5), 200);
    assert_eq!(list.len(), 1);
    for key in 100..300 {
        datalist_id_set_data(&mut list, key, key as GPointer);
    }
    assert_eq!(datalist_id_remove_no_notify(&mut list, 150), 150);
    assert_eq!(datalist_id_get_data(&list, 150), 0);
    assert_eq!(datalist_id_get_data(&list, 299), 299);
    assert_eq!(datalist_id_get_data(&list, 5), 200);
    assert_eq!(datalist_id_remove_no_notify(&mut list, 150), 0);
}

#[test]
fn datalist_foreach_walks_long_lists() {
    let mut list = DataList::<u32>::new();
    for key in 1..=100_000 {
        datalist_id_set_data(&mut list, key, key as GPointer);
    }
    let (list, sum) =
        datalist_foreach(list, |_, data, list, sum: u64| (list, sum + data as u64), 0);
    assert_eq!(sum, 5_000_050_000);
    assert_eq!(list.len(), 100_000);
}
