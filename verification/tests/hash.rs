use glib_native::hash::{
    direct_equal, direct_hash, int64_equal, int64_hash, int_equal, int_hash, str_equal, str_hash,
    HashTable,
};
use glib_native::notify::DestroyNotice;
use glib_native::ptr_array::GPointer;
use glib_native::refcount::RefHeap;
use std::cell::RefCell;

fn int_to_ptr(n: i32) -> GPointer {
    n as isize as GPointer
}

fn ptr_to_int(p: GPointer) -> i32 {
    p as isize as i32
}

struct Pool {
    texts: RefCell<Vec<Vec<u8>>>,
}

impl Pool {
    fn new() -> Self {
        Pool { texts: RefCell::new(Vec::new()) }
    }

    fn put(&self, text: &str) -> GPointer {
        let mut texts = self.texts.borrow_mut();
        let mut bytes = text.as_bytes().to_vec();
        bytes.push(0);
        texts.push(bytes);
        texts.len()
    }

    fn get(&self, p: GPointer) -> String {
        let bytes = self.texts.borrow()[p - 1].clone();
        String::from_utf8(bytes[..bytes.len() - 1].to_vec()).unwrap()
    }

    fn hash(&self, p: GPointer) -> u32 {
        str_hash(Some(&self.texts.borrow()[p - 1]))
    }

    fn equal(&self, a: GPointer, b: GPointer) -> bool {
        let texts = self.texts.borrow();
        str_equal(Some(&texts[a - 1]), Some(&texts[b - 1]))
    }
}

#[test]
fn direct_hash_lookup() {
    let mut h = HashTable::new(
        None::<fn(GPointer) -> u32>,
        None::<fn(GPointer, GPointer) -> bool>,
    );
    for i in 1..=20 {
        assert!(h.insert(int_to_ptr(i), int_to_ptr(i + 42)));
    }
    assert_eq!(h.size(), 20);
    for i in 1..=20 {
        let rc = ptr_to_int(h.lookup(int_to_ptr(i)));
        assert_eq!(rc - 42, i);
    }
    assert!(h.release().is_empty());
}

#[test]
fn direct_hash_with_funcs() {
    let mut h = HashTable::new(Some(direct_hash), Some(direct_equal));
    for i in 1..=20 {
        h.insert(int_to_ptr(i), int_to_ptr(i + 42));
    }
    assert_eq!(h.size(), 20);
    for i in 1..=20 {
        assert_eq!(ptr_to_int(h.lookup(int_to_ptr(i))) - 42, i);
    }
}

#[test]
fn int_hash_lookup() {
    let mut values: Vec<i32> = Vec::new();
    for i in 0..20 {
        values.push(i + 42);
    }
    for i in 0..20 {
        values.push(i + 42);
    }
    let mut h = HashTable::new(
        Some(|p: GPointer| int_hash(&values[p])),
        Some(|a: GPointer, b: GPointer| int_equal(&values[a], &values[b])),
    );
    for i in 0..20 {
        h.insert(i, int_to_ptr(i as i32 + 42));
    }
    assert_eq!(h.size(), 20);
    for i in 0..20 {
        let key = i + 20;
        assert_eq!(ptr_to_int(h.lookup(key)), i as i32 + 42);
    }
}

#[test]
fn int64_hash_no_high_word_collision() {
    let m: i64 = 722;
    let n: i64 = (2003i64 << 32) + 722;
    assert_ne!(int64_hash(&m), int64_hash(&n));
}

#[test]
fn str_hash_insert_lookup_remove() {
    let pool = Pool::new();
    let mut h = HashTable::new_full(
        Some(|p: GPointer| pool.hash(p)),
        Some(|a: GPointer, b: GPointer| pool.equal(a, b)),
        false,
        false,
    );
    for i in 0..20 {
        let key = pool.put(&i.to_string());
        let val = pool.put(&format!("{i} value"));
        h.insert(key, val);
    }
    assert_eq!(h.size(), 20);

    for i in 0..20 {
        let key = pool.put(&i.to_string());
        let v = h.lookup(key);
        assert_ne!(v, 0);
        assert_eq!(pool.get(v), format!("{i} value"));
    }

    let remove_key = pool.put("3");
    assert!(h.remove(remove_key));
    assert_eq!(h.size(), 19);

    h.foreach_remove(|key, _| {
        let n: i32 = pool.get(key).parse().unwrap();
        n % 2 == 0
    });
    assert_eq!(h.size(), 9);
}

#[test]
fn set_add_and_contains() {
    let pool = Pool::new();
    let mut h = HashTable::new_full(
        Some(|p: GPointer| pool.hash(p)),
        Some(|a: GPointer, b: GPointer| pool.equal(a, b)),
        true,
        false,
    );

    for i in (2..5000).step_by(7) {
        let s = pool.put(&i.to_string());
        assert!(h.add(s));
    }
    let again = pool.put("2");
    assert!(!h.add(again));
    assert_eq!(h.size(), (2..5000).step_by(7).count() as u32);

    let key = pool.put("2");
    assert!(h.contains(key));
    assert!(!h.contains(pool.put("a")));

    h.insert(pool.put("a"), pool.put("b"));
    assert_eq!(pool.get(h.lookup(pool.put("a"))), "b");
    assert_eq!(h.take_notices().len(), 1);
    assert_eq!(h.release().len(), (2..5000).step_by(7).count() + 1);
}

#[test]
fn find_and_foreach() {
    let pool = Pool::new();
    let mut h = HashTable::new(
        Some(|p: GPointer| pool.hash(p)),
        Some(|a: GPointer, b: GPointer| pool.equal(a, b)),
    );
    for ch in ['a', 'b', 'c', 'd', 'e', 'f'] {
        let k = pool.put(&ch.to_string());
        let v = pool.put(&ch.to_string().to_uppercase());
        h.insert(k, v);
    }

    let found = h.find(|key, _| pool.get(key) == "c");
    assert_eq!(pool.get(found), "C");
    assert_eq!(h.find(|_, _| false), 0);

    let seen = h.foreach(
        |key, _, mut seen: [bool; 6]| {
            let idx = (pool.get(key).as_bytes()[0] - b'a') as usize;
            seen[idx] = true;
            seen
        },
        [false; 6],
    );
    assert!(seen.iter().all(|&v| v));
}

#[test]
fn lookup_extended_and_steal_extended() {
    let pool = Pool::new();
    let mut h = HashTable::new_full(
        Some(|p: GPointer| pool.hash(p)),
        Some(|a: GPointer, b: GPointer| pool.equal(a, b)),
        true,
        true,
    );

    for ch in ['a', 'b', 'c'] {
        let k = pool.put(&ch.to_string());
        let v = pool.put(&ch.to_string().to_uppercase());
        h.insert(k, v);
    }

    let mut orig_key = 0;
    let mut value = 0;
    let lookup = pool.put("b");
    assert!(h.lookup_extended(lookup, Some(&mut orig_key), Some(&mut value)));
    assert_eq!(pool.get(orig_key), "b");
    assert_ne!(orig_key, lookup);
    assert_eq!(pool.get(value), "B");

    let mut stolen_key = 0;
    let mut stolen_value = 0;
    let steal_lookup = pool.put("a");
    assert!(h.steal_extended(steal_lookup, Some(&mut stolen_key), Some(&mut stolen_value)));
    assert_eq!(pool.get(stolen_key), "a");
    assert_eq!(pool.get(stolen_value), "A");
    assert_eq!(h.size(), 2);
    assert!(h.take_notices().is_empty());
    assert_eq!(h.release().len(), 4);
}

#[test]
fn iter_remove_and_replace() {
    let globals: Vec<i32> = (0..100).collect();
    let mut h = HashTable::new(
        Some(|p: GPointer| int_hash(&globals[p])),
        Some(|a: GPointer, b: GPointer| int_equal(&globals[a], &globals[b])),
    );
    for i in 0..100 {
        h.insert(i, i);
    }

    let mut iter = h.iter();
    let mut key = 0;
    let mut value = 0;
    let mut kept = 0u32;
    while iter.next(Some(&mut key), Some(&mut value)) {
        let n = globals[key];
        assert_eq!(key, value);
        if n % 2 != 0 {
            iter.remove();
        } else {
            kept += 1;
        }
    }
    assert_eq!(h.size(), kept);
    assert_eq!(kept, 50);

    let mut iter = h.iter();
    while iter.next(Some(&mut key), Some(&mut value)) {
        iter.replace(99);
    }
    h.foreach(
        |_, v, ()| {
            assert_eq!(globals[v], 99);
        },
        (),
    );
}

#[test]
fn foreach_steal_moves_entries() {
    let pool = Pool::new();
    let mut h = HashTable::new_full(
        Some(|p: GPointer| pool.hash(p)),
        Some(|a: GPointer, b: GPointer| pool.equal(a, b)),
        true,
        true,
    );

    for ch in ['a', 'b', 'c', 'd', 'e', 'f'] {
        let k = pool.put(&ch.to_string());
        let v = pool.put(&ch.to_string().to_uppercase());
        h.insert(k, v);
    }

    let stolen = h.foreach_steal(|key, _value| {
        matches!(pool.get(key).as_bytes()[0], b'a' | b'c' | b'e')
    });
    assert_eq!(stolen, 3);
    assert_eq!(h.size(), 3);
    assert!(h.take_notices().is_empty());
}

#[test]
fn ref_unref_and_destroy_notifies() {
    let pool = Pool::new();
    let mut heap = RefHeap::new();
    let table = heap.adopt(HashTable::new_full(
        Some(|p: GPointer| pool.hash(p)),
        Some(|a: GPointer, b: GPointer| pool.equal(a, b)),
        false,
        true,
    ));
    let mut destroyed = 0;

    let h = heap.get_mut(&table);
    for (key, value) in [("abc", "ABC"), ("cde", "CDE"), ("xyz", "XYZ")] {
        h.insert(pool.put(key), pool.put(value));
    }

    let mut iter = h.iter();
    let mut key = 0;
    let mut value = 0;
    while iter.next(Some(&mut key), Some(&mut value)) {
        if pool.get(key) == "abc" {
            iter.steal();
        }
    }
    destroyed += h.take_notices().len();
    assert_eq!(destroyed, 0);

    let extra = HashTable::ref_(&mut heap, &table);
    destroyed += HashTable::destroy(&mut heap, table).len();
    assert_eq!(heap.get(&extra).size(), 0);
    destroyed += heap.get_mut(&extra).take_notices().len();
    assert_eq!(destroyed, 2);

    heap.get_mut(&extra).insert(pool.put("uvw"), pool.put("UVW"));
    destroyed += HashTable::unref(&mut heap, extra).len();
    assert_eq!(destroyed, 3);
}

#[test]
fn remove_all_steal_and_remove() {
    let pool = Pool::new();
    let mut h = HashTable::new_full(
        Some(|p: GPointer| pool.hash(p)),
        Some(|a: GPointer, b: GPointer| pool.equal(a, b)),
        true,
        true,
    );

    h.insert(pool.put("abc"), pool.put("ABC"));
    h.insert(pool.put("cde"), pool.put("CDE"));
    h.steal_all();
    assert!(h.take_notices().is_empty());

    h.insert(pool.put("xyz"), pool.put("XYZ"));
    assert!(!h.steal(pool.put("nosuch")));
    assert!(h.steal(pool.put("xyz")));

    h.insert(pool.put("a"), pool.put("A"));
    h.insert(pool.put("b"), pool.put("B"));
    h.remove_all();
    let due = h.take_notices();
    let keys = due.iter().filter(|notice| matches!(notice, DestroyNotice::Key(_))).count();
    assert_eq!(keys, 2);
    assert_eq!(due.len() - keys, 2);
    assert!(h.release().is_empty());
}

#[test]
fn str_hash_matches_bytes_djb2() {
    let mut expected: u32 = 5381;
    for byte in b"hello" {
        expected = expected.wrapping_mul(33).wrapping_add(*byte as u32);
    }
    assert_eq!(str_hash(Some(b"hello\0")), expected);
    assert_eq!(str_hash(Some(b"hello")), 261238937);
}

#[test]
fn large_insert_remove_stress() {
    let globals: Vec<i32> = (0..10_000).collect();
    let mut h = HashTable::new(
        Some(|p: GPointer| int_hash(&globals[p])),
        Some(|a: GPointer, b: GPointer| int_equal(&globals[a], &globals[b])),
    );
    for i in 0..10_000 {
        h.insert(i, i);
    }
    assert_eq!(h.size(), 10_000);

    let target = 120i32;
    let found = h.find(|_, value| globals[value] == target);
    assert_eq!(globals[found], target);

    h.foreach_remove(|_, value| globals[value] % 2 != 0);
    assert_eq!(h.size(), 5000);
}

#[test]
fn insert_keeps_and_replace_takes_the_new_key() {
    let pool = Pool::new();
    let mut h = HashTable::new_full(
        Some(|p: GPointer| pool.hash(p)),
        Some(|a: GPointer, b: GPointer| pool.equal(a, b)),
        true,
        true,
    );
    let first = pool.put("k");
    let second = pool.put("k");
    let third = pool.put("k");
    assert!(h.insert(first, 101));
    assert!(!h.insert(second, 102));
    assert_eq!(h.take_notices(), vec![DestroyNotice::Key(second), DestroyNotice::Value(101)]);
    assert!(!h.replace(third, 103));
    assert_eq!(h.take_notices(), vec![DestroyNotice::Key(first), DestroyNotice::Value(102)]);
    let mut key = 0;
    assert!(h.lookup_extended(first, Some(&mut key), None));
    assert_eq!(key, third);
    assert!(h.remove(second));
    assert!(!h.remove(second));
    assert_eq!(h.take_notices(), vec![DestroyNotice::Key(third), DestroyNotice::Value(103)]);
    assert_eq!(h.lookup(first), 0);
    assert!(!h.contains(first));
}

#[test]
fn hash_and_equality_functions() {
    assert_eq!(direct_hash(77), 77);
    assert!(direct_equal(5, 5) && !direct_equal(5, 6));
    assert_eq!(int_hash(&-1), u32::MAX);
    assert!(int_equal(&3, &3) && !int_equal(&3, &4));
    assert_eq!(int64_hash(&722), 722);
    assert_eq!(int64_hash(&((2003i64 << 32) + 722)), 2003 ^ 722);
    assert!(int64_equal(&3, &3) && !int64_equal(&3, &4));
    assert!(str_equal(Some(b"a\0x"), Some(b"a\0y")));
    assert!(!str_equal(Some(b"a\0"), Some(b"ab\0")));
    assert!(str_equal(None, None));
    assert!(!str_equal(None, Some(b"")));
    assert_eq!(str_hash(Some(b"\0")), 5381);
}
