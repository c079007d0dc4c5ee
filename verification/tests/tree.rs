use glib_native::notify::DestroyNotice;
use glib_native::ptr_array::GPointer;
use glib_native::refcount::RefHeap;
use glib_native::tree::{GTreeNode, KeyCompare, Plain, TraverseType, Tree};

const CHARS: &[u8] = b"0123456789ABCDEFGHIJKLMNOPQRSTUVWXYZabcdefghijklmnopqrstuvwxyz";
const CHARS2: &[u8] = b"0123456789abcdefghijklmnopqrstuvwxyz";

type PlainTree = Tree<Plain<fn(GPointer, GPointer) -> i32>>;

/// An address of a place that holds a byte; places with the same byte differ in `place`.
fn at(byte: u8, place: usize) -> GPointer {
    ((place + 1) << 8) | byte as usize
}

fn byte_of(p: GPointer) -> u8 {
    (p & 0xff) as u8
}

fn char_key(i: usize) -> GPointer {
    at(CHARS[i], 0)
}

fn my_compare(a: GPointer, b: GPointer) -> i32 {
    byte_of(a) as i32 - byte_of(b) as i32
}

fn my_compare_data(a: GPointer, b: GPointer, data: GPointer) -> i32 {
    assert_eq!(data, 123);
    my_compare(a, b)
}

fn my_compare_no_data(a: GPointer, b: GPointer, _data: GPointer) -> i32 {
    my_compare(a, b)
}

fn my_search(a: GPointer, b: GPointer) -> i32 {
    my_compare(b, a)
}

fn new_tree() -> PlainTree {
    Tree::new(my_compare as fn(GPointer, GPointer) -> i32)
}

fn fill<C: KeyCompare>(tree: &mut Tree<C>) {
    for i in 0..CHARS.len() {
        let key = char_key(i);
        tree.insert(key, key);
    }
}

fn text<C: KeyCompare>(tree: &Tree<C>) -> Vec<u8> {
    tree.foreach(
        |key, value, mut seen: Vec<u8>| {
            assert_eq!(byte_of(key), byte_of(value));
            seen.push(byte_of(key));
            (seen, false)
        },
        Vec::new(),
    )
}

fn my_traverse<C: KeyCompare>(tree: &Tree<C>) -> u8 {
    tree.foreach(
        |key, _, _: u8| {
            assert!(byte_of(key) > 0);
            (byte_of(key), byte_of(key) == b'd')
        },
        0,
    )
}

#[test]
fn tree_search() {
    let mut tree = Tree::new_with_data(my_compare_data, 123);
    fill(&mut tree);

    assert_eq!(my_traverse(&tree), b'd');
    assert_eq!(tree.nnodes() as usize, CHARS.len());
    assert_eq!(tree.height(), 6);
    assert_eq!(text(&tree), CHARS);

    for i in 0..26 {
        assert!(tree.remove(at(CHARS[i + 10], 1)));
    }

    assert!(!tree.remove(at(0, 0)));

    assert_eq!(my_traverse(&tree), b'd');
    assert_eq!(tree.nnodes() as usize, CHARS2.len());
    assert_eq!(tree.height(), 6);
    assert_eq!(text(&tree), CHARS2);

    for i in (0..26).rev() {
        let key = char_key(i + 10);
        tree.insert(key, key);
    }
    assert_eq!(text(&tree), CHARS);

    for c in [b'0', b'A', b'a', b'z'] {
        let key = at(c, 2);
        let p = tree.lookup(key);
        assert_ne!(p, 0);
        assert_eq!(byte_of(p), c);

        let mut d = 0;
        let mut p2 = 0;
        assert!(tree.lookup_extended(key, Some(&mut d), Some(&mut p2)));
        assert_eq!(byte_of(d), c);
        assert_eq!(byte_of(p2), c);
        assert_ne!(d, key);
    }

    for c in [b'!', b'=', b'|'] {
        assert_eq!(tree.lookup(at(c, 0)), 0);
    }

    for c in [b'0', b'A', b'a', b'z', b'!', b'=', b'|'] {
        let p = tree.search(my_search, at(c, 3));
        if c == b'!' || c == b'=' || c == b'|' {
            assert_eq!(p, 0);
        } else {
            assert_ne!(p, 0);
            assert_eq!(byte_of(p), c);
        }
    }
}

#[test]
fn tree_remove() {
    let mut tree = Tree::new_full(my_compare_no_data, 0, true, true);
    fill(&mut tree);
    assert!(tree.take_notices().is_empty());

    let c = at(b'0', 1);
    tree.insert(c, c);
    let due = tree.take_notices();
    assert!(due.contains(&DestroyNotice::Key(c)));
    assert!(due.contains(&DestroyNotice::Value(char_key(0))));
    assert_eq!(due.len(), 2);

    let d = at(b'1', 1);
    tree.replace(d, d);
    let due = tree.take_notices();
    assert!(due.contains(&DestroyNotice::Key(char_key(1))));
    assert!(due.contains(&DestroyNotice::Value(char_key(1))));
    assert_eq!(due.len(), 2);

    let e = at(0xff, 1);
    assert!(tree.insert_node(e, e).is_some());
    assert!(tree.take_notices().is_empty());

    assert!(tree.remove(at(b'2', 1)));
    let due = tree.take_notices();
    assert!(due.contains(&DestroyNotice::Key(char_key(2))));
    assert!(due.contains(&DestroyNotice::Value(char_key(2))));
    assert_eq!(due.len(), 2);

    assert!(tree.steal(at(b'3', 1)));
    assert!(tree.take_notices().is_empty());

    let f = at(b'4', 1);
    assert!(tree.replace_node(f, f).is_some());
    let due = tree.take_notices();
    assert!(due.contains(&DestroyNotice::Key(char_key(4))));
    assert!(due.contains(&DestroyNotice::Value(char_key(4))));
    assert_eq!(due.len(), 2);

    for c in b"omkjigfedba" {
        assert!(tree.remove(at(*c, 1)));
    }
    assert_eq!(tree.nnodes(), 50);
    assert_eq!(tree.release().len(), 2 * 11 + 2 * 50);
}

#[test]
fn tree_remove_all() {
    let mut tree = Tree::new_full(my_compare_no_data, 0, true, true);
    fill(&mut tree);

    tree.remove_all();
    let due = tree.take_notices();
    let keys = due.iter().filter(|notice| matches!(notice, DestroyNotice::Key(_))).count();
    assert_eq!(keys, CHARS.len());
    assert_eq!(due.len() - keys, CHARS.len());
    assert_eq!(tree.height(), 0);
    assert_eq!(tree.nnodes(), 0);
    assert!(tree.release().is_empty());
}

#[test]
fn tree_destroy_ref() {
    let mut heap = RefHeap::new();
    let tree = heap.adopt(new_tree());
    fill(heap.get_mut(&tree));
    assert_eq!(heap.get(&tree).nnodes() as usize, CHARS.len());

    let tree_ref = Tree::ref_(&mut heap, &tree);
    Tree::destroy(&mut heap, tree);
    assert_eq!(heap.get(&tree_ref).nnodes(), 0);
    assert!(Tree::unref(&mut heap, tree_ref).is_empty());
}

#[test]
fn tree_traverse_orders() {
    let orders: [(TraverseType, i32, &str); 3] = [
        (
            TraverseType::InOrder,
            -1,
            "0123456789ABCDEFGHIJKLMNOPQRSTUVWXYZabcdefghijklmnopqrstuvwxyz",
        ),
        (
            TraverseType::PreOrder,
            -1,
            "VF73102546B98ADCENJHGILKMRPOQTSUldZXWYbachfegjiktpnmorqsxvuwyz",
        ),
        (
            TraverseType::PostOrder,
            -1,
            "02146538A9CEDB7GIHKMLJOQPSUTRNFWYXacbZegfikjhdmonqsrpuwvzyxtlV",
        ),
    ];

    let mut tree = new_tree();
    fill(&mut tree);

    let collect = |key: GPointer, _: GPointer, data: (String, i32)| {
        let (mut buf, mut count) = data;
        buf.push(byte_of(key) as char);
        let stop = if count >= 0 {
            count -= 1;
            count == 0
        } else {
            false
        };
        ((buf, count), stop)
    };
    for (traverse, limit, expected) in orders {
        let (buf, _) = tree.traverse(collect, traverse, (String::new(), limit));
        assert_eq!(buf, expected, "traverse type {:?}", traverse);
    }
    let (buf, _) = tree.traverse(collect, TraverseType::PreOrder, (String::new(), 5));
    assert_eq!(buf, "VF731");
    let (buf, _) = tree.traverse(collect, TraverseType::PostOrder, (String::new(), 3));
    assert_eq!(buf, "021");
    let (buf, _) = tree.traverse(collect, TraverseType::LevelOrder, (String::new(), -1));
    assert_eq!(buf, "");
}

#[test]
fn tree_insert_sorted_order() {
    let mut tree = new_tree();
    fill(&mut tree);
    assert_eq!(text(&tree), CHARS);

    let mut tree = new_tree();
    for i in (0..CHARS.len()).rev() {
        let key = char_key(i);
        tree.insert(key, key);
    }
    assert_eq!(text(&tree), CHARS);
}

#[test]
fn tree_bounds() {
    let mut tree = new_tree();

    for j in 0..10 {
        let key = at(b'0' + j, 0);
        let node = tree.insert_node(key, key).expect("insert");
        assert_eq!(PlainTree::node_key(node), key);
        assert_eq!(PlainTree::node_value(node), key);
    }
    for j in 0..26 {
        let key = at(b'A' + j, 0);
        tree.insert_node(key, key);
    }
    for j in 0..26 {
        let key = at(b'a' + j, 0);
        tree.insert_node(key, key);
    }

    assert_eq!(tree.nnodes(), 62);
    assert!(tree.height() >= 6);
    assert!(tree.height() <= 8);

    assert_bound(&tree, b'a', b'a', true);
    assert_bound(&tree, b'z', b'z', true);
    assert_bound(&tree, b'0' - 1, b'0', true);
    assert_bound(&tree, b'z' + 1, 0, true);
    assert_bound(&tree, b'a', b'b', false);
    assert_bound(&tree, b'z', 0, false);

    for j in 0..10 {
        tree.remove(at(b'0' + j, 1));
    }
    assert_eq!(tree.nnodes(), 52);
    assert_bound(&tree, b'A', b'A', true);
    assert_bound(&tree, b'9', b'A', false);
}

fn assert_bound(tree: &PlainTree, query: u8, expected: u8, lower: bool) {
    let node: Option<&GTreeNode> = if lower {
        tree.lower_bound(at(query, 5))
    } else {
        tree.upper_bound(at(query, 5))
    };
    if expected == 0 {
        assert!(node.is_none());
    } else {
        let node = node.expect("bound node");
        assert_eq!(byte_of(PlainTree::node_key(node)), expected);
    }
}

#[test]
fn tree_new_and_lookup_miss() {
    let tree = new_tree();
    assert_eq!(tree.height(), 0);
    assert_eq!(tree.nnodes(), 0);
    assert_eq!(tree.lookup(at(b'x', 0)), 0);
}

#[test]
fn tree_node_navigation() {
    let mut tree = new_tree();
    for key in b"ace" {
        let p = at(*key, 0);
        tree.insert(p, p);
    }
    let first = tree.node_first().expect("first");
    let last = tree.node_last().expect("last");
    assert_eq!(byte_of(PlainTree::node_key(first)), b'a');
    assert_eq!(byte_of(PlainTree::node_key(last)), b'e');
    let mid = tree.node_next(first).expect("next");
    assert_eq!(byte_of(PlainTree::node_key(mid)), b'c');
    assert!(std::ptr::eq(tree.node_previous(mid).unwrap(), first));
    assert!(std::ptr::eq(tree.node_next(mid).unwrap(), last));
    assert!(tree.node_previous(first).is_none());
    assert!(tree.node_next(last).is_none());
}

#[test]
fn tree_foreach_early_stop() {
    let mut tree = new_tree();
    for key in b"abcd" {
        let p = at(*key, 0);
        tree.insert(p, p);
    }
    let seen = tree.foreach(
        |key, _, mut seen: String| {
            let c = byte_of(key) as char;
            seen.push(c);
            (seen, c == 'b')
        },
        String::new(),
    );
    assert_eq!(seen, "ab");
    let nodes = tree.foreach_node(
        |node: &GTreeNode, mut seen: String| {
            seen.push(byte_of(node.value) as char);
            (seen, node.key == at(b'c', 0))
        },
        String::new(),
    );
    assert_eq!(nodes, "abc");
}

#[test]
fn tree_replace_vs_insert_key_destroy() {
    let mut tree = Tree::new_full(my_compare_no_data, 0, true, false);
    let a = at(b'x', 0);
    let b = at(b'x', 1);
    tree.insert(a, 0);
    assert!(tree.take_notices().is_empty());
    tree.insert(a, 0);
    assert_eq!(tree.take_notices(), vec![DestroyNotice::Key(a)]);
    tree.replace(b, 0);
    assert_eq!(tree.take_notices(), vec![DestroyNotice::Key(a)]);
    assert_eq!(tree.lookup_node(a).unwrap().key, b);
}

#[test]
fn tree_stays_balanced() {
    let mut tree = new_tree();
    for i in 0..=255u8 {
        tree.insert(at(i.wrapping_mul(37), 0), i as usize);
    }
    assert_eq!(tree.nnodes(), 256);
    assert!(tree.height() <= 11);
    for i in 0..200u8 {
        assert!(tree.remove(at(i, 0)));
        assert!(!tree.steal(at(i, 0)));
    }
    assert_eq!(tree.nnodes(), 56);
    assert!(tree.height() <= 8);
    let mut node = tree.node_first();
    let mut expected = 200u32;
    while let Some(here) = node {
        assert_eq!(byte_of(here.key) as u32, expected);
        expected += 1;
        node = tree.node_next(here);
    }
    assert_eq!(expected, 256);
    assert_eq!(tree.search_node(my_search, at(210, 9)).unwrap().key, at(210, 0));
}
