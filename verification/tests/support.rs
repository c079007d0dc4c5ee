use glib_native::arena::{place, vacate};
use glib_native::growth::nearest_pow;
use glib_native::number::{parse_signed, read_integer, trim, write_number, IntegerText};
use glib_native::refcount::RefHeap;
use glib_native::sort::merge_sort;
use glib_native::text::{joined3, same_text, skipped, starts_with, starts_with_char};

#[test]
fn nearest_powers_of_two() {
    let cases = [(1, 1), (2, 2), (3, 4), (4, 4), (5, 8), (127, 128), (128, 128), (129, 256)];
    for (num, power) in cases {
        assert_eq!(nearest_pow(num), power);
    }
    assert_eq!(nearest_pow(usize::MAX / 2), usize::MAX / 2 + 1);
}

#[test]
fn sorting_keeps_equal_elements_in_order() {
    let items = vec![(3, 'a'), (1, 'b'), (2, 'c'), (3, 'd'), (1, 'e'), (2, 'f')];
    let sorted = merge_sort(&items, &|a: (i32, char), b: (i32, char)| a.0 - b.0);
    assert_eq!(sorted, vec![(1, 'b'), (1, 'e'), (2, 'c'), (2, 'f'), (3, 'a'), (3, 'd')]);
    let reversed = merge_sort(&items, &|a: (i32, char), b: (i32, char)| b.0 - a.0);
    assert_eq!(reversed, vec![(3, 'a'), (3, 'd'), (2, 'c'), (2, 'f'), (1, 'b'), (1, 'e')]);
    let empty: Vec<u8> = Vec::new();
    assert_eq!(merge_sort(&empty, &|_, _| 0), empty);
}

#[test]
fn shared_objects_end_with_their_last_reference() {
    let mut heap = RefHeap::new();
    let a = heap.adopt("first".to_owned());
    let b = heap.adopt("second".to_owned());
    assert!(!a.same(&b));
    let more = heap.add_ref(&a);
    assert!(a.same(&more));
    heap.get_mut(&more).push('!');
    assert_eq!(heap.get(&a), "first!");
    assert_eq!(heap.release(more), None);
    assert_eq!(heap.get(&a), "first!");
    assert_eq!(heap.release(a), Some("first!".to_owned()));
    let c = heap.adopt("third".to_owned());
    assert_eq!(heap.get(&b), "second");
    assert_eq!(heap.get(&c), "third");
}

#[test]
fn places_are_used_again() {
    let mut places: Vec<Option<char>> = Vec::new();
    let mut free: Vec<usize> = Vec::new();
    assert_eq!(place(&mut places, &mut free, 'a'), 0);
    assert_eq!(place(&mut places, &mut free, 'b'), 1);
    vacate(&mut places, &mut free, 0);
    assert_eq!(places, vec![None, Some('b')]);
    assert_eq!(place(&mut places, &mut free, 'c'), 0);
    assert_eq!(place(&mut places, &mut free, 'd'), 2);
    assert_eq!(places, vec![Some('c'), Some('b'), Some('d')]);
}

#[test]
fn trimming_takes_white_space_off() {
    for code in 0..=0x10ffffu32 {
        if let Some(c) = char::from_u32(code) {
            let text = format!("{}x{}", c, c);
            assert_eq!(trim(&text), text.trim());
        }
    }
    assert_eq!(trim(" \t a b \n"), "a b");
    assert_eq!(trim("   "), "");
}

#[test]
fn signed_numbers() {
    let texts = [
        "0",
        "12",
        "+12",
        "-12",
        "",
        "-",
        "+",
        "--1",
        "1_0",
        "7f",
        "7F",
        "zz",
        "9223372036854775807",
        "9223372036854775808",
        "-9223372036854775808",
        "-9223372036854775809",
        "\u{663}",
    ];
    for text in texts {
        for radix in [2, 8, 10, 16, 36] {
            assert_eq!(parse_signed(text, radix), i64::from_str_radix(text, radix).ok());
        }
    }
}

#[test]
fn integers_in_three_notations() {
    assert!(matches!(read_integer(" 42 "), IntegerText::Value(42)));
    assert!(matches!(read_integer("-0x10"), IntegerText::Value(-16)));
    assert!(matches!(read_integer("017"), IntegerText::Value(15)));
    assert!(matches!(read_integer("0"), IntegerText::Value(0)));
    assert!(matches!(read_integer("-2147483648"), IntegerText::Value(i32::MIN)));
    assert!(matches!(read_integer("2147483648"), IntegerText::OutOfRange));
    assert!(matches!(read_integer(" \t"), IntegerText::Blank));
    assert!(matches!(read_integer("08"), IntegerText::BadDigits(text) if text == "08"));
    assert!(matches!(read_integer("0xg"), IntegerText::BadDigits(text) if text == "g"));
}

#[test]
fn numbers_are_written() {
    assert_eq!(write_number(0, 10), "0");
    assert_eq!(write_number(4294967295, 10), "4294967295");
    assert_eq!(write_number(0xdead, 16), "dead");
    assert_eq!(write_number(5, 2), "101");
}

#[test]
fn texts() {
    assert_eq!(joined3("a", "", "\u{e9}"), "a\u{e9}");
    assert!(same_text("x", "x") && !same_text("x", "y"));
    assert!(starts_with("--help", "--") && !starts_with("-", "--"));
    assert!(starts_with_char("-x", '-') && !starts_with_char("", '-'));
    assert_eq!(skipped("\u{e9}ab", 1), "ab");
}
