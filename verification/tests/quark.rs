use glib_native::quark::{
    intern_static_string, intern_string, quark_from_static_string, quark_from_string,
    quark_to_string, quark_try_string, Quark, QuarkTable,
};

#[test]
fn quark_try_string_null_and_missing() {
    let table = QuarkTable::new();
    assert_eq!(quark_try_string(&table, None), 0);
    assert_eq!(quark_try_string(&table, Some("not-interned-yet-try")), 0);
}

#[test]
fn quark_from_string_interns_and_reuses() {
    let mut table = QuarkTable::new();
    let q1 = quark_from_string(&mut table, Some("hello-quark"));
    let q2 = quark_from_string(&mut table, Some("hello-quark"));
    assert_ne!(q1, 0);
    assert_eq!(q1, q2);
    assert_eq!(quark_to_string(&table, q1), Some("hello-quark"));
}

#[test]
fn quark_from_string_null_returns_zero() {
    let mut table = QuarkTable::new();
    assert_eq!(quark_from_string(&mut table, None), 0);
}

#[test]
fn quark_from_static_string_reuses_without_copy() {
    let mut table = QuarkTable::new();
    let text: &'static str = "static-quark-text";
    let q1 = quark_from_static_string(&mut table, Some(text));
    let q2 = quark_from_static_string(&mut table, Some(text));
    assert_ne!(q1, 0);
    assert_eq!(q1, q2);
    assert_eq!(quark_to_string(&table, q1), Some(text));
}

#[test]
fn quark_to_string_invalid_and_zero() {
    let table = QuarkTable::new();
    assert_eq!(quark_to_string(&table, 0), None);
    assert_eq!(quark_to_string(&table, Quark::MAX), None);
}

#[test]
fn quark_try_string_finds_existing() {
    let mut table = QuarkTable::new();
    let q = quark_from_string(&mut table, Some("try-existing"));
    assert_eq!(quark_try_string(&table, Some("try-existing")), q);
}

#[test]
fn intern_string_returns_canonical_pointer() {
    let mut table = QuarkTable::new();
    let a = intern_string(&mut table, Some("intern-me")).unwrap().to_owned();
    let b = intern_string(&mut table, Some("intern-me")).unwrap().to_owned();
    assert_eq!(a, b);
    assert_eq!(a, "intern-me");
    let first = intern_string(&mut table, Some("intern-me")).unwrap().as_ptr();
    let second = intern_string(&mut table, Some("intern-me")).unwrap().as_ptr();
    assert_eq!(first, second);
}

#[test]
fn intern_static_string_returns_input_for_static() {
    let mut table = QuarkTable::new();
    let text: &'static str = "intern-static";
    let a = intern_static_string(&mut table, Some(text)).unwrap().to_owned();
    let b = intern_static_string(&mut table, Some(text)).unwrap().to_owned();
    assert_eq!(a, text);
    assert_eq!(a, b);
    let place = intern_static_string(&mut table, Some(text)).unwrap().as_ptr();
    assert_eq!(place, text.as_ptr());
}

#[test]
fn distinct_strings_get_distinct_quarks() {
    let mut table = QuarkTable::new();
    let q1 = quark_from_string(&mut table, Some("alpha-distinct"));
    let q2 = quark_from_string(&mut table, Some("beta-distinct"));
    assert_ne!(q1, q2);
    assert_ne!(quark_to_string(&table, q1), quark_to_string(&table, q2));
}

#[test]
fn intern_string_null_returns_none() {
    let mut table = QuarkTable::new();
    assert_eq!(intern_string(&mut table, None), None);
    assert_eq!(intern_static_string(&mut table, None), None);
}

#[test]
fn quarks_count_from_one_and_stay() {
    let mut table = QuarkTable::new();
    for i in 0..5000u32 {
        let label = format!("label-{}", i);
        assert_eq!(quark_from_string(&mut table, Some(&label)), i + 1);
    }
    for i in 0..5000u32 {
        let label = format!("label-{}", i);
        assert_eq!(quark_try_string(&table, Some(&label)), i + 1);
        assert_eq!(quark_to_string(&table, i + 1), Some(label.as_str()));
    }
    assert_eq!(quark_to_string(&table, 5001), None);
    assert_eq!(quark_from_string(&mut table, Some("")), 5001);
}

#[test]
fn static_strings_are_not_copied_and_others_are() {
    let mut table = QuarkTable::new();
    let kept: &'static str = "kept";
    let copied: &'static str = "copied";
    let q1 = quark_from_static_string(&mut table, Some(kept));
    let q2 = quark_from_string(&mut table, Some(copied));
    assert_eq!(quark_to_string(&table, q1).unwrap().as_ptr(), kept.as_ptr());
    assert_ne!(quark_to_string(&table, q2).unwrap().as_ptr(), copied.as_ptr());
    let first = quark_to_string(&table, q2).unwrap().as_ptr();
    assert_eq!(intern_static_string(&mut table, Some(copied)).unwrap().as_ptr(), first);
    assert_eq!(quark_from_string(&mut table, Some(kept)), q1);
    assert!(table.can_intern(kept) && table.can_intern("new"));
}

#[test]
fn interned_strings_outlive_their_table() {
    let mut table = QuarkTable::new();
    let local = format!("made of {} parts", 3);
    let interned: &'static str = intern_string(&mut table, Some(&local)).unwrap();
    let text = quark_to_string(&table, 1).unwrap();
    drop(local);
    drop(table);
    assert_eq!(interned, "made of 3 parts");
    assert_eq!(interned.as_ptr(), text.as_ptr());
}
