use glib_native::error::{
    clear_error, error_copy, error_free, error_matches, error_new, error_new_literal,
    prefix_error, prefix_error_literal, propagate_error, propagate_prefixed_error, set_error,
    set_error_literal, steal_error, Error, ERROR_OVERWRITTEN_WARNING,
};
use glib_native::quark::{quark_from_static_string, Quark, QuarkTable};

fn markup_error_quark() -> Quark {
    let mut table = QuarkTable::new();
    quark_from_static_string(&mut table, Some("g-markup-error-quark"))
}

#[test]
fn new_literal_stores_message_verbatim() {
    let err = error_new_literal(markup_error_quark(), 1, "%s %d %x");
    assert_eq!(err.domain(), markup_error_quark());
    assert_eq!(err.code(), 1);
    assert_eq!(err.message(), "%s %d %x");
}

#[test]
fn new_formats_message() {
    let err = error_new(markup_error_quark(), 2, &format!("Oh no! {}", 42));
    assert_eq!(err.message(), "Oh no! 42");
}

#[test]
fn matches_domain_and_code() {
    let err = error_new_literal(markup_error_quark(), 3, "bla");
    assert!(error_matches(&err, markup_error_quark(), 3));
    assert!(!error_matches(&err, markup_error_quark(), 4));
    assert!(!error_matches(&err, 0, 3));
}

#[test]
fn copy_duplicates_error() {
    let err = error_new_literal(markup_error_quark(), 1, "%s %d %x");
    let copy = error_copy(&err);
    assert_eq!(copy, err);
    assert_ne!(copy.message().as_ptr(), err.message().as_ptr());
}

#[test]
fn set_error_literal_assigns_when_empty() {
    let mut err: Option<Error> = None;
    let warning = set_error_literal(Some(&mut err), markup_error_quark(), 1, "%s %d %x");
    assert_eq!(warning, None);
    let err = err.unwrap();
    assert!(err.matches(markup_error_quark(), 1));
    assert_eq!(err.message(), "%s %d %x");
}

#[test]
fn set_error_warns_on_overwrite() {
    let mut err = Some(error_new_literal(markup_error_quark(), 1, "bla"));
    let warning = set_error_literal(Some(&mut err), markup_error_quark(), 2, "new");
    assert!(err.unwrap().matches(markup_error_quark(), 1));
    let warnings: Vec<String> = warning.into_iter().collect();
    assert_eq!(warnings.len(), 1);
    assert!(warnings[0].contains("set over the top"));
}

#[test]
fn propagate_error_moves_into_empty_slot() {
    let mut dest: Option<Error> = None;
    let src = error_new_literal(markup_error_quark(), 2, "src");
    assert_eq!(propagate_error(Some(&mut dest), src), None);
    assert_eq!(dest.unwrap().message(), "src");
}

#[test]
fn propagate_error_warns_on_overwrite() {
    let mut dest = Some(error_new_literal(markup_error_quark(), 1, "dest"));
    let src = error_new_literal(markup_error_quark(), 2, "src");
    let warning = propagate_error(Some(&mut dest), src);
    assert_eq!(dest.unwrap().message(), "dest");
    let warnings: Vec<String> = warning.into_iter().collect();
    assert_eq!(warnings.len(), 1);
    assert!(warnings[0].contains("src"));
    assert_eq!(warnings[0], format!("{}src", ERROR_OVERWRITTEN_WARNING));
}

#[test]
fn propagate_error_drops_src_when_dest_is_none() {
    let src = error_new_literal(markup_error_quark(), 1, "gone");
    assert_eq!(propagate_error(None, src), None);
}

#[test]
fn clear_error_clears_present_value() {
    let mut err = Some(error_new_literal(markup_error_quark(), 1, "bla"));
    clear_error(Some(&mut err));
    assert!(err.is_none());
    clear_error(Some(&mut err));
    clear_error(None);
    assert!(err.is_none());
}

#[test]
fn prefix_error_noop_on_null() {
    prefix_error(None, "foo: ");
    let mut err: Option<Error> = None;
    prefix_error(Some(&mut err), "foo: ");
    assert!(err.is_none());
}

#[test]
fn prefix_error_formats_prefix() {
    let mut err = Some(error_new_literal(markup_error_quark(), 1, "bla"));
    prefix_error(Some(&mut err), &format!("foo {} {}: ", 1, "two"));
    assert_eq!(err.unwrap().message(), "foo 1 two: bla");
}

#[test]
fn prefix_error_literal_prefixes_message() {
    let mut err = Some(error_new_literal(markup_error_quark(), 1, "bla"));
    prefix_error_literal(Some(&mut err), "foo: ");
    assert_eq!(err.unwrap().message(), "foo: bla");
}

#[test]
fn propagate_prefixed_error_combines_operations() {
    let mut dest: Option<Error> = None;
    let src = error_new_literal(markup_error_quark(), 1, "bla");
    propagate_prefixed_error(Some(&mut dest), src, &format!("foo {} {}: ", 1, "two"));
    assert_eq!(dest.unwrap().message(), "foo 1 two: bla");
}

#[test]
fn propagate_prefixed_error_frees_src_when_dest_null() {
    let src = error_new_literal(markup_error_quark(), 1, "bla");
    assert_eq!(propagate_prefixed_error(None, src, "foo: "), None);
}

#[test]
fn steal_error_takes_ownership() {
    let mut err = Some(error_new_literal(markup_error_quark(), 1, "take"));
    let stolen = steal_error(&mut err).unwrap();
    assert!(err.is_none());
    assert_eq!(stolen.message(), "take");
}

#[test]
fn steal_error_returns_none_for_empty_slot() {
    let mut err: Option<Error> = None;
    assert!(steal_error(&mut err).is_none());
}

#[test]
fn error_free_drops_error() {
    error_free(error_new_literal(markup_error_quark(), 1, "free"));
}

#[test]
fn set_error_formats_message() {
    let mut err: Option<Error> = None;
    set_error(Some(&mut err), markup_error_quark(), 1, &format!("code {}", 7));
    assert_eq!(err.unwrap().message(), "code 7");
}

#[test]
fn set_error_without_a_place_says_nothing() {
    assert_eq!(set_error(None, markup_error_quark(), 1, "lost"), None);
    let mut err = Some(Error::new(4, -1, "first"));
    let warning = set_error(Some(&mut err), 5, 2, "second").unwrap();
    assert!(warning.starts_with("GError set over the top of a previous GError"));
    assert!(warning.ends_with("The overwriting error message was: second"));
    assert_eq!(err, Some(Error::new_literal(4, -1, "first")));
}
