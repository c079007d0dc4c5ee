use glib_native::error::Error;
use glib_native::option::{
    entry_warnings, entry_warnings_in, option_context_new, option_error_quark, option_flags, option_group_new, OptionArg, OptionCall,
    OptionContext, OptionEntry, OptionError, OptionGroup, OptionStore, OptionValue,
    OPTION_REMAINING,
};
use glib_native::ptr_array::GPointer;
use glib_native::quark::QuarkTable;
use std::cell::RefCell;

fn split_args(line: &str) -> Vec<String> {
    line.split_whitespace().map(str::to_owned).collect()
}

fn entry(
    long_name: &'static str,
    short_name: char,
    arg: OptionArg,
    arg_data: GPointer,
) -> OptionEntry {
    OptionEntry {
        long_name: Some(long_name),
        short_name,
        flags: option_flags::NONE,
        arg,
        arg_data,
        description: None,
        arg_description: None,
    }
}

fn quiet(_: &OptionCall) -> Result<(), Error> {
    Ok(())
}

fn parse(
    ctx: &OptionContext,
    argv: &mut Vec<String>,
    store: &mut OptionStore,
) -> Result<(), Error> {
    let mut quarks = QuarkTable::new();
    ctx.parse(argv, store, quiet, &mut quarks)
}

fn is_option_error(err: &Error, code: OptionError) -> bool {
    let mut quarks = QuarkTable::new();
    err.matches(option_error_quark(&mut quarks), code.code())
}

#[test]
fn option_context_new_and_setters() {
    let mut ctx = option_context_new(Some(""));
    assert!(ctx.get_help_enabled());
    assert!(!ctx.get_ignore_unknown_options());
    ctx.set_help_enabled(false);
    ctx.set_ignore_unknown_options(true);
    assert!(!ctx.get_help_enabled());
    assert!(ctx.get_ignore_unknown_options());
    assert_eq!(ctx.parameter_string, None);
    ctx.free();
    assert_eq!(option_context_new(Some("FILE")).parameter_string.as_deref(), Some("FILE"));
}

#[test]
fn parse_int_last_value_wins() {
    let mut store = OptionStore::new();
    let value = store.put(OptionValue::Int(0));
    let entries = [entry("test", '\0', OptionArg::Int, value)];
    let mut ctx = option_context_new(None);
    ctx.set_help_enabled(false);
    ctx.add_main_entries(&entries, None);

    let mut argv = split_args("program --test 20 --test 30");
    parse(&ctx, &mut argv, &mut store).unwrap();
    assert!(matches!(store.get(value), OptionValue::Int(30)));
    assert_eq!(argv, vec!["program"]);
}

#[test]
fn parse_string_last_value_wins() {
    let mut store = OptionStore::new();
    let value = store.put(OptionValue::Text(String::new()));
    let entries = [entry("test", '\0', OptionArg::String, value)];
    let mut ctx = option_context_new(None);
    ctx.set_help_enabled(false);
    ctx.add_main_entries(&entries, None);

    let mut argv = split_args("program --test foo --test bar");
    parse(&ctx, &mut argv, &mut store).unwrap();
    assert!(matches!(store.get(value), OptionValue::Text(text) if text == "bar"));
}

#[test]
fn parse_bool_flag() {
    let mut store = OptionStore::new();
    let flag = store.put(OptionValue::Bool(false));
    let entries = [entry("test", '\0', OptionArg::NoArg, flag)];
    let mut ctx = option_context_new(None);
    ctx.set_help_enabled(false);
    ctx.add_main_entries(&entries, None);

    let mut argv = split_args("program --test");
    parse(&ctx, &mut argv, &mut store).unwrap();
    assert!(matches!(store.get(flag), OptionValue::Bool(true)));
}

#[test]
fn parse_string_array() {
    let mut store = OptionStore::new();
    let values = store.put(OptionValue::Texts(Vec::new()));
    let entries = [entry("test", '\0', OptionArg::StringArray, values)];
    let mut ctx = option_context_new(None);
    ctx.set_help_enabled(false);
    ctx.add_main_entries(&entries, None);

    let mut argv = split_args("program --test foo --test bar");
    parse(&ctx, &mut argv, &mut store).unwrap();
    assert!(matches!(
        store.get(values),
        OptionValue::Texts(texts) if *texts == vec!["foo", "bar"]
    ));
}

#[test]
fn unknown_option_error() {
    let mut store = OptionStore::new();
    let entries = [OptionEntry::null()];
    let mut ctx = option_context_new(None);
    ctx.set_help_enabled(false);
    ctx.add_main_entries(&entries, None);

    let mut argv = split_args("program -0");
    let err = parse(&ctx, &mut argv, &mut store).unwrap_err();
    assert!(is_option_error(&err, OptionError::UnknownOption));
    assert_eq!(err.message(), "Unknown option -0");
}

#[test]
fn ignore_unknown_long_option() {
    let mut store = OptionStore::new();
    let flag = store.put(OptionValue::Bool(false));
    let entries = [entry("test", '\0', OptionArg::NoArg, flag)];
    let mut ctx = option_context_new(None);
    ctx.set_help_enabled(false);
    ctx.set_ignore_unknown_options(true);
    ctx.add_main_entries(&entries, None);

    let mut argv = split_args("program --test --hello");
    parse(&ctx, &mut argv, &mut store).unwrap();
    assert!(matches!(store.get(flag), OptionValue::Bool(true)));
    assert_eq!(argv, vec!["program", "--hello"]);
}

#[test]
fn ignore_unknown_short_cluster() {
    let mut store = OptionStore::new();
    let flag = store.put(OptionValue::Bool(false));
    let entries = [entry("test", 't', OptionArg::NoArg, flag)];
    let mut ctx = option_context_new(None);
    ctx.set_help_enabled(false);
    ctx.set_ignore_unknown_options(true);
    ctx.add_main_entries(&entries, None);

    let mut argv = split_args("program -test");
    parse(&ctx, &mut argv, &mut store).unwrap();
    assert!(matches!(store.get(flag), OptionValue::Bool(true)));
    assert_eq!(argv, vec!["program", "-es"]);
}

#[test]
fn missing_argument_error() {
    let mut store = OptionStore::new();
    let value = store.put(OptionValue::Text(String::new()));
    let entries = [entry("test", 't', OptionArg::String, value)];
    let mut ctx = option_context_new(None);
    ctx.set_help_enabled(false);
    ctx.add_main_entries(&entries, None);

    let mut argv = split_args("program --test");
    let err = parse(&ctx, &mut argv, &mut store).unwrap_err();
    assert!(is_option_error(&err, OptionError::BadValue));

    let mut argv = split_args("program -t");
    let err = parse(&ctx, &mut argv, &mut store).unwrap_err();
    assert!(is_option_error(&err, OptionError::BadValue));
    assert_eq!(err.message(), "Missing argument for -t");
}

#[test]
fn remaining_string_array() {
    let mut store = OptionStore::new();
    let rest = store.put(OptionValue::Texts(Vec::new()));
    let entries = [entry(OPTION_REMAINING, '\0', OptionArg::StringArray, rest)];
    let mut ctx = option_context_new(None);
    ctx.set_help_enabled(false);
    ctx.add_main_entries(&entries, None);

    let mut argv = split_args("program foo bar");
    parse(&ctx, &mut argv, &mut store).unwrap();
    assert!(matches!(
        store.get(rest),
        OptionValue::Texts(texts) if *texts == vec!["foo", "bar"]
    ));
    assert_eq!(argv, vec!["program"]);
}

#[test]
fn lonely_dash_is_non_option() {
    let mut store = OptionStore::new();
    let mut ctx = option_context_new(None);
    ctx.set_help_enabled(false);

    let mut argv = split_args("program -");
    parse(&ctx, &mut argv, &mut store).unwrap();
    assert_eq!(argv, vec!["program", "-"]);
}

#[test]
fn double_dash_separator() {
    let mut store = OptionStore::new();
    let flag = store.put(OptionValue::Bool(false));
    let entries = [entry("test", '\0', OptionArg::NoArg, flag)];
    let mut ctx = option_context_new(None);
    ctx.set_help_enabled(false);
    ctx.add_main_entries(&entries, None);

    let mut argv = split_args("program foo --test -- -bar");
    parse(&ctx, &mut argv, &mut store).unwrap();
    assert!(matches!(store.get(flag), OptionValue::Bool(true)));
    assert_eq!(argv, vec!["program", "foo", "--", "-bar"]);
}

#[test]
fn bad_int_restores_previous_value() {
    let mut store = OptionStore::new();
    let value = store.put(OptionValue::Int(123));
    let entries = [entry("test", '\0', OptionArg::Int, value)];
    let mut ctx = option_context_new(None);
    ctx.set_help_enabled(false);
    ctx.add_main_entries(&entries, None);

    let mut argv = split_args("program --test abc");
    let err = parse(&ctx, &mut argv, &mut store).unwrap_err();
    assert!(is_option_error(&err, OptionError::BadValue));
    assert!(matches!(store.get(value), OptionValue::Int(123)));
}

#[test]
fn long_option_equals_form() {
    let mut store = OptionStore::new();
    let value = store.put(OptionValue::Text(String::new()));
    let entries = [entry("test", '\0', OptionArg::String, value)];
    let mut ctx = option_context_new(None);
    ctx.set_help_enabled(false);
    ctx.add_main_entries(&entries, None);

    let mut argv = split_args("program --test=hello");
    parse(&ctx, &mut argv, &mut store).unwrap();
    assert!(matches!(store.get(value), OptionValue::Text(text) if text == "hello"));
}

#[test]
fn callback_option() {
    let slot: RefCell<Option<String>> = RefCell::new(None);
    let mut store = OptionStore::new();
    let mut quarks = QuarkTable::new();
    let entries = [entry("test", '\0', OptionArg::Callback, 7)];
    let mut ctx = option_context_new(None);
    ctx.set_help_enabled(false);
    ctx.main_group = Some(OptionGroup::new(None, None, None, 42));
    ctx.main_group.as_mut().unwrap().add_entries(&entries);

    let mut argv = split_args("program --test foo.txt");
    ctx.parse(
        &mut argv,
        &mut store,
        |call: &OptionCall| {
            assert_eq!((call.callback, call.user_data), (7, 42));
            assert_eq!(call.option_name, "--test");
            slot.replace(call.value.clone());
            Ok(())
        },
        &mut quarks,
    )
    .unwrap();
    assert_eq!(slot.borrow().as_deref(), Some("foo.txt"));
}

#[test]
fn option_group_add_entries() {
    let mut group = option_group_new(
        Some("test"),
        Some("Test Options"),
        Some("Show test options"),
        0,
    );
    let entries = [entry("switch", '\0', OptionArg::NoArg, 0)];
    group.add_entries(&entries);
    assert_eq!(group.entry_count(), 1);
}

#[test]
fn non_option_arguments_left_in_argv() {
    let mut store = OptionStore::new();
    let flag = store.put(OptionValue::Bool(false));
    let entries = [entry("test", '\0', OptionArg::NoArg, flag)];
    let mut ctx = option_context_new(None);
    ctx.set_help_enabled(false);
    ctx.add_main_entries(&entries, None);

    let mut argv = split_args("program foo --test bar");
    parse(&ctx, &mut argv, &mut store).unwrap();
    assert!(matches!(store.get(flag), OptionValue::Bool(true)));
    assert_eq!(argv, vec!["program", "foo", "bar"]);
}

#[test]
fn empty_argv_parse_succeeds() {
    let mut store = OptionStore::new();
    let ctx = option_context_new(None);
    let mut argv: Vec<String> = Vec::new();
    parse(&ctx, &mut argv, &mut store).unwrap();
}

#[test]
fn integers_and_their_errors() {
    let mut store = OptionStore::new();
    let value = store.put(OptionValue::Int(5));
    let mut ctx = option_context_new(None);
    ctx.add_main_entries(&[entry("n", 'n', OptionArg::Int, value)], None);
    for (text, expected) in [("0x10", 16), ("010", 8), ("-7", -7), ("2147483647", 2147483647)] {
        let mut argv = vec!["p".to_owned(), "-n".to_owned(), text.to_owned()];
        parse(&ctx, &mut argv, &mut store).unwrap();
        assert!(matches!(store.get(value), OptionValue::Int(n) if *n == expected));
        assert_eq!(argv, vec!["p"]);
    }
    let mut argv = vec!["p".to_owned(), "--n=2147483648".to_owned()];
    let err = parse(&ctx, &mut argv, &mut store).unwrap_err();
    assert!(is_option_error(&err, OptionError::BadValue));
    assert_eq!(err.message(), "Integer value \"2147483648\" for --n out of range");
    assert_eq!(argv, vec!["p", "--n=2147483648"]);
    let mut argv = vec!["p".to_owned(), "--n=12x".to_owned()];
    let err = parse(&ctx, &mut argv, &mut store).unwrap_err();
    assert_eq!(err.message(), "Cannot parse integer value \"12x\"");
    let mut argv = vec!["p".to_owned(), "--n=".to_owned()];
    let err = parse(&ctx, &mut argv, &mut store).unwrap_err();
    assert_eq!(err.message(), "Cannot parse integer value \"\" for --n");
    assert!(matches!(store.get(value), OptionValue::Int(2147483647)));
}

#[test]
fn a_failed_parse_changes_nothing() {
    let mut store = OptionStore::new();
    let flag = store.put(OptionValue::Bool(false));
    let text = store.put(OptionValue::Text("before".to_owned()));
    let list = store.put(OptionValue::Texts(vec!["kept".to_owned()]));
    let mut ctx = option_context_new(None);
    ctx.add_main_entries(
        &[
            entry("flag", 'f', OptionArg::NoArg, flag),
            entry("text", 't', OptionArg::Filename, text),
            entry("list", 'l', OptionArg::FilenameArray, list),
        ],
        None,
    );
    let line = "p -f --text after -l one rest --no-such";
    let mut argv = split_args(line);
    let err = parse(&ctx, &mut argv, &mut store).unwrap_err();
    assert!(is_option_error(&err, OptionError::UnknownOption));
    assert_eq!(argv, split_args(line));
    assert!(matches!(store.get(flag), OptionValue::Bool(false)));
    assert!(matches!(store.get(text), OptionValue::Text(t) if t == "before"));
    assert!(matches!(store.get(list), OptionValue::Texts(t) if *t == vec!["kept"]));
}

#[test]
fn callbacks_can_fail_a_parse() {
    let mut store = OptionStore::new();
    let mut quarks = QuarkTable::new();
    let mut ctx = option_context_new(None);
    ctx.add_main_entries(&[entry("cb", 'c', OptionArg::Callback, 1)], None);
    let mut argv = split_args("p --cb x --cb y");
    let seen = RefCell::new(Vec::new());
    let err = ctx
        .parse(
            &mut argv,
            &mut store,
            |call: &OptionCall| {
                seen.borrow_mut().push(call.value.clone().unwrap());
                Err(Error::new(9, 8, "no"))
            },
            &mut quarks,
        )
        .unwrap_err();
    assert_eq!(seen.into_inner(), vec!["x"]);
    assert!(is_option_error(&err, OptionError::Failed));
    assert_eq!(err.message(), "Error parsing option --cb");
    assert_eq!(argv, split_args("p --cb x --cb y"));

    let domain = option_error_quark(&mut quarks);
    let err = ctx
        .parse(
            &mut argv,
            &mut store,
            |_: &OptionCall| Err(Error::new(domain, 8, "no")),
            &mut quarks,
        )
        .unwrap_err();
    assert_eq!(err, Error::new(domain, 8, "no"));
}

#[test]
fn unsupported_arguments_fail() {
    let mut store = OptionStore::new();
    let mut ctx = option_context_new(None);
    ctx.add_main_entries(&[entry("d", 'd', OptionArg::Double, 0)], None);
    let mut argv = split_args("p -d 1.5");
    let err = parse(&ctx, &mut argv, &mut store).unwrap_err();
    assert!(is_option_error(&err, OptionError::Failed));
    assert_eq!(err.message(), "Unsupported option argument type for -d");
}

#[test]
fn reversed_switches_and_groups() {
    let mut store = OptionStore::new();
    let quiet_flag = store.put(OptionValue::Bool(true));
    let group_flag = store.put(OptionValue::Bool(false));
    let mut ctx = option_context_new(None);
    let mut reversed = entry("loud", 'L', OptionArg::NoArg, quiet_flag);
    reversed.flags = option_flags::REVERSE;
    ctx.add_main_entries(&[reversed], None);
    let mut group = option_group_new(Some("net"), None, None, 0);
    group.add_entries(&[entry("ipv6", '6', OptionArg::NoArg, group_flag), OptionEntry::null()]);
    ctx.add_group(group);
    let mut argv = split_args("p -L --net-ipv6");
    parse(&ctx, &mut argv, &mut store).unwrap();
    assert!(matches!(store.get(quiet_flag), OptionValue::Bool(false)));
    assert!(matches!(store.get(group_flag), OptionValue::Bool(true)));
    assert_eq!(argv, vec!["p"]);
}

#[test]
fn only_what_is_parsed_leaves() {
    let mut store = OptionStore::new();
    let flag = store.put(OptionValue::Bool(false));
    let ctx = option_context_new(None);
    let mut argv: Vec<String> = vec!["program".into(), "".into(), "file".into()];
    parse(&ctx, &mut argv, &mut store).unwrap();
    assert_eq!(argv, vec!["program", "", "file"]);

    let mut ctx = option_context_new(None);
    ctx.add_main_entries(&[entry("test", 't', OptionArg::NoArg, flag)], None);
    let mut argv: Vec<String> =
        vec!["".into(), "--test".into(), "".into(), "-t".into(), "--".into(), "".into()];
    parse(&ctx, &mut argv, &mut store).unwrap();
    assert_eq!(argv, vec!["", "", ""]);
    assert!(matches!(store.get(flag), OptionValue::Bool(true)));
}

#[test]
fn an_empty_value_is_taken_and_leaves() {
    let mut store = OptionStore::new();
    let value = store.put(OptionValue::Text("before".to_owned()));
    let mut ctx = option_context_new(None);
    ctx.add_main_entries(&[entry("text", 't', OptionArg::String, value)], None);
    let mut argv: Vec<String> = vec!["p".into(), "-t".into(), "".into(), "".into()];
    parse(&ctx, &mut argv, &mut store).unwrap();
    assert_eq!(argv, vec!["p", ""]);
    assert!(matches!(store.get(value), OptionValue::Text(text) if text.is_empty()));
}

#[test]
fn entries_that_make_no_sense_are_warned_of() {
    let good = entry("good", 'g', OptionArg::NoArg, 0);
    assert!(entry_warnings(&good, None).is_empty());
    assert!(entry_warnings(&entry("bare", '\0', OptionArg::Int, 0), None).is_empty());

    let mut bad = entry("bad", '\u{e9}', OptionArg::Int, 0);
    bad.flags = option_flags::REVERSE | option_flags::NO_ARG;
    assert_eq!(
        entry_warnings(&bad, None),
        vec![
            "warning: ignoring invalid short option '\u{e9}' in entry \"main\":bad",
            "warning: ignoring reverse flag on option of arg-type Int in entry \"main\":bad",
            "warning: ignoring no-arg or optional-arg flags on option of arg-type Int in entry \"main\":bad",
        ]
    );
    let mut switch = entry("s", '-', OptionArg::NoArg, 0);
    switch.flags = option_flags::REVERSE | option_flags::OPTIONAL_ARG;
    assert_eq!(
        entry_warnings(&switch, Some("a\"b")),
        vec![
            "warning: ignoring invalid short option '-' in entry \"a\\\"b\":s",
            "warning: ignoring no-arg or optional-arg flags on option of arg-type None in entry \"a\\\"b\":s",
        ]
    );
    let mut callback = entry("c", 'c', OptionArg::Callback, 0);
    callback.flags = option_flags::REVERSE | option_flags::NO_ARG;
    assert_eq!(
        entry_warnings_in(&callback, "G"),
        vec!["warning: ignoring reverse flag on option of arg-type Callback in entry G:c"]
    );

    let group = option_group_new(Some("net"), None, None, 0);
    let all = group.warnings(&[good, switch, OptionEntry::null(), bad]);
    assert_eq!(all, entry_warnings(&switch, Some("net")));
    assert_eq!(all.len(), 2);
}

#[test]
fn stores_that_fit_and_that_do_not() {
    let mut store = OptionStore::new();
    let number = store.put(OptionValue::Int(0));
    let mut ctx = option_context_new(None);
    assert!(ctx.fits_store(&store));
    ctx.add_main_entries(
        &[entry("n", 'n', OptionArg::Int, number), entry("c", 'c', OptionArg::Callback, 99)],
        None,
    );
    assert!(ctx.fits_store(&store));
    let mut group = option_group_new(None, None, None, 0);
    group.add_entries(&[entry("s", 's', OptionArg::String, number)]);
    ctx.add_group(group);
    assert!(!ctx.fits_store(&store));
    let mut ctx = option_context_new(None);
    ctx.add_main_entries(&[entry("x", 'x', OptionArg::NoArg, 1)], None);
    assert!(!ctx.fits_store(&store));
}
