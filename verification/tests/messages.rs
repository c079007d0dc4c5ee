use glib_native::messages::{
    critical, debug, format_log_line, info, log, log_default_handler, log_fmt,
    log_remove_handler, log_set_default_handler, log_set_handler, message, print, printerr,
    set_print_handler, set_printerr_handler, warning, Delivery, LogFunc, LogLevelFlags, LogStream,
    MessagesState, PrintFunc, LOG_LEVEL_USER_SHIFT,
};
use std::cell::RefCell;

type State = MessagesState<u8, u8>;

const CAPTURE: u8 = 1;
const OTHER: u8 = 2;

type Captured = (u8, usize, Option<String>, LogLevelFlags, String);

fn capture(logs: &RefCell<Vec<Captured>>, delivery: &Delivery<u8>) {
    if let LogFunc::User(handler) = delivery.func {
        logs.borrow_mut().push((
            handler,
            delivery.user_data,
            delivery.log_domain.clone(),
            delivery.log_level,
            delivery.message.clone(),
        ));
    }
}

#[test]
fn log_level_constants_match_glib() {
    assert_eq!(LogLevelFlags::flag_recursion().bits(), 1 << 0);
    assert_eq!(LogLevelFlags::flag_fatal().bits(), 1 << 1);
    assert_eq!(LogLevelFlags::level_error().bits(), 1 << 2);
    assert_eq!(LogLevelFlags::level_critical().bits(), 1 << 3);
    assert_eq!(LogLevelFlags::level_warning().bits(), 1 << 4);
    assert_eq!(LogLevelFlags::level_message().bits(), 1 << 5);
    assert_eq!(LogLevelFlags::level_info().bits(), 1 << 6);
    assert_eq!(LogLevelFlags::level_debug().bits(), 1 << 7);
    assert_eq!(LOG_LEVEL_USER_SHIFT, 8);
    assert_eq!(
        LogLevelFlags::all_levels().bits(),
        !(LogLevelFlags::flag_recursion().bits() | LogLevelFlags::flag_fatal().bits())
    );
}

#[test]
fn default_handler_formats_warning_with_domain() {
    let line = format_log_line(
        Some("Test"),
        LogLevelFlags::level_warning(),
        "something happened",
    );
    assert!(line.starts_with('\n'));
    assert!(line.contains("Test-WARNING **:"));
    assert!(line.contains("something happened"));
    assert!(line.ends_with('\n'));
}

#[test]
fn default_handler_formats_info_without_domain_prefix() {
    let line = format_log_line(None, LogLevelFlags::level_info(), "details");
    assert!(line.starts_with("** INFO:"));
    assert!(line.contains("details"));
}

#[test]
fn log_routes_to_custom_domain_handler() {
    let logs = RefCell::new(Vec::new());
    let mut state = State::new();
    let id = log_set_handler(
        &mut state,
        Some("Widget"),
        LogLevelFlags::level_warning(),
        LogFunc::User(CAPTURE),
        0,
    );
    assert_ne!(id, 0);

    log(
        state,
        Some("Widget"),
        LogLevelFlags::level_warning(),
        "layout changed",
        &|delivery: &Delivery<u8>, state: State| {
            capture(&logs, delivery);
            state
        },
    );

    let entries = logs.into_inner();
    assert_eq!(entries.len(), 1);
    assert_eq!(entries[0].2.as_deref(), Some("Widget"));
    assert_eq!(entries[0].3, LogLevelFlags::level_warning());
    assert_eq!(entries[0].4, "layout changed");
}

#[test]
fn log_respects_handler_level_mask() {
    let logs = RefCell::new(Vec::new());
    let deliver = |delivery: &Delivery<u8>, state: State| {
        capture(&logs, delivery);
        state
    };
    let mut state = State::new();
    log_set_handler(
        &mut state,
        None,
        LogLevelFlags::level_warning(),
        LogFunc::User(CAPTURE),
        0,
    );

    let (state, _) = log(state, None, LogLevelFlags::level_info(), "hidden", &deliver);
    assert!(logs.borrow().is_empty());

    log(state, None, LogLevelFlags::level_warning(), "shown", &deliver);
    assert_eq!(logs.borrow().len(), 1);
}

#[test]
fn newest_handler_wins_when_multiple_match() {
    let logs = RefCell::new(Vec::new());
    let mut state = State::new();
    let level = LogLevelFlags::level_message();
    log_set_handler(&mut state, None, level, LogFunc::User(CAPTURE), 0);
    log_set_handler(&mut state, None, level, LogFunc::User(OTHER), 0);

    log(state, None, level, "pick me", &|delivery: &Delivery<u8>, state: State| {
        capture(&logs, delivery);
        state
    });
    let entries = logs.into_inner();
    assert_eq!(entries.len(), 1);
    assert_eq!(entries[0].0, OTHER);
    assert_eq!(entries[0].4, "pick me");
}

#[test]
fn log_remove_handler_stops_delivery() {
    let logs = RefCell::new(Vec::new());
    let mut state = State::new();
    let level = LogLevelFlags::level_critical();
    let id = log_set_handler(&mut state, None, level, LogFunc::User(CAPTURE), 0);
    assert!(log_remove_handler(&mut state, None, id).is_none());
    log(state, None, level, "after removal", &|delivery: &Delivery<u8>, state: State| {
        capture(&logs, delivery);
        state
    });
    assert!(logs.borrow().is_empty());
}

#[test]
fn log_set_default_handler_replaces_fallback() {
    let logs = RefCell::new(Vec::new());
    let mut state = State::new();
    let previous = log_set_default_handler(&mut state, LogFunc::User(CAPTURE), 0);
    assert_eq!(previous, LogFunc::Default);

    log(
        state,
        None,
        LogLevelFlags::level_message(),
        "via default",
        &|delivery: &Delivery<u8>, state: State| {
            capture(&logs, delivery);
            state
        },
    );
    assert_eq!(logs.borrow().len(), 1);
}

#[test]
fn convenience_functions_use_default_domain() {
    let logs = RefCell::new(Vec::new());
    let deliver = |delivery: &Delivery<u8>, state: State| {
        capture(&logs, delivery);
        state
    };
    let mut state = State::new();
    log_set_default_handler(&mut state, LogFunc::User(CAPTURE), 0);

    let (state, _) = message(state, "msg", &deliver);
    let (state, _) = warning(state, "warn", &deliver);
    let (state, _) = critical(state, "crit", &deliver);
    let (state, _) = info(state, "info", &deliver);
    let (_, aborts) = debug(state, "dbg", &deliver);
    assert!(!aborts);

    let entries = logs.borrow();
    assert_eq!(entries.len(), 5);
    assert_eq!(entries[0].3, LogLevelFlags::level_message());
    assert_eq!(entries[1].3, LogLevelFlags::level_warning());
    assert_eq!(entries[2].3, LogLevelFlags::level_critical());
    assert_eq!(entries[3].3, LogLevelFlags::level_info());
    assert_eq!(entries[4].3, LogLevelFlags::level_debug());
    assert!(entries.iter().all(|entry| entry.2.is_none()));
}

#[test]
fn error_level_is_marked_fatal_for_handlers() {
    let logs = RefCell::new(Vec::new());
    let mut state = State::new();
    log_set_default_handler(&mut state, LogFunc::User(CAPTURE), 0);
    let (_, aborts) = log(
        state,
        None,
        LogLevelFlags::level_error(),
        "fatal path",
        &|delivery: &Delivery<u8>, state: State| {
            capture(&logs, delivery);
            state
        },
    );
    let level = logs.borrow()[0].3;
    assert!(level.contains(LogLevelFlags::flag_fatal()));
    assert!(level.contains(LogLevelFlags::level_error()));
    assert!(aborts);
}

#[test]
fn set_print_handler_replaces_output() {
    let mut state = State::new();
    let old = set_print_handler(&mut state, Some(CAPTURE));
    assert_eq!(old, PrintFunc::Default);

    let printed = print(&state, "hello stdout", |func, text| (func, text.to_owned()));
    assert_eq!(printed, (PrintFunc::User(CAPTURE), "hello stdout".to_owned()));

    let restored = set_print_handler(&mut state, None);
    assert_eq!(restored, PrintFunc::User(CAPTURE));
}

#[test]
fn set_printerr_handler_replaces_output() {
    let mut state = State::new();
    let old = set_printerr_handler(&mut state, Some(CAPTURE));
    assert_eq!(old, PrintFunc::Default);

    let printed = printerr(&state, "hello stderr", |func, text| (func, text.to_owned()));
    assert_eq!(printed, (PrintFunc::User(CAPTURE), "hello stderr".to_owned()));
    let other = print(&state, "out", |func, text| (func, text.len()));
    assert_eq!(other, (PrintFunc::Default, 3));
}

#[test]
fn log_set_handler_passes_user_data() {
    let logs = RefCell::new(Vec::new());
    let mut state = State::new();
    log_set_handler(
        &mut state,
        None,
        LogLevelFlags::level_info(),
        LogFunc::User(CAPTURE),
        42,
    );
    log(
        state,
        None,
        LogLevelFlags::level_info(),
        "payload",
        &|delivery: &Delivery<u8>, state: State| {
            capture(&logs, delivery);
            state
        },
    );
    let entries = logs.into_inner();
    assert_eq!(format!("{}:{}", entries[0].1, entries[0].4), "42:payload");
}

#[test]
fn combined_levels_invoke_handler_per_bit() {
    let logs = RefCell::new(Vec::new());
    let mut state = State::new();
    log_set_default_handler(&mut state, LogFunc::User(CAPTURE), 0);
    log(
        state,
        None,
        LogLevelFlags::level_warning().union(LogLevelFlags::level_info()),
        "multi",
        &|delivery: &Delivery<u8>, state: State| {
            capture(&logs, delivery);
            state
        },
    );
    let entries = logs.into_inner();
    assert_eq!(entries.len(), 2);
    assert_eq!(entries[0].3, LogLevelFlags::level_info());
    assert_eq!(entries[1].3, LogLevelFlags::level_warning());
}

#[test]
fn lines_of_the_default_handler() {
    let line = |domain, level, text| format_log_line(domain, level, text);
    assert_eq!(
        line(Some("Test"), LogLevelFlags::level_warning(), "x"),
        "\nTest-WARNING **: x\n"
    );
    assert_eq!(line(None, LogLevelFlags::level_info(), "details"), "** INFO: details\n");
    let fatal = LogLevelFlags::level_error().union(LogLevelFlags::flag_fatal());
    let out = log_default_handler(Some("D"), fatal, "");
    assert_eq!(out.stream, LogStream::Stderr);
    assert_eq!(out.line, line(Some("D"), fatal, ""));
    assert!(out.line.contains("(NULL) message"));
    let debug_out = log_default_handler(None, LogLevelFlags::level_debug(), "d");
    assert_eq!(debug_out.stream, LogStream::Stdout);
}

#[test]
fn a_handler_that_logs_is_cut_short() {
    let depth = RefCell::new(Vec::new());
    let mut state = State::new();
    log_set_default_handler(&mut state, LogFunc::User(CAPTURE), 0);
    let deliver = |delivery: &Delivery<u8>, state: State| {
        depth.borrow_mut().push((delivery.func, delivery.log_level));
        if let LogFunc::User(_) = delivery.func {
            let nothing = |inner: &Delivery<u8>, state: State| {
                depth.borrow_mut().push((inner.func, inner.log_level));
                state
            };
            log(state, None, LogLevelFlags::level_info(), "inner", &nothing).0
        } else {
            state
        }
    };
    let (state, _) = log(state, None, LogLevelFlags::level_message(), "outer", &deliver);
    {
        let seen = depth.borrow();
        assert_eq!(seen.len(), 2);
        assert_eq!(seen[0], (LogFunc::User(CAPTURE), LogLevelFlags::level_message()));
        assert_eq!(seen[1].0, LogFunc::Fallback);
        assert!(seen[1].1.contains(LogLevelFlags::flag_recursion()));
    }
    depth.borrow_mut().clear();
    log_fmt(state, None, LogLevelFlags::level_debug(), &["a", "-", "b"], &|delivery: &Delivery<
        u8,
    >,
                                                                             state: State| {
        assert_eq!(delivery.message, "a-b");
        depth.borrow_mut().push((delivery.func, delivery.log_level));
        state
    });
    assert_eq!(depth.borrow().len(), 1);
}

#[test]
fn removing_an_unknown_handler_is_complained_of() {
    let mut state = State::new();
    let id = log_set_handler(
        &mut state,
        Some("A"),
        LogLevelFlags::level_info(),
        LogFunc::User(CAPTURE),
        0,
    );
    assert!(log_remove_handler(&mut state, Some("B"), id).is_some());
    assert!(log_remove_handler(&mut state, Some("A"), id + 1).is_some());
    assert!(log_remove_handler(&mut state, Some("A"), id).is_none());
    assert!(log_remove_handler(&mut state, Some("A"), id).is_some());
    let flags_only = LogLevelFlags::flag_fatal();
    assert_eq!(log_set_handler(&mut state, None, flags_only, LogFunc::User(CAPTURE), 0), 0);
}

#[test]
fn sets_of_levels() {
    let both = LogLevelFlags::level_warning().union(LogLevelFlags::flag_fatal());
    assert!(both.contains(LogLevelFlags::level_warning()));
    assert!(!both.contains(LogLevelFlags::level_info()));
    assert!(both.intersects(LogLevelFlags::level_warning().union(LogLevelFlags::level_info())));
    assert_eq!(both.level_mask(), LogLevelFlags::level_warning());
    assert!(both.covers(LogLevelFlags::flag_fatal()));
    assert!(!LogLevelFlags::flag_fatal().covers(both));
    assert_eq!(LogLevelFlags::from_bits(5), LogLevelFlags::fatal_mask());
}
