//! Log messages and printed texts.
//!
//! A [`MessagesState`] holds the log handlers of each domain and the print
//! handlers. Handlers are values of the caller's own types: the library decides
//! which handler a message goes to, and the caller runs it.

use vstd::prelude::*;
use vstd::hash_map::StringHashMap;
use vstd::string::{StrSliceExecFns, StringExecFns};
use crate::number::write_number;
use crate::ptr_array::GPointer;
use crate::text::{copied, joined};

verus! {

/// The first bit for log levels of the caller's own.
pub const LOG_LEVEL_USER_SHIFT: u32 = 8;

/// The message was logged while another was being handled.
pub const LOG_FLAG_RECURSION: u32 = 1;

/// The process ends after the message.
pub const LOG_FLAG_FATAL: u32 = 2;

pub const LOG_LEVEL_ERROR: u32 = 4;

pub const LOG_LEVEL_CRITICAL: u32 = 8;

pub const LOG_LEVEL_WARNING: u32 = 16;

pub const LOG_LEVEL_MESSAGE: u32 = 32;

pub const LOG_LEVEL_INFO: u32 = 64;

pub const LOG_LEVEL_DEBUG: u32 = 128;

/// All bits but the two flags.
pub const LOG_LEVEL_MASK: u32 = 0xffff_fffc;

/// The bits that make a message fatal in a domain by default.
pub const LOG_FATAL_MASK: u32 = 5;

/// The levels whose messages stand out.
const ALERT_LEVELS: u32 = 28;

/// A set of log levels and flags.
#[derive(Clone, Copy, Debug, PartialEq, Eq, Hash, Default, Structural)]
pub struct LogLevelFlags(u32);

impl LogLevelFlags {
    /// The set as bits.
    pub closed spec fn mask(self) -> u32 {
        self.0
    }

    /// The set with these bits.
    #[must_use]
    pub fn from_bits(bits: u32) -> (flags: Self)
        ensures
            flags.mask() == bits,
    {
        LogLevelFlags(bits)
    }

    /// The flag of messages that were logged while another was being handled.
    #[must_use]
    pub fn flag_recursion() -> (flags: Self)
        ensures
            flags.mask() == LOG_FLAG_RECURSION,
    {
        LogLevelFlags(LOG_FLAG_RECURSION)
    }

    /// The flag of messages after which the process ends.
    #[must_use]
    pub fn flag_fatal() -> (flags: Self)
        ensures
            flags.mask() == LOG_FLAG_FATAL,
    {
        LogLevelFlags(LOG_FLAG_FATAL)
    }

    /// The level of errors; always fatal.
    #[must_use]
    pub fn level_error() -> (flags: Self)
        ensures
            flags.mask() == LOG_LEVEL_ERROR,
    {
        LogLevelFlags(LOG_LEVEL_ERROR)
    }

    /// The level of critical warnings.
    #[must_use]
    pub fn level_critical() -> (flags: Self)
        ensures
            flags.mask() == LOG_LEVEL_CRITICAL,
    {
        LogLevelFlags(LOG_LEVEL_CRITICAL)
    }

    /// The level of warnings.
    #[must_use]
    pub fn level_warning() -> (flags: Self)
        ensures
            flags.mask() == LOG_LEVEL_WARNING,
    {
        LogLevelFlags(LOG_LEVEL_WARNING)
    }

    /// The level of messages.
    #[must_use]
    pub fn level_message() -> (flags: Self)
        ensures
            flags.mask() == LOG_LEVEL_MESSAGE,
    {
        LogLevelFlags(LOG_LEVEL_MESSAGE)
    }

    /// The level of informational messages.
    #[must_use]
    pub fn level_info() -> (flags: Self)
        ensures
            flags.mask() == LOG_LEVEL_INFO,
    {
        LogLevelFlags(LOG_LEVEL_INFO)
    }

    /// The level of debugging messages.
    #[must_use]
    pub fn level_debug() -> (flags: Self)
        ensures
            flags.mask() == LOG_LEVEL_DEBUG,
    {
        LogLevelFlags(LOG_LEVEL_DEBUG)
    }

    /// All levels, without the flags.
    #[must_use]
    pub fn all_levels() -> (flags: Self)
        ensures
            flags.mask() == LOG_LEVEL_MASK,
    {
        LogLevelFlags(LOG_LEVEL_MASK)
    }

    /// What is fatal in a domain by default.
    #[must_use]
    pub fn fatal_mask() -> (flags: Self)
        ensures
            flags.mask() == LOG_FATAL_MASK,
    {
        LogLevelFlags(LOG_FATAL_MASK)
    }

    /// The set as bits.
    #[must_use]
    pub fn bits(self) -> (bits: u32)
        ensures
            bits == self.mask(),
    {
        self.0
    }

    /// Whether all of `other` is in the set.
    #[must_use]
    pub fn contains(self, other: Self) -> (yes: bool)
        ensures
            yes == (self.mask() & other.mask() == other.mask()),
    {
        (self.0 & other.0) == other.0
    }

    /// Whether some of `other` is in the set.
    #[must_use]
    pub fn intersects(self, other: Self) -> (yes: bool)
        ensures
            yes == (self.mask() & other.mask() != 0),
    {
        (self.0 & other.0) != 0
    }

    /// What is in one of two sets.
    #[must_use]
    pub fn union(self, other: Self) -> (both: Self)
        ensures
            both.mask() == self.mask() | other.mask(),
    {
        LogLevelFlags(self.0 | other.0)
    }

    /// Whether a handler for this set is for messages of this level: all of it is in the set.
    #[must_use]
    pub fn covers(self, log_level: Self) -> (yes: bool)
        ensures
            yes == (self.mask() & log_level.mask() == log_level.mask()),
    {
        (self.0 & log_level.0) == log_level.0
    }

    /// The levels of the set, without the flags.
    #[must_use]
    pub fn level_mask(self) -> (levels: Self)
        ensures
            levels.mask() == self.mask() & LOG_LEVEL_MASK,
    {
        LogLevelFlags(self.0 & LOG_LEVEL_MASK)
    }
}

/// Where log lines are written.
#[derive(Clone, Copy, Debug, PartialEq, Eq, Structural)]
pub enum LogStream {
    Stderr,
    Stdout,
}

/// The stream of a level: errors, warnings and messages go to standard error.
pub open spec fn stream_of(level: u32) -> LogStream {
    if level & 60 != 0 {
        LogStream::Stderr
    } else {
        LogStream::Stdout
    }
}

fn log_level_to_stream(log_level: LogLevelFlags) -> (stream: LogStream)
    ensures
        stream == stream_of(log_level.mask()),
{
    if (log_level.0 & (LOG_LEVEL_ERROR | LOG_LEVEL_CRITICAL | LOG_LEVEL_WARNING
        | LOG_LEVEL_MESSAGE)) != 0 {
        assert((4u32 | 8u32 | 16u32 | 32u32) == 60u32) by (bit_vector);
        LogStream::Stderr
    } else {
        assert((4u32 | 8u32 | 16u32 | 32u32) == 60u32) by (bit_vector);
        LogStream::Stdout
    }
}

/// The name of a level in a log line: its own where it is exactly one of the named levels, else
/// its bits in hexadecimal.
pub open spec fn level_name(level: u32) -> Seq<char> {
    let levels = level & LOG_LEVEL_MASK;
    if levels == LOG_LEVEL_ERROR {
        "ERROR"@
    } else if levels == LOG_LEVEL_CRITICAL {
        "CRITICAL"@
    } else if levels == LOG_LEVEL_WARNING {
        "WARNING"@
    } else if levels == LOG_LEVEL_MESSAGE {
        "Message"@
    } else if levels == LOG_LEVEL_INFO {
        "INFO"@
    } else if levels == LOG_LEVEL_DEBUG {
        "DEBUG"@
    } else if levels != 0 {
        "LOG-"@ + crate::number::written(levels as nat, 16)
    } else {
        "LOG"@
    }
}

/// The level stands out in the log.
pub open spec fn is_alert(level: u32) -> bool {
    level & 28 != 0
}

/// The name of a level with its marks.
pub open spec fn prefix_of(level: u32) -> Seq<char> {
    level_name(level) + (if level & LOG_FLAG_RECURSION == LOG_FLAG_RECURSION {
        " (recursed)"@
    } else {
        Seq::empty()
    }) + (if is_alert(level) {
        " **"@
    } else {
        Seq::empty()
    })
}

fn level_prefix(log_level: LogLevelFlags) -> (prefix: String)
    ensures
        prefix@ == prefix_of(log_level.mask()),
{
    let levels: u32 = log_level.level_mask().bits();
    let mut prefix: String = if levels == LOG_LEVEL_ERROR {
        "ERROR".to_owned()
    } else if levels == LOG_LEVEL_CRITICAL {
        "CRITICAL".to_owned()
    } else if levels == LOG_LEVEL_WARNING {
        "WARNING".to_owned()
    } else if levels == LOG_LEVEL_MESSAGE {
        "Message".to_owned()
    } else if levels == LOG_LEVEL_INFO {
        "INFO".to_owned()
    } else if levels == LOG_LEVEL_DEBUG {
        "DEBUG".to_owned()
    } else if levels != 0 {
        joined("LOG-", write_number(levels, 16).as_str())
    } else {
        "LOG".to_owned()
    };
    if log_level.contains(LogLevelFlags::flag_recursion()) {
        prefix.append(" (recursed)");
    }
    if (log_level.0 & ALERT_LEVELS) != 0 {
        prefix.append(" **");
    }
    assert(prefix@ =~= prefix_of(log_level.mask()));
    prefix
}

/// A log line: a blank line before it where the level stands out, stars where there is no domain,
/// the domain, the level, the message, and the end of the line.
pub open spec fn log_line(
    log_domain: Option<Seq<char>>,
    level: u32,
    message: Seq<char>,
) -> Seq<char> {
    let text = if message.len() == 0 {
        "(NULL) message"@
    } else {
        message
    };
    (if is_alert(level) {
        "\n"@
    } else {
        Seq::empty()
    }) + (match log_domain {
        None => "** "@,
        Some(domain) => if domain.len() == 0 {
            Seq::empty()
        } else {
            domain + "-"@
        },
    }) + prefix_of(level) + ": "@ + text + (if text.last() == '\n' {
        Seq::empty()
    } else {
        "\n"@
    })
}

/// The characters of an optional text.
pub open spec fn domain_view(log_domain: Option<&str>) -> Option<Seq<char>> {
    match log_domain {
        Some(domain) => Some(domain@),
        None => None,
    }
}

/// A log line; see [`log_line`].
#[must_use]
pub fn format_log_line(
    log_domain: Option<&str>,
    log_level: LogLevelFlags,
    message: &str,
) -> (line: String)
    ensures
        line@ == log_line(domain_view(log_domain), log_level.mask(), message@),
{
    let text = if message.is_empty() {
        "(NULL) message"
    } else {
        message
    };
    let mut line: String = String::new();
    if (log_level.0 & ALERT_LEVELS) != 0 {
        line.append("\n");
    }
    match log_domain {
        None => line.append("** "),
        Some(domain) => {
            if !domain.is_empty() {
                line.append(domain);
                line.append("-");
            }
        },
    }
    let prefix: String = level_prefix(log_level);
    line.append(prefix.as_str());
    line.append(": ");
    line.append(text);
    proof {
        reveal_strlit("(NULL) message");
    }
    if text.get_char(text.unicode_len() - 1) != '\n' {
        line.append("\n");
    }
    assert(line@ =~= log_line(domain_view(log_domain), log_level.mask(), message@));
    line
}

/// A log handler: the default one, the one for messages that are logged while another is being
/// handled, or one of the caller's own.
#[derive(Clone, Copy, Debug, PartialEq, Eq)]
pub enum LogFunc<L> {
    Default,
    Fallback,
    User(L),
}

/// A print handler: the default one, or one of the caller's own.
#[derive(Clone, Copy, Debug, PartialEq, Eq)]
pub enum PrintFunc<P> {
    Default,
    User(P),
}

/// What the default handler writes, and where.
#[derive(Debug)]
pub struct LogOutput {
    pub stream: LogStream,
    pub line: String,
}

/// The default handler: what it writes for a message. The handler for messages that are logged
/// while another is being handled writes the same.
pub fn log_default_handler(
    log_domain: Option<&str>,
    log_level: LogLevelFlags,
    message: &str,
) -> (output: LogOutput)
    ensures
        output.stream == stream_of(log_level.mask()),
        output.line@ == log_line(domain_view(log_domain), log_level.mask(), message@),
{
    LogOutput {
        stream: log_level_to_stream(log_level),
        line: format_log_line(log_domain, log_level, message),
    }
}

/// A handler for some levels of a domain.
#[derive(Clone, Copy, Debug)]
pub struct LogHandlerEntry<L> {
    pub id: u32,
    pub log_levels: LogLevelFlags,
    pub func: LogFunc<L>,
    pub user_data: GPointer,
}

/// The handlers of a domain, the newest first, and what is fatal in it.
struct LogDomain<L> {
    handlers: Vec<LogHandlerEntry<L>>,
    fatal_mask: LogLevelFlags,
}

/// The handlers.
#[verifier::reject_recursive_types(L)]
pub struct MessagesState<L, P> {
    domains: StringHashMap<LogDomain<L>>,
    default_handler: (LogFunc<L>, GPointer),
    print_handler: PrintFunc<P>,
    printerr_handler: PrintFunc<P>,
    next_handler_id: u32,
    log_depth: u32,
    always_fatal: LogLevelFlags,
}

/// What a state holds. Domains are named by their text; no domain and the empty text are one.
#[verifier::ext_equal]
pub struct MessagesView<L, P> {
    /// The handlers of every domain, the newest first.
    pub handlers: Map<Seq<char>, Seq<LogHandlerEntry<L>>>,
    /// What is fatal in every domain.
    pub fatal_masks: Map<Seq<char>, u32>,
    pub default_handler: (LogFunc<L>, GPointer),
    pub print_handler: PrintFunc<P>,
    pub printerr_handler: PrintFunc<P>,
    /// The number of handlers that were set so far.
    pub next_handler_id: u32,
    /// How many messages are being handled.
    pub log_depth: u32,
    /// What is fatal in all domains.
    pub always_fatal: u32,
}

impl<L, P> View for MessagesState<L, P> {
    type V = MessagesView<L, P>;

    closed spec fn view(&self) -> MessagesView<L, P> {
        MessagesView {
            handlers: Map::new(
                |key: Seq<char>| true,
                |key: Seq<char>|
                    if self.domains@.contains_key(key) {
                        self.domains@[key].handlers@
                    } else {
                        Seq::empty()
                    },
            ),
            fatal_masks: Map::new(
                |key: Seq<char>| true,
                |key: Seq<char>|
                    if self.domains@.contains_key(key) {
                        self.domains@[key].fatal_mask.mask()
                    } else {
                        LOG_FATAL_MASK
                    },
            ),
            default_handler: self.default_handler,
            print_handler: self.print_handler,
            printerr_handler: self.printerr_handler,
            next_handler_id: self.next_handler_id,
            log_depth: self.log_depth,
            always_fatal: self.always_fatal.mask(),
        }
    }
}

/// The name of a domain in a state.
pub open spec fn domain_key(log_domain: Option<Seq<char>>) -> Seq<char> {
    match log_domain {
        Some(domain) => domain,
        None => Seq::empty(),
    }
}

/// The first handler that is for messages of this level, else the default one.
pub open spec fn handler_for<L>(
    handlers: Seq<LogHandlerEntry<L>>,
    level: u32,
    default_handler: (LogFunc<L>, GPointer),
) -> (LogFunc<L>, GPointer)
    decreases handlers.len(),
{
    if handlers.len() == 0 {
        default_handler
    } else if handlers[0].log_levels.mask() & level == level {
        (handlers[0].func, handlers[0].user_data)
    } else {
        handler_for(handlers.skip(1), level, default_handler)
    }
}

/// The position of the first handler with this number, or the number of handlers.
pub open spec fn handler_index<L>(handlers: Seq<LogHandlerEntry<L>>, id: u32, from: int) -> int
    decreases handlers.len() - from,
{
    if from < 0 || from >= handlers.len() {
        handlers.len() as int
    } else if handlers[from].id == id {
        from
    } else {
        handler_index(handlers, id, from + 1)
    }
}

impl<L: Copy, P: Copy> MessagesState<L, P> {
    /// A state with the default handlers only.
    pub fn new() -> (state: Self)
        ensures
            forall|key: Seq<char>|
                state@.handlers.contains_key(key) && #[trigger] state@.handlers[key]
                    == Seq::<LogHandlerEntry<L>>::empty(),
            forall|key: Seq<char>|
                state@.fatal_masks.contains_key(key) && #[trigger] state@.fatal_masks[key]
                    == LOG_FATAL_MASK,
            state@.default_handler == (LogFunc::<L>::Default, 0usize),
            state@.print_handler == PrintFunc::<P>::Default,
            state@.printerr_handler == PrintFunc::<P>::Default,
            state@.next_handler_id == 0,
            state@.log_depth == 0,
            state@.always_fatal == 0,
    {
        MessagesState {
            domains: StringHashMap::new(),
            default_handler: (LogFunc::Default, 0),
            print_handler: PrintFunc::Default,
            printerr_handler: PrintFunc::Default,
            next_handler_id: 0,
            log_depth: 0,
            always_fatal: LogLevelFlags::from_bits(0),
        }
    }

    fn domain_name(log_domain: Option<&str>) -> (key: String)
        ensures
            key@ == domain_key(domain_view(log_domain)),
    {
        match log_domain {
            Some(domain) => domain.to_owned(),
            None => String::new(),
        }
    }

    /// The handlers of a domain.
    fn domain_handlers(&self, key: &str) -> (handlers: Vec<LogHandlerEntry<L>>)
        ensures
            handlers@ == self@.handlers[key@],
    {
        let mut handlers: Vec<LogHandlerEntry<L>> = Vec::new();
        if let Some(domain) = self.domains.get(key) {
            let mut i: usize = 0;
            while i < domain.handlers.len()
                invariant
                    i <= domain.handlers@.len(),
                    handlers@ == domain.handlers@.take(i as int),
                decreases domain.handlers@.len() - i,
            {
                handlers.push(domain.handlers[i]);
                assert(domain.handlers@.take(i + 1) =~= domain.handlers@.take(i as int).push(
                    domain.handlers@[i as int],
                ));
                i = i + 1;
            }
            assert(domain.handlers@.take(i as int) =~= domain.handlers@);
        }
        handlers
    }

    /// What is fatal in a domain.
    fn domain_fatal_mask(&self, key: &str) -> (mask: LogLevelFlags)
        ensures
            mask.mask() == self@.fatal_masks[key@],
    {
        match self.domains.get(key) {
            Some(domain) => domain.fatal_mask,
            None => LogLevelFlags::fatal_mask(),
        }
    }

    /// Set the handlers of a domain; one without handlers and with the default mask is forgotten.
    fn set_domain_handlers(&mut self, key: &str, handlers: Vec<LogHandlerEntry<L>>)
        ensures
            final(self)@ == (MessagesView {
                handlers: old(self)@.handlers.insert(key@, handlers@),
                ..old(self)@
            }),
    {
        let fatal_mask: LogLevelFlags = self.domain_fatal_mask(key);
        if handlers.len() == 0 && fatal_mask.bits() == LOG_FATAL_MASK {
            self.domains.remove(key);
            assert(handlers@ =~= Seq::<LogHandlerEntry<L>>::empty());
        } else {
            self.domains.insert(key.to_owned(), LogDomain { handlers, fatal_mask });
        }
        assert(self@.handlers =~= old(self)@.handlers.insert(key@, handlers@));
        assert(self@.fatal_masks =~= old(self)@.fatal_masks);
    }

    /// The handler that a message of a domain and level goes to.
    fn find_handler(&self, key: &str, log_level: LogLevelFlags) -> (found: (LogFunc<L>, GPointer))
        ensures
            found == handler_for(
                self@.handlers[key@],
                log_level.mask(),
                self@.default_handler,
            ),
    {
        if let Some(domain) = self.domains.get(key) {
            let ghost all = domain.handlers@;
            let mut i: usize = 0;
            assert(all.skip(0) =~= all);
            while i < domain.handlers.len()
                invariant
                    i <= domain.handlers@.len(),
                    all == domain.handlers@,
                    all == self@.handlers[key@],
                    handler_for(all.skip(i as int), log_level.mask(), self@.default_handler)
                        == handler_for(all, log_level.mask(), self@.default_handler),
                decreases domain.handlers@.len() - i,
            {
                let handler: LogHandlerEntry<L> = domain.handlers[i];
                assert(all.skip(i as int)[0] == handler);
                if handler.log_levels.covers(log_level) {
                    return (handler.func, handler.user_data);
                }
                assert(all.skip(i as int).skip(1) =~= all.skip(i + 1));
                i = i + 1;
            }
        }
        self.default_handler
    }
}

/// Set the handler for messages that no other handler is for. Returns the one before.
pub fn log_set_default_handler<L: Copy, P: Copy>(
    state: &mut MessagesState<L, P>,
    log_func: LogFunc<L>,
    user_data: GPointer,
) -> (before: LogFunc<L>)
    ensures
        before == old(state)@.default_handler.0,
        final(state)@ == (MessagesView {
            default_handler: (log_func, user_data),
            ..old(state)@
        }),
{
    let before: LogFunc<L> = state.default_handler.0;
    state.default_handler = (log_func, user_data);
    assert(state@ =~= (MessagesView {
        default_handler: (log_func, user_data),
        ..old(state)@
    }));
    before
}

/// Set a handler for some levels of a domain; it comes before those that were set earlier. Returns
/// its number, or 0 where there is no level among the levels, which changes nothing.
pub fn log_set_handler<L: Copy, P: Copy>(
    state: &mut MessagesState<L, P>,
    log_domain: Option<&str>,
    log_levels: LogLevelFlags,
    log_func: LogFunc<L>,
    user_data: GPointer,
) -> (id: u32)
    ensures
        log_levels.mask() & LOG_LEVEL_MASK == 0 ==> id == 0 && final(state)@ == old(state)@,
        log_levels.mask() & LOG_LEVEL_MASK != 0 ==> {
            let key = domain_key(domain_view(log_domain));
            let entry = LogHandlerEntry { id, log_levels, func: log_func, user_data };
            &&& id == (if old(state)@.next_handler_id == u32::MAX {
                u32::MAX as int
            } else {
                old(state)@.next_handler_id + 1
            })
            &&& final(state)@ == (MessagesView {
                handlers: old(state)@.handlers.insert(
                    key,
                    seq![entry] + old(state)@.handlers[key],
                ),
                next_handler_id: id,
                ..old(state)@
            })
        },
{
    if !log_levels.intersects(LogLevelFlags::all_levels()) {
        return 0;
    }
    let id: u32 = state.next_handler_id.saturating_add(1);
    state.next_handler_id = id;
    let ghost counted = state@;
    let key: String = MessagesState::<L, P>::domain_name(log_domain);
    let mut handlers: Vec<LogHandlerEntry<L>> = state.domain_handlers(key.as_str());
    let entry = LogHandlerEntry { id, log_levels, func: log_func, user_data };
    handlers.insert(0, entry);
    proof {
        assert(counted =~= (MessagesView { next_handler_id: id, ..old(state)@ }));
        assert(handlers@ =~= seq![entry] + old(state)@.handlers[key@]);
    }
    state.set_domain_handlers(key.as_str(), handlers);
    id
}

/// Remove the handler with this number from a domain; number 0 is ignored. Where there is none,
/// returns what the default handler writes about it.
pub fn log_remove_handler<L: Copy, P: Copy>(
    state: &mut MessagesState<L, P>,
    log_domain: Option<&str>,
    handler_id: u32,
) -> (complaint: Option<LogOutput>)
    ensures
        ({
            let key = domain_key(domain_view(log_domain));
            let handlers = old(state)@.handlers[key];
            let place = handler_index(handlers, handler_id, 0);
            let message = "log_remove_handler: could not find handler with id '"@
                + crate::number::written(handler_id as nat, 10) + "' for domain \""@ + key
                + "\""@;
            if handler_id == 0 {
                complaint is None && final(state)@ == old(state)@
            } else if place < handlers.len() {
                &&& complaint is None
                &&& final(state)@ == (MessagesView {
                    handlers: old(state)@.handlers.insert(key, handlers.remove(place)),
                    ..old(state)@
                })
            } else {
                &&& final(state)@ == old(state)@
                &&& complaint matches Some(output) && output.stream == LogStream::Stderr
                    && output.line@ == log_line(None, LOG_LEVEL_WARNING, message)
            }
        }),
{
    if handler_id == 0 {
        return None;
    }
    let key: String = MessagesState::<L, P>::domain_name(log_domain);
    let mut handlers: Vec<LogHandlerEntry<L>> = state.domain_handlers(key.as_str());
    let ghost all = handlers@;
    let mut i: usize = 0;
    while i < handlers.len()
        invariant
            i <= handlers@.len(),
            handlers@ == all,
            all == old(state)@.handlers[key@],
            *state == *old(state),
            key@ == domain_key(domain_view(log_domain)),
            handler_id != 0,
            handler_index(all, handler_id, 0) == handler_index(all, handler_id, i as int),
        decreases handlers@.len() - i,
    {
        if handlers[i].id == handler_id {
            handlers.remove(i);
            state.set_domain_handlers(key.as_str(), handlers);
            return None;
        }
        i = i + 1;
    }
    let mut message: String = "log_remove_handler: could not find handler with id '".to_owned();
    message.append(write_number(handler_id, 10).as_str());
    message.append("' for domain \"");
    message.append(key.as_str());
    message.append("\"");
    assert(16u32 & 60u32 != 0) by (bit_vector);
    Some(log_default_handler(None, LogLevelFlags::level_warning(), message.as_str()))
}

/// A message on its way to a handler.
pub struct Delivery<L> {
    pub func: LogFunc<L>,
    pub user_data: GPointer,
    pub log_domain: Option<String>,
    pub log_level: LogLevelFlags,
    pub message: String,
}

/// What a delivery holds.
pub struct DeliveryView<L> {
    pub func: LogFunc<L>,
    pub user_data: GPointer,
    pub log_domain: Option<Seq<char>>,
    pub log_level: u32,
    pub message: Seq<char>,
}

impl<L> View for Delivery<L> {
    type V = DeliveryView<L>;

    open spec fn view(&self) -> DeliveryView<L> {
        DeliveryView {
            func: self.func,
            user_data: self.user_data,
            log_domain: crate::text::optional(self.log_domain),
            log_level: self.log_level.mask(),
            message: self.message@,
        }
    }
}

/// The level that a message is handled with: one level, the flags it was logged with, the flag of
/// recursion while another message is being handled, and the flag of fatal messages where the
/// domain, or the state, says so of any of these.
pub open spec fn handled_level<L, P>(
    state: MessagesView<L, P>,
    key: Seq<char>,
    logged: u32,
    level: u32,
) -> u32 {
    let fatal = if logged & LOG_FLAG_FATAL == LOG_FLAG_FATAL {
        level | LOG_FLAG_FATAL
    } else {
        level
    };
    let recursed = if logged & LOG_FLAG_RECURSION == LOG_FLAG_RECURSION || state.log_depth > 0 {
        fatal | LOG_FLAG_RECURSION
    } else {
        fatal
    };
    if (state.fatal_masks[key] | state.always_fatal) & recursed != 0 {
        recursed | LOG_FLAG_FATAL
    } else {
        recursed
    }
}

/// The handler that one level of a message goes to: while another is being handled, the one for
/// that, else the newest of the domain that is for the level, else the default one.
pub open spec fn delivery_of<L, P>(
    state: MessagesView<L, P>,
    log_domain: Option<Seq<char>>,
    logged: u32,
    level: u32,
    message: Seq<char>,
) -> DeliveryView<L> {
    let key = domain_key(log_domain);
    let log_level = handled_level(state, key, logged, level);
    let (func, user_data) = if log_level & LOG_FLAG_RECURSION == LOG_FLAG_RECURSION {
        (LogFunc::Fallback, 0usize)
    } else {
        handler_for(state.handlers[key], log_level, state.default_handler)
    };
    DeliveryView { func, user_data, log_domain, log_level, message }
}

/// The state while one more message is being handled.
pub open spec fn entered<L, P>(state: MessagesView<L, P>) -> MessagesView<L, P> {
    MessagesView {
        log_depth: if state.log_depth == u32::MAX {
            u32::MAX
        } else {
            (state.log_depth + 1) as u32
        },
        ..state
    }
}

/// The state after a message was handled.
pub open spec fn left<L, P>(state: MessagesView<L, P>) -> MessagesView<L, P> {
    MessagesView {
        log_depth: if state.log_depth == 0 {
            0
        } else {
            (state.log_depth - 1) as u32
        },
        ..state
    }
}

/// Decide where one level of a message goes, and take note that it is being handled.
pub fn log_enter<L: Copy, P: Copy>(
    state: &mut MessagesState<L, P>,
    log_domain: Option<&str>,
    log_level: LogLevelFlags,
    single_level: LogLevelFlags,
    message: &str,
) -> (delivery: Delivery<L>)
    ensures
        delivery@ == delivery_of(
            old(state)@,
            domain_view(log_domain),
            log_level.mask(),
            single_level.mask(),
            message@,
        ),
        final(state)@ == entered(old(state)@),
{
    let mut test_level: LogLevelFlags = single_level;
    if log_level.contains(LogLevelFlags::flag_fatal()) {
        test_level = test_level.union(LogLevelFlags::flag_fatal());
    }
    if log_level.contains(LogLevelFlags::flag_recursion()) || state.log_depth > 0 {
        test_level = test_level.union(LogLevelFlags::flag_recursion());
    }
    let key: String = MessagesState::<L, P>::domain_name(log_domain);
    let fatal_mask: LogLevelFlags = state.domain_fatal_mask(key.as_str());
    if fatal_mask.union(state.always_fatal).intersects(test_level) {
        test_level = test_level.union(LogLevelFlags::flag_fatal());
    }
    let (func, user_data) = if test_level.contains(LogLevelFlags::flag_recursion()) {
        (LogFunc::Fallback, 0usize)
    } else {
        state.find_handler(key.as_str(), test_level)
    };
    state.log_depth = state.log_depth.saturating_add(1);
    assert(state@ =~= entered(old(state)@));
    Delivery {
        func,
        user_data,
        log_domain: copied(log_domain),
        log_level: test_level,
        message: message.to_owned(),
    }
}

/// Take note that a message was handled.
pub fn log_leave<L: Copy, P: Copy>(state: &mut MessagesState<L, P>)
    ensures
        final(state)@ == left(old(state)@),
{
    state.log_depth = state.log_depth.saturating_sub(1);
    assert(state@ =~= left(old(state)@));
}

/// The single levels of a set from bit `n - 1` down, the highest first.
pub open spec fn single_levels(levels: u32, n: nat) -> Seq<u32>
    decreases n,
{
    if n == 0 {
        Seq::empty()
    } else {
        let bit = 1u32 << ((n - 1) as u32);
        if levels & bit != 0 {
            seq![bit] + single_levels(levels, (n - 1) as nat)
        } else {
            single_levels(levels, (n - 1) as nat)
        }
    }
}

/// The levels of a message are handled one after the other: each goes to its handler, by
/// `deliver`, which may change the state. After a fatal one the process ends, and the rest is not
/// handled.
pub open spec fn logs<L: Copy, P: Copy, F: Fn(&Delivery<L>, MessagesState<L, P>) -> MessagesState<
    L,
    P,
>>(
    deliver: F,
    before: MessagesView<L, P>,
    log_domain: Option<Seq<char>>,
    logged: u32,
    levels: Seq<u32>,
    message: Seq<char>,
    after: MessagesView<L, P>,
    aborts: bool,
) -> bool
    decreases levels.len(),
{
    if levels.len() == 0 {
        after == before && !aborts
    } else {
        exists|
            delivery: Delivery<L>,
            inside: MessagesState<L, P>,
            outside: MessagesState<L, P>,
        | #[trigger]
            deliver.ensures((&delivery, inside), outside) && {
                &&& delivery@ == delivery_of(before, log_domain, logged, levels[0], message)
                &&& inside@ == entered(before)
                &&& if delivery@.log_level & LOG_FLAG_FATAL == LOG_FLAG_FATAL {
                    aborts && after == left(outside@)
                } else {
                    logs(
                        deliver,
                        left(outside@),
                        log_domain,
                        logged,
                        levels.skip(1),
                        message,
                        after,
                        aborts,
                    )
                }
            }
    }
}

/// Log a message: each of its levels is delivered to its handler, the highest bit first. Returns
/// the state after it, and whether the process ends here, after a fatal level.
pub fn log<L: Copy, P: Copy, F: Fn(&Delivery<L>, MessagesState<L, P>) -> MessagesState<L, P>>(
    state: MessagesState<L, P>,
    log_domain: Option<&str>,
    log_level: LogLevelFlags,
    message: &str,
    deliver: &F,
) -> (result: (MessagesState<L, P>, bool))
    requires
        forall|delivery: &Delivery<L>, state: MessagesState<L, P>| #[trigger]
            deliver.requires((delivery, state)),
    ensures
        logs(
            *deliver,
            state@,
            domain_view(log_domain),
            log_level.mask(),
            single_levels(log_level.mask() & LOG_LEVEL_MASK, 32),
            message@,
            result.0@,
            result.1,
        ),
{
    log_levels_below(state, log_domain, log_level, 32, message, deliver)
}

/// Deliver the levels of a message from bit `n - 1` down.
fn log_levels_below<
    L: Copy,
    P: Copy,
    F: Fn(&Delivery<L>, MessagesState<L, P>) -> MessagesState<L, P>,
>(
    state: MessagesState<L, P>,
    log_domain: Option<&str>,
    log_level: LogLevelFlags,
    n: u32,
    message: &str,
    deliver: &F,
) -> (result: (MessagesState<L, P>, bool))
    requires
        n <= 32,
        forall|delivery: &Delivery<L>, state: MessagesState<L, P>| #[trigger]
            deliver.requires((delivery, state)),
    ensures
        logs(
            *deliver,
            state@,
            domain_view(log_domain),
            log_level.mask(),
            single_levels(log_level.mask() & LOG_LEVEL_MASK, n as nat),
            message@,
            result.0@,
            result.1,
        ),
    decreases n,
{
    if n == 0 {
        return (state, false);
    }
    let levels: u32 = log_level.level_mask().bits();
    let bit: u32 = 1u32 << (n - 1);
    let ghost rest = single_levels(levels, (n - 1) as nat);
    if (levels & bit) == 0 {
        return log_levels_below(state, log_domain, log_level, n - 1, message, deliver);
    }
    assert((seq![bit] + rest).skip(1) =~= rest);
    let single: LogLevelFlags = LogLevelFlags::from_bits(bit);
    let mut state = state;
    let delivery = log_enter(&mut state, log_domain, log_level, single, message);
    let fatal: bool = delivery.log_level.contains(LogLevelFlags::flag_fatal());
    let mut state = deliver(&delivery, state);
    log_leave(&mut state);
    if fatal {
        return (state, true);
    }
    log_levels_below(state, log_domain, log_level, n - 1, message, deliver)
}

/// Log a text that was put together from parts; see [`log`].
pub fn log_fmt<L: Copy, P: Copy, F: Fn(&Delivery<L>, MessagesState<L, P>) -> MessagesState<L, P>>(
    state: MessagesState<L, P>,
    log_domain: Option<&str>,
    log_level: LogLevelFlags,
    parts: &[&str],
    deliver: &F,
) -> (result: (MessagesState<L, P>, bool))
    requires
        forall|delivery: &Delivery<L>, state: MessagesState<L, P>| #[trigger]
            deliver.requires((delivery, state)),
    ensures
        logs(
            *deliver,
            state@,
            domain_view(log_domain),
            log_level.mask(),
            single_levels(log_level.mask() & LOG_LEVEL_MASK, 32),
            put_together(parts@),
            result.0@,
            result.1,
        ),
{
    let mut text: String = String::new();
    let mut i: usize = 0;
    assert(parts@.take(0) =~= Seq::<&str>::empty());
    while i < parts.len()
        invariant
            i <= parts@.len(),
            text@ == put_together(parts@.take(i as int)),
        decreases parts@.len() - i,
    {
        text.append(parts[i]);
        assert(parts@.take(i + 1).drop_last() =~= parts@.take(i as int));
        i = i + 1;
    }
    assert(parts@.take(i as int) =~= parts@);
    log(state, log_domain, log_level, text.as_str(), deliver)
}

/// Texts, one after the other.
pub open spec fn put_together(parts: Seq<&str>) -> Seq<char>
    decreases parts.len(),
{
    if parts.len() == 0 {
        Seq::empty()
    } else {
        put_together(parts.drop_last()) + parts.last()@
    }
}

/// Log a message without a domain; see [`log`].
pub fn message<L: Copy, P: Copy, F: Fn(&Delivery<L>, MessagesState<L, P>) -> MessagesState<L, P>>(
    state: MessagesState<L, P>,
    text: &str,
    deliver: &F,
) -> (result: (MessagesState<L, P>, bool))
    requires
        forall|delivery: &Delivery<L>, state: MessagesState<L, P>| #[trigger]
            deliver.requires((delivery, state)),
    ensures
        logs(
            *deliver,
            state@,
            None,
            LOG_LEVEL_MESSAGE,
            single_levels(LOG_LEVEL_MESSAGE & LOG_LEVEL_MASK, 32),
            text@,
            result.0@,
            result.1,
        ),
{
    log(state, None, LogLevelFlags::level_message(), text, deliver)
}

/// Log a warning without a domain; see [`log`].
pub fn warning<L: Copy, P: Copy, F: Fn(&Delivery<L>, MessagesState<L, P>) -> MessagesState<L, P>>(
    state: MessagesState<L, P>,
    message: &str,
    deliver: &F,
) -> (result: (MessagesState<L, P>, bool))
    requires
        forall|delivery: &Delivery<L>, state: MessagesState<L, P>| #[trigger]
            deliver.requires((delivery, state)),
    ensures
        logs(
            *deliver,
            state@,
            None,
            LOG_LEVEL_WARNING,
            single_levels(LOG_LEVEL_WARNING & LOG_LEVEL_MASK, 32),
            message@,
            result.0@,
            result.1,
        ),
{
    log(state, None, LogLevelFlags::level_warning(), message, deliver)
}

/// Log a critical warning without a domain; see [`log`].
pub fn critical<L: Copy, P: Copy, F: Fn(&Delivery<L>, MessagesState<L, P>) -> MessagesState<L, P>>(
    state: MessagesState<L, P>,
    message: &str,
    deliver: &F,
) -> (result: (MessagesState<L, P>, bool))
    requires
        forall|delivery: &Delivery<L>, state: MessagesState<L, P>| #[trigger]
            deliver.requires((delivery, state)),
    ensures
        logs(
            *deliver,
            state@,
            None,
            LOG_LEVEL_CRITICAL,
            single_levels(LOG_LEVEL_CRITICAL & LOG_LEVEL_MASK, 32),
            message@,
            result.0@,
            result.1,
        ),
{
    log(state, None, LogLevelFlags::level_critical(), message, deliver)
}

/// Log an informational message without a domain; see [`log`].
pub fn info<L: Copy, P: Copy, F: Fn(&Delivery<L>, MessagesState<L, P>) -> MessagesState<L, P>>(
    state: MessagesState<L, P>,
    message: &str,
    deliver: &F,
) -> (result: (MessagesState<L, P>, bool))
    requires
        forall|delivery: &Delivery<L>, state: MessagesState<L, P>| #[trigger]
            deliver.requires((delivery, state)),
    ensures
        logs(
            *deliver,
            state@,
            None,
            LOG_LEVEL_INFO,
            single_levels(LOG_LEVEL_INFO & LOG_LEVEL_MASK, 32),
            message@,
            result.0@,
            result.1,
        ),
{
    log(state, None, LogLevelFlags::level_info(), message, deliver)
}

/// Log a debugging message without a domain; see [`log`].
pub fn debug<L: Copy, P: Copy, F: Fn(&Delivery<L>, MessagesState<L, P>) -> MessagesState<L, P>>(
    state: MessagesState<L, P>,
    message: &str,
    deliver: &F,
) -> (result: (MessagesState<L, P>, bool))
    requires
        forall|delivery: &Delivery<L>, state: MessagesState<L, P>| #[trigger]
            deliver.requires((delivery, state)),
    ensures
        logs(
            *deliver,
            state@,
            None,
            LOG_LEVEL_DEBUG,
            single_levels(LOG_LEVEL_DEBUG & LOG_LEVEL_MASK, 32),
            message@,
            result.0@,
            result.1,
        ),
{
    log(state, None, LogLevelFlags::level_debug(), message, deliver)
}

/// Set the handler for printed texts; none restores the default one. Returns the one before.
pub fn set_print_handler<L: Copy, P: Copy>(
    state: &mut MessagesState<L, P>,
    func: Option<P>,
) -> (before: PrintFunc<P>)
    ensures
        before == old(state)@.print_handler,
        final(state)@ == (MessagesView {
            print_handler: match func {
                Some(own) => PrintFunc::User(own),
                None => PrintFunc::Default,
            },
            ..old(state)@
        }),
{
    let before: PrintFunc<P> = state.print_handler;
    state.print_handler = match func {
        Some(own) => PrintFunc::User(own),
        None => PrintFunc::Default,
    };
    assert(state@ =~= (MessagesView { print_handler: state.print_handler, ..old(state)@ }));
    before
}

/// Set the handler for texts printed to standard error; none restores the default one. Returns the
/// one before.
pub fn set_printerr_handler<L: Copy, P: Copy>(
    state: &mut MessagesState<L, P>,
    func: Option<P>,
) -> (before: PrintFunc<P>)
    ensures
        before == old(state)@.printerr_handler,
        final(state)@ == (MessagesView {
            printerr_handler: match func {
                Some(own) => PrintFunc::User(own),
                None => PrintFunc::Default,
            },
            ..old(state)@
        }),
{
    let before: PrintFunc<P> = state.printerr_handler;
    state.printerr_handler = match func {
        Some(own) => PrintFunc::User(own),
        None => PrintFunc::Default,
    };
    assert(state@ =~= (MessagesView { printerr_handler: state.printerr_handler, ..old(state)@ }));
    before
}

/// Print a text: `output` runs the current print handler on it.
pub fn print<L: Copy, P: Copy, R, F: Fn(PrintFunc<P>, &str) -> R>(
    state: &MessagesState<L, P>,
    string: &str,
    output: F,
) -> (result: R)
    requires
        forall|func: PrintFunc<P>, text: &str| #[trigger] output.requires((func, text)),
    ensures
        output.ensures((state@.print_handler, string), result),
{
    output(state.print_handler, string)
}

/// Print a text to standard error: `output` runs the current handler for that on it.
pub fn printerr<L: Copy, P: Copy, R, F: Fn(PrintFunc<P>, &str) -> R>(
    state: &MessagesState<L, P>,
    string: &str,
    output: F,
) -> (result: R)
    requires
        forall|func: PrintFunc<P>, text: &str| #[trigger] output.requires((func, text)),
    ensures
        output.ensures((state@.printerr_handler, string), result),
{
    output(state.printerr_handler, string)
}

/// The handler that was set last wins over all others that are for the same level.
pub proof fn law_newest_handler_wins<L>(
    handlers: Seq<LogHandlerEntry<L>>,
    entry: LogHandlerEntry<L>,
    level: u32,
    default_handler: (LogFunc<L>, GPointer),
)
    ensures
        entry.log_levels.mask() & level == level ==> handler_for(
            seq![entry] + handlers,
            level,
            default_handler,
        ) == (entry.func, entry.user_data),
        entry.log_levels.mask() & level != level ==> handler_for(
            seq![entry] + handlers,
            level,
            default_handler,
        ) == handler_for(handlers, level, default_handler),
{
    let all = seq![entry] + handlers;
    assert(all[0] == entry);
    assert(all.skip(1) =~= handlers);
}

/// Removing a handler right after it was set leaves the handlers of its domain as they were.
pub proof fn law_remove_undoes_set<L>(
    handlers: Seq<LogHandlerEntry<L>>,
    entry: LogHandlerEntry<L>,
)
    ensures
        handler_index(seq![entry] + handlers, entry.id, 0) == 0,
        (seq![entry] + handlers).remove(0) == handlers,
{
    let all = seq![entry] + handlers;
    assert(all[0] == entry);
    assert(all.remove(0) =~= handlers);
}

/// Handling a message changes nothing but the number of messages that are being handled, and that
/// only while it lasts.
pub proof fn law_handling_is_balanced<L, P>(state: MessagesView<L, P>)
    requires
        state.log_depth < u32::MAX,
    ensures
        left(entered(state)) == state,
{
}

/// While a message is being handled, another does not go to the handlers of its domain.
pub proof fn law_no_recursion<L, P>(
    state: MessagesView<L, P>,
    log_domain: Option<Seq<char>>,
    logged: u32,
    level: u32,
    message: Seq<char>,
)
    requires
        state.log_depth > 0,
    ensures
        delivery_of(state, log_domain, logged, level, message).func == LogFunc::<L>::Fallback,
{
    let key = domain_key(log_domain);
    let fatal = if logged & LOG_FLAG_FATAL == LOG_FLAG_FATAL {
        level | LOG_FLAG_FATAL
    } else {
        level
    };
    assert((fatal | 1u32) & 1u32 == 1u32) by (bit_vector);
    assert(((fatal | 1u32) | 2u32) & 1u32 == 1u32) by (bit_vector);
}

/// An error is fatal in every domain in which errors are, as they are by default.
pub proof fn law_errors_are_fatal<L, P>(
    state: MessagesView<L, P>,
    log_domain: Option<Seq<char>>,
    logged: u32,
    message: Seq<char>,
)
    requires
        state.fatal_masks[domain_key(log_domain)] & LOG_LEVEL_ERROR == LOG_LEVEL_ERROR,
    ensures
        delivery_of(state, log_domain, logged, LOG_LEVEL_ERROR, message).log_level & LOG_FLAG_FATAL
            == LOG_FLAG_FATAL,
{
    let key = domain_key(log_domain);
    let mask = state.fatal_masks[key];
    let always = state.always_fatal;
    let fatal = if logged & LOG_FLAG_FATAL == LOG_FLAG_FATAL {
        LOG_LEVEL_ERROR | LOG_FLAG_FATAL
    } else {
        LOG_LEVEL_ERROR
    };
    let recursed = if logged & LOG_FLAG_RECURSION == LOG_FLAG_RECURSION || state.log_depth > 0 {
        fatal | LOG_FLAG_RECURSION
    } else {
        fatal
    };
    assert(recursed & 4u32 == 4u32) by {
        assert(4u32 & 4u32 == 4u32) by (bit_vector);
        assert((4u32 | 2u32) & 4u32 == 4u32) by (bit_vector);
        assert((4u32 | 1u32) & 4u32 == 4u32) by (bit_vector);
        assert(((4u32 | 2u32) | 1u32) & 4u32 == 4u32) by (bit_vector);
    }
    assert((mask | always) & recursed != 0) by (bit_vector)
        requires
            mask & 4u32 == 4u32,
            recursed & 4u32 == 4u32,
    ;
    assert((recursed | 2u32) & 2u32 == 2u32) by (bit_vector);
}

/// The place of a handler in its domain: the first one with the number, if there is one.
pub proof fn law_handler_is_found<L>(handlers: Seq<LogHandlerEntry<L>>, id: u32)
    ensures
        ({
            let place = handler_index(handlers, id, 0);
            let known = exists|i: int| 0 <= i < handlers.len() && (#[trigger] handlers[i]).id == id;
            &&& 0 <= place <= handlers.len()
            &&& (place < handlers.len()) == known
            &&& known ==> handlers[place].id == id
            &&& forall|i: int| 0 <= i < place ==> (#[trigger] handlers[i]).id != id
        }),
{
    lemma_handler_index(handlers, id, 0);
}

proof fn lemma_handler_index<L>(handlers: Seq<LogHandlerEntry<L>>, id: u32, from: int)
    requires
        0 <= from <= handlers.len(),
    ensures
        from <= handler_index(handlers, id, from) <= handlers.len(),
        handler_index(handlers, id, from) < handlers.len() ==> handlers[handler_index(
            handlers,
            id,
            from,
        )].id == id,
        forall|i: int|
            from <= i < handler_index(handlers, id, from) ==> (#[trigger] handlers[i]).id != id,
    decreases handlers.len() - from,
{
    if from < handlers.len() && handlers[from].id != id {
        lemma_handler_index(handlers, id, from + 1);
    }
}

/// Removing a handler that is set in a domain, whatever was set after it: there is one handler less,
/// the others stay in their order, and where no two have one number none with that number is left.
pub proof fn law_removed_handler_is_gone<L>(handlers: Seq<LogHandlerEntry<L>>, at: int)
    requires
        0 <= at < handlers.len(),
    ensures
        ({
            let id = handlers[at].id;
            let place = handler_index(handlers, id, 0);
            let after = handlers.remove(place);
            &&& 0 <= place <= at
            &&& handlers[place].id == id
            &&& after.len() == handlers.len() - 1
            &&& forall|i: int| 0 <= i < place ==> #[trigger] after[i] == handlers[i]
            &&& forall|i: int| place <= i < after.len() ==> #[trigger] after[i] == handlers[i + 1]
            &&& (forall|i: int, j: int|
                0 <= i < j < handlers.len() ==> (#[trigger] handlers[i]).id != (
                #[trigger] handlers[j]).id) ==> place == at && forall|i: int|
                0 <= i < after.len() ==> (#[trigger] after[i]).id != id
        }),
{
    let id = handlers[at].id;
    law_handler_is_found(handlers, id);
    let place = handler_index(handlers, id, 0);
    let after = handlers.remove(place);
    if forall|i: int, j: int|
        0 <= i < j < handlers.len() ==> (#[trigger] handlers[i]).id != (#[trigger] handlers[j]).id {
        assert forall|i: int| 0 <= i < after.len() implies (#[trigger] after[i]).id != id by {
            if i < place {
                assert(handlers[i].id != id);
            } else {
                assert(handlers[place].id != handlers[i + 1].id);
            }
        }
    }
}

/// The handler of a level is the first, so the newest, that is for all of the level; the default one
/// where none is.
pub proof fn law_first_handler_for_level<L>(
    handlers: Seq<LogHandlerEntry<L>>,
    level: u32,
    default_handler: (LogFunc<L>, GPointer),
)
    ensures
        ({
            let chosen = handler_for(handlers, level, default_handler);
            ||| {
                &&& chosen == default_handler
                &&& forall|i: int|
                    0 <= i < handlers.len() ==> (#[trigger] handlers[i]).log_levels.mask() & level
                        != level
            }
            ||| exists|i: int|
                {
                    &&& 0 <= i < handlers.len()
                    &&& (#[trigger] handlers[i]).log_levels.mask() & level == level
                    &&& chosen == (handlers[i].func, handlers[i].user_data)
                    &&& forall|j: int|
                        0 <= j < i ==> (#[trigger] handlers[j]).log_levels.mask() & level != level
                }
        }),
    decreases handlers.len(),
{
    if handlers.len() > 0 {
        if handlers[0].log_levels.mask() & level == level {
            assert(handlers[0].log_levels.mask() & level == level);
        } else {
            let rest = handlers.skip(1);
            law_first_handler_for_level(rest, level, default_handler);
            let chosen = handler_for(rest, level, default_handler);
            if exists|i: int|
                {
                    &&& 0 <= i < rest.len()
                    &&& (#[trigger] rest[i]).log_levels.mask() & level == level
                    &&& chosen == (rest[i].func, rest[i].user_data)
                    &&& forall|j: int|
                        0 <= j < i ==> (#[trigger] rest[j]).log_levels.mask() & level != level
                } {
                let i = choose|i: int|
                    {
                        &&& 0 <= i < rest.len()
                        &&& (#[trigger] rest[i]).log_levels.mask() & level == level
                        &&& chosen == (rest[i].func, rest[i].user_data)
                        &&& forall|j: int|
                            0 <= j < i ==> (#[trigger] rest[j]).log_levels.mask() & level != level
                    };
                assert(handlers[i + 1] == rest[i]);
                assert forall|j: int| 0 <= j < i + 1 implies (
                #[trigger] handlers[j]).log_levels.mask() & level != level by {
                    if j > 0 {
                        assert(handlers[j] == rest[j - 1]);
                    }
                }
                assert(handlers[i + 1].log_levels.mask() & level == level);
            } else {
                assert forall|i: int| 0 <= i < handlers.len() implies (
                #[trigger] handlers[i]).log_levels.mask() & level != level by {
                    if i > 0 {
                        assert(handlers[i] == rest[i - 1]);
                    }
                }
            }
        }
    }
}

/// What is delivered for one level of a message: the message and the domain as they were logged, and
/// the level with the two flags. The flag of recursion is there exactly where the message was logged
/// with it or while another is handled, and then the handler for that gets the message; else the
/// newest handler of the domain that is for the level, or the default one. The flag of fatal
/// messages is there exactly where the message was logged with it, or the domain or the state says
/// so of the level or of its flags.
pub proof fn law_delivery<L, P>(
    state: MessagesView<L, P>,
    log_domain: Option<Seq<char>>,
    logged: u32,
    level: u32,
    message: Seq<char>,
)
    requires
        level & 3u32 == 0,
    ensures
        ({
            let d = delivery_of(state, log_domain, logged, level, message);
            let key = match log_domain {
                Some(domain) => domain,
                None => Seq::<char>::empty(),
            };
            let recursed = logged & 1u32 == 1u32 || state.log_depth > 0;
            let asked = logged & 2u32 == 2u32;
            let flags = (if recursed {
                1u32
            } else {
                0u32
            }) | (if asked {
                2u32
            } else {
                0u32
            });
            let fatal = asked || (state.fatal_masks[key] | state.always_fatal) & (level | flags)
                != 0;
            &&& d.message == message
            &&& d.log_domain == log_domain
            &&& d.log_level & 0xffff_fffcu32 == level
            &&& (d.log_level & 1u32 == 1u32) == recursed
            &&& (d.log_level & 2u32 == 2u32) == fatal
            &&& recursed ==> d.func == LogFunc::<L>::Fallback && d.user_data == 0
            &&& !recursed ==> (d.func, d.user_data) == handler_for(
                state.handlers[key],
                d.log_level,
                state.default_handler,
            )
        }),
{
    assert(level & 3u32 == 0 ==> {
        &&& level & 1u32 == 0
        &&& level & 2u32 == 0
        &&& level & 0xffff_fffcu32 == level
        &&& (level | 2u32) & 1u32 == 0
        &&& (level | 2u32) & 2u32 == 2u32
        &&& (level | 2u32) & 0xffff_fffcu32 == level
        &&& (level | 1u32) & 1u32 == 1u32
        &&& (level | 1u32) & 2u32 == 0
        &&& (level | 1u32) & 0xffff_fffcu32 == level
        &&& ((level | 2u32) | 1u32) & 1u32 == 1u32
        &&& ((level | 2u32) | 1u32) & 2u32 == 2u32
        &&& ((level | 2u32) | 1u32) & 0xffff_fffcu32 == level
        &&& ((level | 1u32) | 2u32) == ((level | 2u32) | 1u32)
        &&& ((level | 2u32) | 2u32) == level | 2u32
        &&& (((level | 2u32) | 1u32) | 2u32) == ((level | 2u32) | 1u32)
        &&& level | (0u32 | 0u32) == level
        &&& level | (1u32 | 0u32) == level | 1u32
        &&& level | (0u32 | 2u32) == level | 2u32
        &&& level | (1u32 | 2u32) == ((level | 2u32) | 1u32)
    }) by (bit_vector);
}

/// The levels of a message, one at a time: exactly its bits, each once, the highest first. Returned
/// are the numbers of the bits.
pub proof fn law_single_levels(levels: u32, n: nat) -> (bits: Seq<u32>)
    requires
        n <= 32,
    ensures
        bits.len() == single_levels(levels, n).len(),
        forall|i: int|
            0 <= i < bits.len() ==> {
                &&& #[trigger] bits[i] < n
                &&& single_levels(levels, n)[i] == 1u32 << bits[i]
                &&& levels & (1u32 << bits[i]) != 0
            },
        forall|b: u32|
            b < n && levels & (1u32 << b) != 0 ==> single_levels(levels, n).contains(
                #[trigger] (1u32 << b),
            ),
        forall|i: int, j: int|
            0 <= i < j < single_levels(levels, n).len() ==> #[trigger] single_levels(levels, n)[i]
                > #[trigger] single_levels(levels, n)[j],
    decreases n,
{
    let all = single_levels(levels, n);
    assert forall|b: u32| b < n && levels & (1u32 << b) != 0 implies all.contains(
        #[trigger] (1u32 << b),
    ) by {
        lemma_single_level_of(levels, n, b);
    }
    assert forall|i: int, j: int| 0 <= i < j < all.len() implies #[trigger] all[i]
        > #[trigger] all[j] by {
        lemma_single_levels_fall(levels, n, i, j);
    }
    if n == 0 {
        Seq::empty()
    } else {
        let top = (n - 1) as u32;
        let less = law_single_levels(levels, (n - 1) as nat);
        if levels & (1u32 << top) != 0 {
            seq![top] + less
        } else {
            less
        }
    }
}

proof fn lemma_single_level(levels: u32, n: nat, i: int) -> (b: u32)
    requires
        n <= 32,
        0 <= i < single_levels(levels, n).len(),
    ensures
        b < n,
        single_levels(levels, n)[i] == 1u32 << b,
    decreases n,
{
    let top = (n - 1) as u32;
    if levels & (1u32 << top) == 0 {
        lemma_single_level(levels, (n - 1) as nat, i)
    } else if i > 0 {
        lemma_single_level(levels, (n - 1) as nat, i - 1)
    } else {
        top
    }
}

proof fn lemma_single_level_of(levels: u32, n: nat, b: u32)
    requires
        b < n <= 32,
        levels & (1u32 << b) != 0,
    ensures
        single_levels(levels, n).contains(1u32 << b),
    decreases n,
{
    let all = single_levels(levels, n);
    let less = single_levels(levels, (n - 1) as nat);
    if b == n - 1 {
        assert(all[0] == 1u32 << b);
    } else {
        lemma_single_level_of(levels, (n - 1) as nat, b);
        let i = choose|i: int| 0 <= i < less.len() && less[i] == 1u32 << b;
        if all.len() == less.len() {
            assert(all[i] == 1u32 << b);
        } else {
            assert(all[i + 1] == 1u32 << b);
        }
    }
}

proof fn lemma_single_levels_fall(levels: u32, n: nat, i: int, j: int)
    requires
        n <= 32,
        0 <= i < j < single_levels(levels, n).len(),
    ensures
        single_levels(levels, n)[i] > single_levels(levels, n)[j],
    decreases n,
{
    let top = (n - 1) as u32;
    if levels & (1u32 << top) == 0 {
        lemma_single_levels_fall(levels, (n - 1) as nat, i, j);
    } else if i > 0 {
        lemma_single_levels_fall(levels, (n - 1) as nat, i - 1, j - 1);
    } else {
        let b = lemma_single_level(levels, (n - 1) as nat, j - 1);
        assert(b < top && top < 32 ==> 1u32 << b < 1u32 << top) by (bit_vector);
    }
}

/// What logging a message does: its levels are delivered one after the other, each in the state that
/// the delivery before left, with one message more being handled; all of them, or up to the first
/// that is fatal, and exactly then the process ends.
pub proof fn law_log_delivers<
    L: Copy,
    P: Copy,
    F: Fn(&Delivery<L>, MessagesState<L, P>) -> MessagesState<L, P>,
>(
    deliver: F,
    before: MessagesView<L, P>,
    log_domain: Option<Seq<char>>,
    logged: u32,
    levels: Seq<u32>,
    message: Seq<char>,
    after: MessagesView<L, P>,
    aborts: bool,
) -> (calls: Seq<(Delivery<L>, MessagesState<L, P>, MessagesState<L, P>)>)
    requires
        logs(deliver, before, log_domain, logged, levels, message, after, aborts),
    ensures
        calls.len() <= levels.len(),
        forall|i: int|
            0 <= i < calls.len() ==> {
                let (made, inside, outside) = #[trigger] calls[i];
                let state = if i == 0 {
                    before
                } else {
                    left(calls[i - 1].2@)
                };
                &&& deliver.ensures((&made, inside), outside)
                &&& made@ == delivery_of(state, log_domain, logged, levels[i], message)
                &&& inside@ == entered(state)
                &&& made@.log_level & 2u32 == 2u32 ==> aborts && i == calls.len() - 1
            },
        !aborts ==> calls.len() == levels.len(),
        aborts ==> calls.len() > 0 && calls.last().0@.log_level & 2u32 == 2u32,
        after == (if calls.len() == 0 {
            before
        } else {
            left(calls.last().2@)
        }),
    decreases levels.len(),
{
    if levels.len() == 0 {
        Seq::empty()
    } else {
        let (delivery, inside, outside) = choose|
            delivery: Delivery<L>,
            inside: MessagesState<L, P>,
            outside: MessagesState<L, P>,
        | #[trigger]
            deliver.ensures((&delivery, inside), outside) && {
                &&& delivery@ == delivery_of(before, log_domain, logged, levels[0], message)
                &&& inside@ == entered(before)
                &&& if delivery@.log_level & LOG_FLAG_FATAL == LOG_FLAG_FATAL {
                    aborts && after == left(outside@)
                } else {
                    logs(
                        deliver,
                        left(outside@),
                        log_domain,
                        logged,
                        levels.skip(1),
                        message,
                        after,
                        aborts,
                    )
                }
            };
        let one = seq![(delivery, inside, outside)];
        if delivery@.log_level & LOG_FLAG_FATAL == LOG_FLAG_FATAL {
            one
        } else {
            let rest = law_log_delivers(
                deliver,
                left(outside@),
                log_domain,
                logged,
                levels.skip(1),
                message,
                after,
                aborts,
            );
            let calls = one + rest;
            assert forall|i: int| 0 <= i < calls.len() implies {
                let (made, inside, outside) = #[trigger] calls[i];
                let state = if i == 0 {
                    before
                } else {
                    left(calls[i - 1].2@)
                };
                &&& deliver.ensures((&made, inside), outside)
                &&& made@ == delivery_of(state, log_domain, logged, levels[i], message)
                &&& inside@ == entered(state)
                &&& made@.log_level & 2u32 == 2u32 ==> aborts && i == calls.len() - 1
            } by {
                if i > 0 {
                    assert(calls[i] == rest[i - 1]);
                    assert(levels.skip(1)[i - 1] == levels[i]);
                    if i > 1 {
                        assert(calls[i - 1] == rest[i - 2]);
                    } else {
                        assert(calls[0] == (delivery, inside, outside));
                    }
                }
            }
            if rest.len() > 0 {
                assert(calls.last() == rest.last());
            }
            calls
        }
    }
}

/// While a message is being handled the number of these is one higher, and one lower after it, as
/// far as it can be counted; nothing else is touched.
pub proof fn law_handling_is_counted<L, P>(state: MessagesView<L, P>)
    ensures
        state.log_depth < u32::MAX ==> entered(state).log_depth == state.log_depth + 1,
        state.log_depth > 0 ==> left(state).log_depth == state.log_depth - 1,
        state.log_depth == u32::MAX ==> entered(state).log_depth == u32::MAX,
        state.log_depth == 0 ==> left(state).log_depth == 0,
        entered(state).print_handler == state.print_handler,
        entered(state).printerr_handler == state.printerr_handler,
        entered(state).next_handler_id == state.next_handler_id,
        left(state).print_handler == state.print_handler,
        left(state).printerr_handler == state.printerr_handler,
        left(state).next_handler_id == state.next_handler_id,
        entered(state).handlers == state.handlers && left(state).handlers == state.handlers,
        entered(state).default_handler == state.default_handler,
        left(state).default_handler == state.default_handler,
        entered(state).fatal_masks == state.fatal_masks,
        left(state).fatal_masks == state.fatal_masks,
        entered(state).always_fatal == state.always_fatal,
        left(state).always_fatal == state.always_fatal,
{
}

/// A log line, from its start to its end: an empty line where the level is an error, a critical
/// warning or a warning; stars, or the domain and a dash; the level; a colon and a space; the
/// message, or a text in place of an empty one; and one line end.
pub proof fn law_log_line(log_domain: Option<Seq<char>>, level: u32, message: Seq<char>)
    ensures
        ({
            let line = log_line(log_domain, level, message);
            let name = prefix_of(level);
            let text = if message.len() == 0 {
                "(NULL) message"@
            } else {
                message
            };
            let start = if level & (4u32 | 8u32 | 16u32) != 0 {
                1int
            } else {
                0int
            };
            let lead = match log_domain {
                None => 3int,
                Some(domain) => if domain.len() == 0 {
                    0
                } else {
                    domain.len() as int + 1
                },
            };
            let at = start + lead + name.len() + 2;
            &&& line.len() >= at + text.len()
            &&& start == 1 ==> line[0] == '\n'
            &&& log_domain is None ==> line.subrange(start, start + 3) == "** "@
            &&& log_domain matches Some(domain) ==> domain.len() > 0 ==> line.subrange(
                start,
                start + domain.len(),
            ) == domain && line[start + domain.len()] == '-'
            &&& line.subrange(start + lead, at - 2) == name
            &&& line[at - 2] == ':' && line[at - 1] == ' '
            &&& line.subrange(at, at + text.len()) == text
            &&& line.last() == '\n'
            &&& line.len() == at + text.len() + (if text.last() == '\n' {
                0int
            } else {
                1int
            })
        }),
{
    reveal_strlit("(NULL) message");
    reveal_strlit("\n");
    reveal_strlit("** ");
    reveal_strlit("-");
    reveal_strlit(": ");
    assert(4u32 | 8u32 | 16u32 == 28u32) by (bit_vector);
    let line = log_line(log_domain, level, message);
    let name = prefix_of(level);
    let text = if message.len() == 0 {
        "(NULL) message"@
    } else {
        message
    };
    let start = if level & 28u32 != 0 {
        1int
    } else {
        0int
    };
    let lead = match log_domain {
        None => 3int,
        Some(domain) => if domain.len() == 0 {
            0
        } else {
            domain.len() as int + 1
        },
    };
    let at = start + lead + name.len() + 2;
    assert(line.subrange(at, at + text.len()) =~= text);
    assert(line.subrange(start + lead, at - 2) =~= name);
    match log_domain {
        None => assert(line.subrange(start, start + 3) =~= "** "@),
        Some(domain) => {
            if domain.len() > 0 {
                assert(line.subrange(start, start + domain.len()) =~= domain);
            }
        },
    }
}

/// How a level reads in a log line: by its name where it is one named level, else by its number in
/// hexadecimal; then a mark for recursion, and one for errors, critical warnings and warnings.
pub proof fn law_level_reads(level: u32)
    ensures
        ({
            let only = level & 0xffff_fffcu32;
            let name = level_name(level);
            &&& only == 4 ==> name == "ERROR"@
            &&& only == 8 ==> name == "CRITICAL"@
            &&& only == 16 ==> name == "WARNING"@
            &&& only == 32 ==> name == "Message"@
            &&& only == 64 ==> name == "INFO"@
            &&& only == 128 ==> name == "DEBUG"@
            &&& only == 0 ==> name == "LOG"@
            &&& ![0u32, 4u32, 8u32, 16u32, 32u32, 64u32, 128u32]@.contains(only) ==> name == "LOG-"@
                + crate::number::written(only as nat, 16)
            &&& prefix_of(level) == name + (if level & 1u32 == 1u32 {
                " (recursed)"@
            } else {
                Seq::empty()
            }) + (if level & (4u32 | 8u32 | 16u32) != 0 {
                " **"@
            } else {
                Seq::empty()
            })
        }),
{
    assert(4u32 | 8u32 | 16u32 == 28u32) by (bit_vector);
    let named = [0u32, 4u32, 8u32, 16u32, 32u32, 64u32, 128u32]@;
    assert(named[0] == 0 && named[1] == 4 && named[2] == 8 && named[3] == 16 && named[4] == 32
        && named[5] == 64 && named[6] == 128);
}

/// Errors, critical warnings, warnings and messages are written to standard error, all else to
/// standard output.
pub proof fn law_stream(level: u32)
    ensures
        (stream_of(level) == LogStream::Stderr) == (level & 4u32 != 0 || level & 8u32 != 0 || level
            & 16u32 != 0 || level & 32u32 != 0),
{
    assert((level & 60u32 != 0) == (level & 4u32 != 0 || level & 8u32 != 0 || level & 16u32 != 0
        || level & 32u32 != 0)) by (bit_vector);
}

/// A text that is put together has all its parts, one after the other.
pub proof fn law_put_together(a: Seq<&str>, b: Seq<&str>, part: &str)
    ensures
        put_together(a + b) == put_together(a) + put_together(b),
        put_together(seq![part]) == part@,
    decreases b.len(),
{
    reveal_with_fuel(put_together, 2);
    assert(seq![part].drop_last() =~= Seq::<&str>::empty());
    assert(Seq::<char>::empty() + part@ =~= part@);
    if b.len() == 0 {
        assert(a + b =~= a);
        assert(put_together(a) + Seq::<char>::empty() =~= put_together(a));
    } else {
        law_put_together(a, b.drop_last(), part);
        assert((a + b).drop_last() =~= a + b.drop_last());
        assert(put_together(a + b) =~= put_together(a) + put_together(b));
    }
}

/// A message without a domain goes where one with the empty domain goes; domains that differ
/// otherwise have handlers of their own.
pub proof fn law_domains(a: Seq<char>, b: Seq<char>)
    ensures
        domain_key(None) == domain_key(Some(Seq::empty())),
        a != b ==> domain_key(Some(a)) != domain_key(Some(b)),
        a.len() > 0 ==> domain_key(Some(a)) != domain_key(None),
{
}

} // verus!
