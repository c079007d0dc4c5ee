//! Command-line option parsing.
//!
//! An [`OptionContext`] holds groups of option entries. Parsing an argument
//! vector sets the values that the entries name in an [`OptionStore`] and takes
//! the parsed arguments out of the vector. Where it fails, values and vector
//! stay as they were.
//!
//! What a parse does is worked out first, as an [`OptionPlan`]: the new values,
//! the arguments that stay, and the callbacks to call on the way, in order.

use vstd::prelude::*;
use vstd::string::{StrSliceExecFns, StringExecFns};
use crate::error::{Error, ErrorView};
use crate::number::{read_integer, IntegerText};
use crate::ptr_array::GPointer;
use crate::quark::{quark_from_static_string, Quark, QuarkTable};
use crate::text::{
    copied, joined, joined3, quoted, same_text, skipped, starts_with, starts_with_char,
};

pub mod option_flags;

verus! {

/// The long name of an entry that collects the arguments that are no options.
pub const OPTION_REMAINING: &'static str = "";

/// The string of the error domain of option parsing.
pub const OPTION_ERROR_DOMAIN: &'static str = "g-option-context-error-quark";

/// The error domain of option parsing.
pub fn option_error_quark(table: &mut QuarkTable) -> (quark: Quark)
    requires
        old(table).wf(),
        old(table).has_room(OPTION_ERROR_DOMAIN@),
    ensures
        final(table).wf(),
        final(table)@ == crate::quark::with_string(old(table)@, OPTION_ERROR_DOMAIN@),
        final(table).copies() == (if old(table)@.contains(OPTION_ERROR_DOMAIN@) {
            old(table).copies()
        } else {
            old(table).copies().push(false)
        }),
        quark == crate::quark::quark_of(final(table)@, OPTION_ERROR_DOMAIN@),
        quark > 0,
{
    quark_from_static_string(table, Some(OPTION_ERROR_DOMAIN))
}

/// Why option parsing failed.
#[derive(Debug, Clone, Copy, PartialEq, Eq, Structural)]
pub enum OptionError {
    /// There is no such option.
    UnknownOption,
    /// A value could not be read.
    BadValue,
    /// A callback failed, or another error.
    Failed,
}

impl OptionError {
    /// The code of the error in the domain of option parsing.
    pub open spec fn number(self) -> i32 {
        match self {
            OptionError::UnknownOption => 0,
            OptionError::BadValue => 1,
            OptionError::Failed => 2,
        }
    }

    /// The code of the error in the domain of option parsing.
    pub fn code(self) -> (code: i32)
        ensures
            code == self.number(),
    {
        match self {
            OptionError::UnknownOption => 0,
            OptionError::BadValue => 1,
            OptionError::Failed => 2,
        }
    }
}

/// A set of [`option_flags`].
pub type OptionFlags = i32;

/// What an option takes as its argument.
#[derive(Debug, Clone, Copy, PartialEq, Eq, Structural)]
pub enum OptionArg {
    /// Nothing: a switch.
    NoArg,
    /// A text.
    String,
    /// A 32-bit integer.
    Int,
    /// What a callback makes of it.
    Callback,
    /// A file name.
    Filename,
    /// Texts, one for each time the option is given.
    StringArray,
    /// File names, one for each time the option is given.
    FilenameArray,
    /// A floating-point number; not supported.
    Double,
    /// A 64-bit integer; not supported.
    Int64,
}

/// A value that an option sets.
#[derive(Debug)]
pub enum OptionValue {
    Bool(bool),
    Int(i32),
    Text(String),
    Texts(Vec<String>),
}

/// What a value holds.
pub enum ValueView {
    Bool(bool),
    Int(i32),
    Text(Seq<char>),
    Texts(Seq<Seq<char>>),
}

impl View for OptionValue {
    type V = ValueView;

    open spec fn view(&self) -> ValueView {
        match self {
            OptionValue::Bool(b) => ValueView::Bool(*b),
            OptionValue::Int(i) => ValueView::Int(*i),
            OptionValue::Text(t) => ValueView::Text(t@),
            OptionValue::Texts(list) => ValueView::Texts(crate::text::texts(list@)),
        }
    }
}

/// The values that options set. An entry names its value by the place in the store.
pub struct OptionStore {
    pub values: Vec<OptionValue>,
}

/// What a sequence of values holds.
pub open spec fn held(values: Seq<OptionValue>) -> Seq<ValueView> {
    Seq::new(values.len(), |i: int| values[i]@)
}

impl View for OptionStore {
    type V = Seq<ValueView>;

    open spec fn view(&self) -> Seq<ValueView> {
        held(self.values@)
    }
}

impl OptionStore {
    /// A store without values.
    pub fn new() -> (store: Self)
        ensures
            store@ == Seq::<ValueView>::empty(),
    {
        let store = OptionStore { values: Vec::new() };
        assert(store@ =~= Seq::<ValueView>::empty());
        store
    }

    /// Add a value. Returns its place.
    pub fn put(&mut self, value: OptionValue) -> (place: GPointer)
        ensures
            place == old(self)@.len(),
            final(self)@ == old(self)@.push(value@),
    {
        let place: GPointer = self.values.len();
        self.values.push(value);
        assert(self@ =~= old(self)@.push(value@));
        place
    }

    /// The value in a place.
    pub fn get(&self, place: GPointer) -> (value: &OptionValue)
        requires
            place < self@.len(),
        ensures
            value@ == self@[place as int],
    {
        &self.values[place]
    }
}

/// The definition of an option.
#[derive(Debug, Clone, Copy)]
pub struct OptionEntry {
    /// The long name (`--long_name`), [`OPTION_REMAINING`], or none to end a list of entries.
    pub long_name: Option<&'static str>,
    /// The short name (`-c`), or the null character.
    pub short_name: char,
    /// A set of [`option_flags`].
    pub flags: OptionFlags,
    /// What the option takes.
    pub arg: OptionArg,
    /// The place of the value in the store, or the number of the callback.
    pub arg_data: GPointer,
    /// A description for help texts.
    pub description: Option<&'static str>,
    /// The name of the argument in help texts.
    pub arg_description: Option<&'static str>,
}

impl OptionEntry {
    /// The characters of the long name.
    pub open spec fn long(&self) -> Option<Seq<char>> {
        match self.long_name {
            Some(name) => Some(name@),
            None => None,
        }
    }

    /// The entry that ends a list.
    pub fn null() -> (entry: OptionEntry)
        ensures
            entry.long_name is None,
            entry.short_name == '\0',
            entry.flags == 0,
            entry.arg == OptionArg::NoArg,
            entry.arg_data == 0,
            entry.description is None,
            entry.arg_description is None,
    {
        OptionEntry {
            long_name: None,
            short_name: '\0',
            flags: 0,
            arg: OptionArg::NoArg,
            arg_data: 0,
            description: None,
            arg_description: None,
        }
    }

    /// Whether this is the entry that ends a list.
    pub fn is_null(&self) -> (yes: bool)
        ensures
            yes == self.long_name is None,
    {
        self.long_name.is_none()
    }
}

/// A set of flags has one of some flags.
pub open spec fn has_flag(flags: OptionFlags, some: i32) -> bool {
    (flags & some) != 0
}

/// An entry with what makes no sense taken out of it: a short name that is a dash or no visible
/// ASCII character, the flag [`option_flags::REVERSE`] where the entry is no switch, and the flags
/// [`option_flags::NO_ARG`] and [`option_flags::OPTIONAL_ARG`] where it is no callback.
pub open spec fn validated(entry: OptionEntry) -> OptionEntry {
    let visible = '!' <= entry.short_name <= '~' && entry.short_name != '-';
    let flags = if entry.arg != OptionArg::NoArg && has_flag(entry.flags, option_flags::REVERSE) {
        entry.flags & !option_flags::REVERSE
    } else {
        entry.flags
    };
    OptionEntry {
        short_name: if visible {
            entry.short_name
        } else {
            '\0'
        },
        flags: if entry.arg != OptionArg::Callback && has_flag(
            flags,
            option_flags::NO_ARG | option_flags::OPTIONAL_ARG,
        ) {
            flags & !(option_flags::NO_ARG | option_flags::OPTIONAL_ARG)
        } else {
            flags
        },
        ..entry
    }
}

/// The entries before the one that ends the list, validated.
pub open spec fn listed(entries: Seq<OptionEntry>) -> Seq<OptionEntry>
    decreases entries.len(),
{
    if entries.len() == 0 || entries[0].long_name is None {
        Seq::empty()
    } else {
        seq![validated(entries[0])] + listed(entries.skip(1))
    }
}

fn validate_entry(entry: OptionEntry) -> (valid: OptionEntry)
    ensures
        valid == validated(entry),
{
    let mut valid: OptionEntry = entry;
    if entry.short_name == '-' || !('!' <= entry.short_name && entry.short_name <= '~') {
        valid.short_name = '\0';
    }
    if entry.arg != OptionArg::NoArg && (valid.flags & option_flags::REVERSE) != 0 {
        valid.flags = valid.flags & !option_flags::REVERSE;
    }
    if entry.arg != OptionArg::Callback && (valid.flags & (option_flags::NO_ARG
        | option_flags::OPTIONAL_ARG)) != 0 {
        valid.flags = valid.flags & !(option_flags::NO_ARG | option_flags::OPTIONAL_ARG);
    }
    valid
}

/// A short name is a dash or, if there is one, no visible ASCII character.
pub open spec fn bad_short_name(c: char) -> bool {
    c == '-' || (c != '\0' && !('!' <= c <= '~'))
}

/// What a warning calls the argument of an option.
pub open spec fn arg_name(arg: OptionArg) -> Seq<char> {
    match arg {
        OptionArg::NoArg => "None"@,
        OptionArg::String => "String"@,
        OptionArg::Int => "Int"@,
        OptionArg::Callback => "Callback"@,
        OptionArg::Filename => "Filename"@,
        OptionArg::StringArray => "StringArray"@,
        OptionArg::FilenameArray => "FilenameArray"@,
        OptionArg::Double => "Double"@,
        OptionArg::Int64 => "Int64"@,
    }
}

/// Where an entry stands, for a warning: its group, as it is shown, and its long name.
pub open spec fn entry_place(entry: OptionEntry, shown_group: Seq<char>) -> Seq<char> {
    " in entry "@ + shown_group + ":"@ + (match entry.long() {
        Some(name) => name,
        None => Seq::empty(),
    })
}

/// The warnings about what [`validated`] takes out of an entry, in order.
pub open spec fn warnings_of(entry: OptionEntry, shown_group: Seq<char>) -> Seq<Seq<char>> {
    let place = entry_place(entry, shown_group);
    (if bad_short_name(entry.short_name) {
        seq![
            ("warning: ignoring invalid short option '"@.push(entry.short_name)) + "'"@ + place,
        ]
    } else {
        Seq::empty()
    }) + (if entry.arg != OptionArg::NoArg && has_flag(entry.flags, option_flags::REVERSE) {
        seq!["warning: ignoring reverse flag on option of arg-type "@ + arg_name(entry.arg) + place]
    } else {
        Seq::empty()
    }) + (if entry.arg != OptionArg::Callback && has_flag(
        entry.flags,
        option_flags::NO_ARG | option_flags::OPTIONAL_ARG,
    ) {
        seq![
            "warning: ignoring no-arg or optional-arg flags on option of arg-type "@ + arg_name(
                entry.arg,
            ) + place,
        ]
    } else {
        Seq::empty()
    })
}

/// The warnings about the entries before the one that ends the list, in order.
pub open spec fn warnings_of_all(entries: Seq<OptionEntry>, shown_group: Seq<char>) -> Seq<
    Seq<char>,
>
    decreases entries.len(),
{
    if entries.len() == 0 || entries[0].long_name is None {
        Seq::empty()
    } else {
        warnings_of(entries[0], shown_group) + warnings_of_all(entries.skip(1), shown_group)
    }
}

/// What a group is called in warnings.
pub open spec fn group_title(group_name: Option<Seq<char>>) -> Seq<char> {
    match group_name {
        Some(name) => name,
        None => "main"@,
    }
}

fn arg_text(arg: OptionArg) -> (name: &'static str)
    ensures
        name@ == arg_name(arg),
{
    match arg {
        OptionArg::NoArg => "None",
        OptionArg::String => "String",
        OptionArg::Int => "Int",
        OptionArg::Callback => "Callback",
        OptionArg::Filename => "Filename",
        OptionArg::StringArray => "StringArray",
        OptionArg::FilenameArray => "FilenameArray",
        OptionArg::Double => "Double",
        OptionArg::Int64 => "Int64",
    }
}

/// The warnings about what makes no sense in an entry, for a group that is shown as `shown_group`.
pub fn entry_warnings_in(entry: &OptionEntry, shown_group: &str) -> (warnings: Vec<String>)
    ensures
        crate::text::texts(warnings@) == warnings_of(*entry, shown_group@),
{
    let mut place: String = joined3(" in entry ", shown_group, ":");
    if let Some(name) = entry.long_name {
        place.append(name);
    }
    assert(place@ =~= entry_place(*entry, shown_group@));
    let mut warnings: Vec<String> = Vec::new();
    if entry.short_name == '-' || (entry.short_name != '\0' && !('!' <= entry.short_name
        && entry.short_name <= '~')) {
        let mut text: String = "warning: ignoring invalid short option '".to_owned();
        text.push(entry.short_name);
        text.append("'");
        text.append(place.as_str());
        warnings.push(text);
    }
    if entry.arg != OptionArg::NoArg && (entry.flags & option_flags::REVERSE) != 0 {
        warnings.push(
            joined3(
                "warning: ignoring reverse flag on option of arg-type ",
                arg_text(entry.arg),
                place.as_str(),
            ),
        );
    }
    if entry.arg != OptionArg::Callback && (entry.flags & (option_flags::NO_ARG
        | option_flags::OPTIONAL_ARG)) != 0 {
        warnings.push(
            joined3(
                "warning: ignoring no-arg or optional-arg flags on option of arg-type ",
                arg_text(entry.arg),
                place.as_str(),
            ),
        );
    }
    assert(crate::text::texts(warnings@) =~= warnings_of(*entry, shown_group@));
    warnings
}

/// The warnings about what makes no sense in an entry of a group: what
/// [`OptionGroup::add_entries`] takes out of it.
pub fn entry_warnings(entry: &OptionEntry, group_name: Option<&str>) -> (warnings: Vec<String>)
    ensures
        crate::text::texts(warnings@) == warnings_of(
            *entry,
            crate::text::debug_text(
                group_title(
                    match group_name {
                        Some(name) => Some(name@),
                        None => None,
                    },
                ),
            ),
        ),
{
    let shown: String = quoted(
        match group_name {
            Some(name) => name,
            None => "main",
        },
    );
    entry_warnings_in(entry, shown.as_str())
}

/// A group of options.
pub struct OptionGroup {
    /// The name, which options may carry as a prefix.
    pub name: Option<String>,
    /// The heading in help texts.
    pub description: Option<String>,
    /// What help texts say of the group's help option.
    pub help_description: Option<String>,
    /// What callbacks of the group are handed.
    pub user_data: GPointer,
    /// The entries of the group.
    pub entries: Vec<OptionEntry>,
}

impl OptionGroup {
    /// A group without entries.
    pub fn new(
        name: Option<&str>,
        description: Option<&str>,
        help_description: Option<&str>,
        user_data: GPointer,
    ) -> (group: Self)
        ensures
            crate::text::optional(group.name) == (match name {
                Some(t) => Some(t@),
                None => None,
            }),
            crate::text::optional(group.description) == (match description {
                Some(t) => Some(t@),
                None => None,
            }),
            crate::text::optional(group.help_description) == (match help_description {
                Some(t) => Some(t@),
                None => None,
            }),
            group.user_data == user_data,
            group.entries@ == Seq::<OptionEntry>::empty(),
    {
        OptionGroup {
            name: copied(name),
            description: copied(description),
            help_description: copied(help_description),
            user_data,
            entries: Vec::new(),
        }
    }

    /// Add the entries before the one that ends the list, each validated.
    pub fn add_entries(&mut self, entries: &[OptionEntry])
        ensures
            final(self).entries@ == old(self).entries@ + listed(entries@),
            final(self).name == old(self).name,
            final(self).description == old(self).description,
            final(self).help_description == old(self).help_description,
            final(self).user_data == old(self).user_data,
    {
        let mut i: usize = 0;
        assert(entries@.skip(0) =~= entries@);
        while i < entries.len() && !entries[i].is_null()
            invariant
                i <= entries@.len(),
                self.entries@ + listed(entries@.skip(i as int)) == old(self).entries@ + listed(
                    entries@,
                ),
                self.name == old(self).name,
                self.description == old(self).description,
                self.help_description == old(self).help_description,
                self.user_data == old(self).user_data,
            decreases entries@.len() - i,
        {
            let ghost before = self.entries@;
            self.entries.push(validate_entry(entries[i]));
            proof {
                let rest = entries@.skip(i as int);
                assert(rest.skip(1) =~= entries@.skip(i + 1));
                assert(self.entries@ + listed(rest.skip(1)) =~= before + (seq![validated(rest[0])]
                    + listed(rest.skip(1))));
            }
            i = i + 1;
        }
        assert(self.entries@ + Seq::<OptionEntry>::empty() =~= self.entries@);
    }

    /// The warnings that are due when these entries are added to the group, in order.
    pub fn warnings(&self, entries: &[OptionEntry]) -> (warnings: Vec<String>)
        ensures
            crate::text::texts(warnings@) == warnings_of_all(
                entries@,
                crate::text::debug_text(group_title(crate::text::optional(self.name))),
            ),
    {
        let shown: String = quoted(
            match &self.name {
                Some(name) => name.as_str(),
                None => "main",
            },
        );
        let mut warnings: Vec<String> = Vec::new();
        let mut i: usize = 0;
        proof {
            assert(entries@.skip(0) =~= entries@);
            assert(crate::text::texts(warnings@) + warnings_of_all(entries@, shown@)
                =~= warnings_of_all(entries@, shown@));
        }
        while i < entries.len() && !entries[i].is_null()
            invariant
                i <= entries@.len(),
                crate::text::texts(warnings@) + warnings_of_all(entries@.skip(i as int), shown@)
                    == warnings_of_all(entries@, shown@),
            decreases entries@.len() - i,
        {
            let ghost before = warnings@;
            let ghost rest = warnings_of_all(entries@.skip(i + 1), shown@);
            let mut more: Vec<String> = entry_warnings_in(&entries[i], shown.as_str());
            let ghost added = more@;
            warnings.append(&mut more);
            proof {
                assert(entries@.skip(i as int).skip(1) =~= entries@.skip(i + 1));
                assert(crate::text::texts(warnings@) =~= crate::text::texts(before)
                    + crate::text::texts(added));
                assert(crate::text::texts(before) + (crate::text::texts(added) + rest)
                    =~= crate::text::texts(before) + crate::text::texts(added) + rest);
            }
            i = i + 1;
        }
        assert(crate::text::texts(warnings@) + Seq::<Seq<char>>::empty() =~= crate::text::texts(
            warnings@,
        ));
        warnings
    }

    /// The number of entries.
    pub fn entry_count(&self) -> (count: usize)
        ensures
            count == self.entries@.len(),
    {
        self.entries.len()
    }
}

/// Options and how to parse them.
pub struct OptionContext {
    /// The groups besides the main one.
    pub groups: Vec<OptionGroup>,
    /// The main group.
    pub main_group: Option<OptionGroup>,
    /// What stands after the program's name in help texts.
    pub parameter_string: Option<String>,
    /// Whether help options end a parse.
    pub help_enabled: bool,
    /// Whether unknown options are left in place.
    pub ignore_unknown: bool,
}

/// A context without options.
pub fn option_context_new(parameter_string: Option<&str>) -> (context: OptionContext)
    ensures
        context.groups@ == Seq::<OptionGroup>::empty(),
        context.main_group is None,
        crate::text::optional(context.parameter_string) == (match parameter_string {
            Some(text) => if text@.len() == 0 {
                None
            } else {
                Some(text@)
            },
            None => None,
        }),
        context.help_enabled,
        !context.ignore_unknown,
{
    let kept: Option<String> = match parameter_string {
        Some(text) => if text.is_empty() {
            None
        } else {
            Some(text.to_owned())
        },
        None => None,
    };
    OptionContext {
        groups: Vec::new(),
        main_group: None,
        parameter_string: kept,
        help_enabled: true,
        ignore_unknown: false,
    }
}

/// A group without entries.
pub fn option_group_new(
    name: Option<&str>,
    description: Option<&str>,
    help_description: Option<&str>,
    user_data: GPointer,
) -> (group: OptionGroup)
    ensures
        crate::text::optional(group.name) == (match name {
            Some(t) => Some(t@),
            None => None,
        }),
        crate::text::optional(group.description) == (match description {
            Some(t) => Some(t@),
            None => None,
        }),
        crate::text::optional(group.help_description) == (match help_description {
            Some(t) => Some(t@),
            None => None,
        }),
        group.user_data == user_data,
        group.entries@ == Seq::<OptionEntry>::empty(),
{
    OptionGroup::new(name, description, help_description, user_data)
}

/// A call of a callback.
#[derive(Debug)]
pub struct OptionCall {
    /// The number of the callback.
    pub callback: GPointer,
    /// The option as it was given, with its dashes.
    pub option_name: String,
    /// The argument of the option.
    pub value: Option<String>,
    /// The data of the option's group.
    pub user_data: GPointer,
}

/// What a call hands over.
pub struct CallView {
    pub callback: GPointer,
    pub option_name: Seq<char>,
    pub value: Option<Seq<char>>,
    pub user_data: GPointer,
}

impl View for OptionCall {
    type V = CallView;

    open spec fn view(&self) -> CallView {
        CallView {
            callback: self.callback,
            option_name: self.option_name@,
            value: crate::text::optional(self.value),
            user_data: self.user_data,
        }
    }
}

/// What a sequence of calls hands over.
pub open spec fn handed(calls: Seq<OptionCall>) -> Seq<CallView> {
    Seq::new(calls.len(), |i: int| calls[i]@)
}

/// An error of the parser itself.
#[derive(Debug)]
pub struct OptionFailure {
    pub code: OptionError,
    pub message: String,
}

/// What an error of the parser says.
pub struct FailureView {
    pub code: OptionError,
    pub message: Seq<char>,
}

impl View for OptionFailure {
    type V = FailureView;

    open spec fn view(&self) -> FailureView {
        FailureView { code: self.code, message: self.message@ }
    }
}

/// How far a parse has come.
#[verifier::ext_equal]
pub struct ParseState {
    /// The values.
    pub values: Seq<ValueView>,
    /// Whether the list in a place was begun anew by this parse.
    pub begun: Seq<bool>,
    /// The arguments, as they are after the parse.
    pub kept: Seq<Seq<char>>,
    /// Whether an argument leaves the vector.
    pub gone: Seq<bool>,
    /// The calls of callbacks.
    pub calls: Seq<CallView>,
    /// The error that ended the parse.
    pub failure: Option<FailureView>,
}

/// The parse ends with an error.
pub open spec fn failed(st: ParseState, code: OptionError, message: Seq<char>) -> ParseState {
    ParseState { failure: Some(FailureView { code, message }), ..st }
}

/// An argument leaves the vector.
pub open spec fn without(st: ParseState, index: int) -> ParseState {
    ParseState { gone: st.gone.update(index, true), ..st }
}

/// A value is set.
pub open spec fn with_value(st: ParseState, place: int, value: ValueView) -> ParseState {
    ParseState { values: st.values.update(place, value), ..st }
}

/// The option is given without an argument.
pub open spec fn takes_no_arg(entry: OptionEntry) -> bool {
    entry.arg == OptionArg::NoArg || (entry.arg == OptionArg::Callback && has_flag(
        entry.flags,
        option_flags::NO_ARG,
    ))
}

/// The option may be given with or without an argument.
pub open spec fn takes_optional_arg(entry: OptionEntry) -> bool {
    entry.arg == OptionArg::Callback && has_flag(entry.flags, option_flags::OPTIONAL_ARG)
}

/// The error about an argument that is missing.
pub open spec fn missing(st: ParseState, option_name: Seq<char>) -> ParseState {
    failed(st, OptionError::BadValue, "Missing argument for "@ + option_name)
}

/// An integer argument is read.
pub open spec fn with_integer(
    st: ParseState,
    place: int,
    value: Seq<char>,
    option_name: Seq<char>,
) -> ParseState {
    let inner = crate::number::trimmed(value);
    let (negative, radix, digits) = crate::number::integer_parts(inner);
    if inner.len() == 0 {
        failed(
            st,
            OptionError::BadValue,
            "Cannot parse integer value \""@ + value + "\" for "@ + option_name,
        )
    } else {
        match crate::number::signed_number(digits, radix) {
            None => failed(
                st,
                OptionError::BadValue,
                "Cannot parse integer value \""@ + digits + "\""@,
            ),
            Some(magnitude) => {
                let number = if negative {
                    -magnitude
                } else {
                    magnitude
                };
                if i32::MIN <= number <= i32::MAX {
                    with_value(st, place, ValueView::Int(number as i32))
                } else {
                    failed(
                        st,
                        OptionError::BadValue,
                        "Integer value \""@ + value + "\" for "@ + option_name + " out of range"@,
                    )
                }
            },
        }
    }
}

/// An option is given.
pub open spec fn given(
    st: ParseState,
    entry: OptionEntry,
    value: Option<Seq<char>>,
    option_name: Seq<char>,
    user_data: GPointer,
) -> ParseState {
    let place = entry.arg_data as int;
    match entry.arg {
        OptionArg::NoArg => with_value(
            st,
            place,
            ValueView::Bool(!has_flag(entry.flags, option_flags::REVERSE)),
        ),
        OptionArg::String | OptionArg::Filename => match value {
            None => missing(st, option_name),
            Some(text) => with_value(st, place, ValueView::Text(text)),
        },
        OptionArg::StringArray | OptionArg::FilenameArray => match value {
            None => missing(st, option_name),
            Some(text) => {
                let before = if st.begun[place] {
                    st.values[place]->Texts_0
                } else {
                    Seq::empty()
                };
                ParseState {
                    begun: st.begun.update(place, true),
                    ..with_value(st, place, ValueView::Texts(before.push(text)))
                }
            },
        },
        OptionArg::Int => match value {
            None => missing(st, option_name),
            Some(text) => with_integer(st, place, text, option_name),
        },
        OptionArg::Callback => if value is None && !takes_no_arg(entry) && !takes_optional_arg(
            entry,
        ) {
            missing(st, option_name)
        } else {
            ParseState {
                calls: st.calls.push(
                    CallView { callback: entry.arg_data, option_name, value, user_data },
                ),
                ..st
            }
        },
        OptionArg::Double | OptionArg::Int64 => failed(
            st,
            OptionError::Failed,
            "Unsupported option argument type for "@ + option_name,
        ),
    }
}

/// The value that an entry names is of the kind that the entry sets.
pub open spec fn fits(entry: OptionEntry, values: Seq<ValueView>) -> bool {
    let place = entry.arg_data as int;
    match entry.arg {
        OptionArg::NoArg => place < values.len() && values[place] is Bool,
        OptionArg::String | OptionArg::Filename => place < values.len() && values[place] is Text,
        OptionArg::StringArray | OptionArg::FilenameArray => place < values.len()
            && values[place] is Texts,
        OptionArg::Int => place < values.len() && values[place] is Int,
        OptionArg::Callback | OptionArg::Double | OptionArg::Int64 => true,
    }
}

fn entry_fits(entry: &OptionEntry, store: &OptionStore) -> (fit: bool)
    ensures
        fit == fits(*entry, store@),
{
    let place: usize = entry.arg_data;
    match entry.arg {
        OptionArg::Callback | OptionArg::Double | OptionArg::Int64 => true,
        _ => {
            if place >= store.values.len() {
                return false;
            }
            assert(store@[place as int] == store.values@[place as int]@);
            match (entry.arg, &store.values[place]) {
                (OptionArg::NoArg, OptionValue::Bool(_)) => true,
                (OptionArg::String, OptionValue::Text(_)) => true,
                (OptionArg::Filename, OptionValue::Text(_)) => true,
                (OptionArg::StringArray, OptionValue::Texts(_)) => true,
                (OptionArg::FilenameArray, OptionValue::Texts(_)) => true,
                (OptionArg::Int, OptionValue::Int(_)) => true,
                _ => false,
            }
        },
    }
}

impl OptionGroup {
    fn fits_store(&self, store: &OptionStore) -> (fit: bool)
        ensures
            fit == group_fits(*self, store@),
    {
        let mut i: usize = 0;
        while i < self.entries.len()
            invariant
                i <= self.entries@.len(),
                forall|j: int| 0 <= j < i ==> fits(#[trigger] self.entries@[j], store@),
            decreases self.entries@.len() - i,
        {
            if !entry_fits(&self.entries[i], store) {
                assert(!fits(self.entries@[i as int], store@));
                return false;
            }
            i = i + 1;
        }
        true
    }
}

/// All entries of a group fit the values.
pub open spec fn group_fits(group: OptionGroup, values: Seq<ValueView>) -> bool {
    forall|i: int| 0 <= i < group.entries@.len() ==> fits(#[trigger] group.entries@[i], values)
}

/// All entries of a context fit the values.
pub open spec fn context_fits(context: OptionContext, values: Seq<ValueView>) -> bool {
    &&& context.main_group matches Some(main) ==> group_fits(main, values)
    &&& forall|i: int|
        0 <= i < context.groups@.len() ==> group_fits(#[trigger] context.groups@[i], values)
}

/// The values are of the same kinds.
pub open spec fn same_kinds(a: Seq<ValueView>, b: Seq<ValueView>) -> bool {
    &&& a.len() == b.len()
    &&& forall|i: int|
        0 <= i < a.len() ==> {
            &&& (#[trigger] a[i] is Bool) == (b[i] is Bool)
            &&& (a[i] is Int) == (b[i] is Int)
            &&& (a[i] is Text) == (b[i] is Text)
            &&& (a[i] is Texts) == (b[i] is Texts)
        }
}

/// A later state of a parse: the values are of the same kinds, and as many.
pub open spec fn follows(before: ParseState, after: ParseState) -> bool {
    &&& same_kinds(before.values, after.values)
    &&& before.begun.len() == after.begun.len()
    &&& before.kept.len() == after.kept.len()
    &&& before.gone.len() == after.gone.len()
}

/// The sizes of a state belong to an argument vector.
pub open spec fn state_ok(st: ParseState, argc: nat) -> bool {
    &&& st.begun.len() == st.values.len()
    &&& st.kept.len() == argc
    &&& st.gone.len() == argc
}

proof fn lemma_fits_same(entry: OptionEntry, a: Seq<ValueView>, b: Seq<ValueView>)
    requires
        same_kinds(a, b),
        fits(entry, a),
    ensures
        fits(entry, b),
{
    let place = entry.arg_data as int;
    if place < a.len() {
        assert(a[place] is Bool == b[place] is Bool);
    }
}

proof fn lemma_group_fits_same(group: OptionGroup, a: Seq<ValueView>, b: Seq<ValueView>)
    requires
        same_kinds(a, b),
        group_fits(group, a),
    ensures
        group_fits(group, b),
{
    assert forall|i: int| 0 <= i < group.entries@.len() implies fits(
        #[trigger] group.entries@[i],
        b,
    ) by {
        lemma_fits_same(group.entries@[i], a, b);
    }
}

proof fn lemma_context_fits_same(context: OptionContext, a: Seq<ValueView>, b: Seq<ValueView>)
    requires
        same_kinds(a, b),
        context_fits(context, a),
    ensures
        context_fits(context, b),
{
    if let Some(main) = context.main_group {
        lemma_group_fits_same(main, a, b);
    }
    assert forall|i: int| 0 <= i < context.groups@.len() implies group_fits(
        #[trigger] context.groups@[i],
        b,
    ) by {
        lemma_group_fits_same(context.groups@[i], a, b);
    }
}

proof fn lemma_given(
    st: ParseState,
    entry: OptionEntry,
    value: Option<Seq<char>>,
    option_name: Seq<char>,
    user_data: GPointer,
)
    requires
        fits(entry, st.values),
        st.begun.len() == st.values.len(),
    ensures
        follows(st, given(st, entry, value, option_name, user_data)),
{
    let after = given(st, entry, value, option_name, user_data);
    let place = entry.arg_data as int;
    assert(after.values == st.values || after.values == st.values.update(
        place,
        after.values[place],
    ));
    assert(same_kinds(st.values, after.values));
}

/// A parse that is under way.
struct ParseRun {
    values: Vec<OptionValue>,
    begun: Vec<bool>,
    kept: Vec<String>,
    gone: Vec<bool>,
    calls: Vec<OptionCall>,
    failure: Option<OptionFailure>,
}

impl View for ParseRun {
    type V = ParseState;

    closed spec fn view(&self) -> ParseState {
        ParseState {
            values: held(self.values@),
            begun: self.begun@,
            kept: crate::text::texts(self.kept@),
            gone: self.gone@,
            calls: handed(self.calls@),
            failure: match self.failure {
                Some(failure) => Some(failure@),
                None => None,
            },
        }
    }
}

fn no_arg(entry: &OptionEntry) -> (yes: bool)
    ensures
        yes == takes_no_arg(*entry),
{
    entry.arg == OptionArg::NoArg || (entry.arg == OptionArg::Callback && (entry.flags
        & option_flags::NO_ARG) != 0)
}

fn optional_arg(entry: &OptionEntry) -> (yes: bool)
    ensures
        yes == takes_optional_arg(*entry),
{
    entry.arg == OptionArg::Callback && (entry.flags & option_flags::OPTIONAL_ARG) != 0
}

impl ParseRun {
    fn fail(&mut self, code: OptionError, message: String)
        ensures
            final(self)@ == failed(old(self)@, code, message@),
    {
        self.failure = Some(OptionFailure { code, message });
    }

    fn mark_removed(&mut self, index: usize)
        requires
            index < old(self)@.gone.len(),
        ensures
            final(self)@ == without(old(self)@, index as int),
    {
        self.gone[index] = true;
        assert(self@ =~= without(old(self)@, index as int));
    }

    fn set_value(&mut self, place: usize, value: OptionValue)
        requires
            place < old(self)@.values.len(),
        ensures
            final(self)@ == with_value(old(self)@, place as int, value@),
    {
        self.values[place] = value;
        assert(self@ =~= with_value(old(self)@, place as int, value@));
    }

    fn fail_missing(&mut self, option_name: &str)
        ensures
            final(self)@ == missing(old(self)@, option_name@),
    {
        self.fail(OptionError::BadValue, joined("Missing argument for ", option_name));
    }

    fn parse_int(&mut self, place: usize, value: &str, option_name: &str)
        requires
            place < old(self)@.values.len(),
        ensures
            final(self)@ == with_integer(old(self)@, place as int, value@, option_name@),
    {
        match read_integer(value) {
            IntegerText::Blank => {
                let mut message: String = joined3(
                    "Cannot parse integer value \"",
                    value,
                    "\" for ",
                );
                message.append(option_name);
                self.fail(OptionError::BadValue, message);
            },
            IntegerText::BadDigits(digits) => {
                let message: String = joined3(
                    "Cannot parse integer value \"",
                    digits.as_str(),
                    "\"",
                );
                self.fail(OptionError::BadValue, message);
            },
            IntegerText::OutOfRange => {
                let mut message: String = joined3("Integer value \"", value, "\" for ");
                message.append(option_name);
                message.append(" out of range");
                self.fail(OptionError::BadValue, message);
            },
            IntegerText::Value(number) => {
                self.set_value(place, OptionValue::Int(number));
            },
        }
    }

    fn add_text(&mut self, place: usize, text: &str)
        requires
            place < old(self)@.values.len(),
            old(self)@.values[place as int] is Texts,
            old(self)@.begun.len() == old(self)@.values.len(),
        ensures
            final(self)@ == (ParseState {
                begun: old(self)@.begun.update(place as int, true),
                ..with_value(
                    old(self)@,
                    place as int,
                    ValueView::Texts(
                        (if old(self)@.begun[place as int] {
                            old(self)@.values[place as int]->Texts_0
                        } else {
                            Seq::empty()
                        }).push(text@),
                    ),
                )
            }),
    {
        let mut list: Vec<String> = Vec::new();
        if self.begun[place] {
            if let OptionValue::Texts(before) = &self.values[place] {
                list = copy_texts(before);
            }
        }
        let ghost start = crate::text::texts(list@);
        list.push(text.to_owned());
        assert(crate::text::texts(list@) =~= start.push(text@));
        self.begun[place] = true;
        self.values[place] = OptionValue::Texts(list);
        proof {
            assert(held(old(self).values@)[place as int] == old(self).values@[place as int]@);
            assert(start =~= (if old(self)@.begun[place as int] {
                old(self)@.values[place as int]->Texts_0
            } else {
                Seq::empty()
            }));
            assert(self@ =~= (ParseState {
                begun: old(self)@.begun.update(place as int, true),
                ..with_value(
                    old(self)@,
                    place as int,
                    ValueView::Texts(start.push(text@)),
                )
            }));
        }
    }

    /// Take note of an option that is given.
    fn parse_arg(
        &mut self,
        user_data: GPointer,
        entry: &OptionEntry,
        value: Option<&str>,
        option_name: &str,
    )
        requires
            fits(*entry, old(self)@.values),
            old(self)@.begun.len() == old(self)@.values.len(),
        ensures
            final(self)@ == given(
                old(self)@,
                *entry,
                match value {
                    Some(text) => Some(text@),
                    None => None,
                },
                option_name@,
                user_data,
            ),
            follows(old(self)@, final(self)@),
    {
        proof {
            lemma_given(
                self@,
                *entry,
                match value {
                    Some(text) => Some(text@),
                    None => None,
                },
                option_name@,
                user_data,
            );
        }
        match entry.arg {
            OptionArg::NoArg => {
                let on: bool = (entry.flags & option_flags::REVERSE) == 0;
                self.set_value(entry.arg_data, OptionValue::Bool(on));
            },
            OptionArg::String | OptionArg::Filename => match value {
                None => self.fail_missing(option_name),
                Some(text) => self.set_value(entry.arg_data, OptionValue::Text(text.to_owned())),
            },
            OptionArg::StringArray | OptionArg::FilenameArray => match value {
                None => self.fail_missing(option_name),
                Some(text) => self.add_text(entry.arg_data, text),
            },
            OptionArg::Int => match value {
                None => self.fail_missing(option_name),
                Some(text) => self.parse_int(entry.arg_data, text, option_name),
            },
            OptionArg::Callback => {
                if value.is_none() && !no_arg(entry) && !optional_arg(entry) {
                    self.fail_missing(option_name);
                } else {
                    let call = OptionCall {
                        callback: entry.arg_data,
                        option_name: option_name.to_owned(),
                        value: copied(value),
                        user_data,
                    };
                    self.calls.push(call);
                    assert(handed(self.calls@) =~= handed(old(self).calls@).push(call@));
                }
            },
            OptionArg::Double | OptionArg::Int64 => {
                let message: String = joined("Unsupported option argument type for ", option_name);
                self.fail(OptionError::Failed, message);
            },
        }
    }
}

/// The first group with this name, or the number of groups.
fn group_named(groups: &Vec<OptionGroup>, name: &str) -> (place: usize)
    ensures
        place <= groups@.len(),
        place == group_index(groups@, name@, 0),
{
    let mut i: usize = 0;
    while i < groups.len()
        invariant
            i <= groups@.len(),
            group_index(groups@, name@, 0) == group_index(groups@, name@, i as int),
        decreases groups@.len() - i,
    {
        if let Some(own) = &groups[i].name {
            if same_text(own.as_str(), name) {
                return i;
            }
        }
        i = i + 1;
    }
    i
}

fn copy_texts(list: &Vec<String>) -> (copy: Vec<String>)
    ensures
        crate::text::texts(copy@) == crate::text::texts(list@),
{
    let mut copy: Vec<String> = Vec::new();
    let mut i: usize = 0;
    while i < list.len()
        invariant
            i <= list@.len(),
            copy@.len() == i,
            forall|j: int| 0 <= j < i ==> (#[trigger] copy@[j])@ == list@[j]@,
        decreases list@.len() - i,
    {
        copy.push(list[i].clone());
        i = i + 1;
    }
    assert(crate::text::texts(copy@) =~= crate::text::texts(list@));
    copy
}

/// A text starts with a dash.
pub open spec fn dashed(text: Seq<char>) -> bool {
    text.len() > 0 && text[0] == '-'
}

/// The text after `--` gives this option: it is the long name, or the long name, an equals sign
/// and the argument. Options that are looked for under their group's name may not refuse that.
pub open spec fn is_long(entry: OptionEntry, text: Seq<char>, aliased: bool) -> bool {
    &&& !(aliased && has_flag(entry.flags, option_flags::NOALIAS))
    &&& entry.long() matches Some(name) && (text == name || crate::text::is_prefix(
        name + "="@,
        text,
    ))
}

/// The first entry from `from` on that the text after `--` gives, or the number of entries.
pub open spec fn long_index(
    entries: Seq<OptionEntry>,
    text: Seq<char>,
    aliased: bool,
    from: int,
) -> int
    decreases entries.len() - from,
{
    if from < 0 || from >= entries.len() {
        entries.len() as int
    } else if is_long(entries[from], text, aliased) {
        from
    } else {
        long_index(entries, text, aliased, from + 1)
    }
}

/// A long option of a group is given: the new state, and how many further arguments it took.
/// The argument stands after an equals sign, or is the next argument of the vector (for an
/// optional argument, only one that does not start with a dash).
pub open spec fn long_given(
    st: ParseState,
    group: OptionGroup,
    argv: Seq<Seq<char>>,
    index: int,
    text: Seq<char>,
    aliased: bool,
) -> Option<(ParseState, nat)> {
    let entries = group.entries@;
    let i = long_index(entries, text, aliased, 0);
    if i >= entries.len() {
        None
    } else {
        let entry = entries[i];
        let name = entry.long()->0;
        let option_name = "--"@ + name;
        let user_data = group.user_data;
        let gone = without(st, index);
        if takes_no_arg(entry) && text == name {
            Some((given(gone, entry, None, option_name, user_data), 0))
        } else if crate::text::is_prefix(name + "="@, text) {
            let value = text.skip(name.len() as int + 1);
            Some((given(gone, entry, Some(value), option_name, user_data), 0))
        } else if index + 1 < argv.len() && !(takes_optional_arg(entry) && dashed(
            argv[index + 1],
        )) {
            Some(
                (
                    given(
                        without(gone, index + 1),
                        entry,
                        Some(argv[index + 1]),
                        option_name,
                        user_data,
                    ),
                    1,
                ),
            )
        } else if takes_optional_arg(entry) {
            Some((given(gone, entry, None, option_name, user_data), 0))
        } else {
            Some((missing(st, option_name), 0))
        }
    }
}

/// A long option of the first group from `from` on that has it is given.
pub open spec fn long_given_in(
    st: ParseState,
    groups: Seq<OptionGroup>,
    argv: Seq<Seq<char>>,
    index: int,
    text: Seq<char>,
    from: int,
) -> Option<(ParseState, nat)>
    decreases groups.len() - from,
{
    if from < 0 || from >= groups.len() {
        None
    } else {
        match long_given(st, groups[from], argv, index, text, false) {
            Some(result) => Some(result),
            None => long_given_in(st, groups, argv, index, text, from + 1),
        }
    }
}

/// The first group from `from` on with this name, or the number of groups.
pub open spec fn group_index(groups: Seq<OptionGroup>, name: Seq<char>, from: int) -> int
    decreases groups.len() - from,
{
    if from < 0 || from >= groups.len() {
        groups.len() as int
    } else if crate::text::optional(groups[from].name) == Some(name) {
        from
    } else {
        group_index(groups, name, from + 1)
    }
}

/// The place of the first dash from `from` on, or the length of the text.
pub open spec fn dash_index(text: Seq<char>, from: int) -> int
    decreases text.len() - from,
{
    if from < 0 || from >= text.len() {
        text.len() as int
    } else if text[from] == '-' {
        from
    } else {
        dash_index(text, from + 1)
    }
}

/// A long option is given under its group's name: the name, a dash, and the long name.
pub open spec fn long_given_aliased(
    st: ParseState,
    groups: Seq<OptionGroup>,
    argv: Seq<Seq<char>>,
    index: int,
    text: Seq<char>,
) -> Option<(ParseState, nat)> {
    let dash = dash_index(text, 0);
    if dash >= text.len() {
        None
    } else {
        let i = group_index(groups, text.take(dash), 0);
        if i >= groups.len() {
            None
        } else {
            long_given(st, groups[i], argv, index, text.skip(dash + 1), true)
        }
    }
}

/// The text after `--` asks for help.
pub open spec fn asks_for_help(text: Seq<char>) -> bool {
    text == "help"@ || crate::text::is_prefix("help-"@, text)
}

/// The error about an option that there is not.
pub open spec fn unknown_option(st: ParseState, arg: Seq<char>) -> ParseState {
    failed(st, OptionError::UnknownOption, "Unknown option "@ + arg)
}

/// A long argument is parsed: by the main group, else by the first other group that has the
/// option, else under the group's name. The new state, how many further arguments were taken, and
/// whether the option is unknown.
pub open spec fn long_parsed(
    context: OptionContext,
    st: ParseState,
    argv: Seq<Seq<char>>,
    index: int,
) -> (ParseState, nat, bool) {
    let text = argv[index].skip(2);
    let in_main = match context.main_group {
        Some(main) => long_given(st, main, argv, index, text, false),
        None => None,
    };
    let in_groups = long_given_in(st, context.groups@, argv, index, text, 0);
    if context.help_enabled && asks_for_help(text) {
        (failed(st, OptionError::Failed, "help requested"@), 0, false)
    } else if let Some((after, more)) = in_main {
        (after, more, false)
    } else if let Some((after, more)) = in_groups {
        (after, more, false)
    } else if let Some((after, more)) = long_given_aliased(
        st,
        context.groups@,
        argv,
        index,
        text,
    ) {
        (after, more, false)
    } else if context.ignore_unknown {
        (st, 0, true)
    } else {
        (unknown_option(st, argv[index]), 0, true)
    }
}

/// How far a cluster of short options has come.
#[verifier::ext_equal]
pub struct ClusterState {
    pub st: ParseState,
    /// Whether the next argument was taken.
    pub took: bool,
    /// Whether the current character is an option.
    pub parsed: bool,
    /// The characters that are no options.
    pub left: Seq<char>,
}

/// A short option is given. At most one option of a cluster takes the next argument.
pub open spec fn short_given(
    c: ClusterState,
    entry: OptionEntry,
    user_data: GPointer,
    argv: Seq<Seq<char>>,
    index: int,
) -> ClusterState {
    let option_name = "-"@ + seq![entry.short_name];
    let next = index + 1 < argv.len() && !(takes_optional_arg(entry) && dashed(argv[index + 1]));
    if !takes_no_arg(entry) && c.took {
        ClusterState {
            st: failed(c.st, OptionError::Failed, "Error parsing option "@ + option_name),
            ..c
        }
    } else if !takes_no_arg(entry) && !next && !takes_optional_arg(entry) {
        ClusterState { st: missing(c.st, option_name), ..c }
    } else {
        let takes = !takes_no_arg(entry) && next;
        let value = if takes {
            Some(argv[index + 1])
        } else {
            None
        };
        let took = c.took || takes;
        let after = without(given(c.st, entry, value, option_name, user_data), index);
        ClusterState {
            st: if took {
                without(after, index + 1)
            } else {
                after
            },
            took,
            parsed: true,
            ..c
        }
    }
}

/// All entries of a group from `from` on with this short name are given, in order.
pub open spec fn short_given_by(
    c: ClusterState,
    group: OptionGroup,
    ch: char,
    argv: Seq<Seq<char>>,
    index: int,
    from: int,
) -> ClusterState
    decreases group.entries@.len() - from,
{
    if from < 0 || from >= group.entries@.len() || c.st.failure is Some {
        c
    } else if group.entries@[from].short_name == ch {
        short_given_by(
            short_given(c, group.entries@[from], group.user_data, argv, index),
            group,
            ch,
            argv,
            index,
            from + 1,
        )
    } else {
        short_given_by(c, group, ch, argv, index, from + 1)
    }
}

/// The groups from `from` on are tried, until one has the short option.
pub open spec fn short_given_in(
    c: ClusterState,
    groups: Seq<OptionGroup>,
    ch: char,
    argv: Seq<Seq<char>>,
    index: int,
    from: int,
) -> ClusterState
    decreases groups.len() - from,
{
    if from < 0 || from >= groups.len() || c.st.failure is Some || c.parsed {
        c
    } else {
        short_given_in(
            short_given_by(c, groups[from], ch, argv, index, 0),
            groups,
            ch,
            argv,
            index,
            from + 1,
        )
    }
}

/// A group has an entry with the short name.
pub open spec fn has_short(group: OptionGroup, ch: char) -> bool {
    exists|i: int|
        0 <= i < group.entries@.len() && (#[trigger] group.entries@[i]).short_name == ch
}

/// A context has an entry with the short name.
pub open spec fn context_has_short(context: OptionContext, ch: char) -> bool {
    ||| context.main_group matches Some(main) && has_short(main, ch)
    ||| exists|i: int| 0 <= i < context.groups@.len() && has_short(#[trigger] context.groups@[i], ch)
}

/// A character of a cluster is parsed: by the main group, else by the other groups.
pub open spec fn char_parsed(
    context: OptionContext,
    c: ClusterState,
    argv: Seq<Seq<char>>,
    index: int,
    ch: char,
) -> ClusterState {
    if context.help_enabled && (ch == '?' || (ch == 'h' && !context_has_short(context, 'h'))) {
        ClusterState { st: failed(c.st, OptionError::Failed, "help requested"@), ..c }
    } else {
        let start = ClusterState { parsed: false, ..c };
        let by_main = match context.main_group {
            Some(main) => short_given_by(start, main, ch, argv, index, 0),
            None => start,
        };
        let done = short_given_in(by_main, context.groups@, ch, argv, index, 0);
        if done.st.failure is Some || done.parsed {
            done
        } else if context.ignore_unknown {
            ClusterState { left: done.left.push(ch), ..done }
        } else {
            ClusterState { st: unknown_option(done.st, argv[index]), ..done }
        }
    }
}

/// The characters of a cluster from `from` on are parsed.
pub open spec fn chars_parsed(
    context: OptionContext,
    c: ClusterState,
    argv: Seq<Seq<char>>,
    index: int,
    from: int,
) -> ClusterState
    decreases argv[index].len() - from,
{
    if from < 0 || from >= argv[index].len() || c.st.failure is Some {
        c
    } else {
        chars_parsed(
            context,
            char_parsed(context, c, argv, index, argv[index][from]),
            argv,
            index,
            from + 1,
        )
    }
}

/// A cluster of short options is parsed: the new state, and how many further arguments were taken.
/// Where unknown options are ignored, their characters stay.
pub open spec fn cluster_parsed(
    context: OptionContext,
    st: ParseState,
    argv: Seq<Seq<char>>,
    index: int,
) -> (ParseState, nat) {
    let c = chars_parsed(
        context,
        ClusterState { st, took: false, parsed: false, left: Seq::empty() },
        argv,
        index,
        1,
    );
    let more: nat = if c.took {
        1
    } else {
        0
    };
    if c.st.failure is Some || !context.ignore_unknown {
        (c.st, more)
    } else if c.left.len() == 0 {
        (without(c.st, index), more)
    } else {
        (
            ParseState {
                kept: c.st.kept.update(index, "-"@ + c.left),
                gone: c.st.gone.update(index, false),
                ..c.st
            },
            more,
        )
    }
}

/// The first entry from `from` on that collects the arguments that are no options, or the number
/// of entries.
pub open spec fn remaining_index(entries: Seq<OptionEntry>, from: int) -> int
    decreases entries.len() - from,
{
    if from < 0 || from >= entries.len() {
        entries.len() as int
    } else if entries[from].long() == Some(Seq::<char>::empty()) {
        from
    } else {
        remaining_index(entries, from + 1)
    }
}

/// An argument that is no option is parsed: the new state, and whether an entry of the main group
/// collects it.
pub open spec fn plain_parsed(
    context: OptionContext,
    st: ParseState,
    argv: Seq<Seq<char>>,
    index: int,
) -> (ParseState, bool) {
    match context.main_group {
        None => (st, false),
        Some(main) => {
            let i = remaining_index(main.entries@, 0);
            if i >= main.entries@.len() {
                (st, false)
            } else {
                (
                    given(
                        without(st, index),
                        main.entries@[i],
                        Some(argv[index]),
                        Seq::empty(),
                        main.user_data,
                    ),
                    true,
                )
            }
        },
    }
}

/// How far the walk over the arguments has come.
#[verifier::ext_equal]
pub struct WalkState {
    pub st: ParseState,
    /// A separator has ended the options.
    pub stopped: bool,
    /// An unknown long option was left in place.
    pub unknown: bool,
    /// The place of the separator, while it is to leave the vector.
    pub separator: Option<int>,
}

/// The arguments from `index` on are parsed. An argument that starts with a dash and is longer is
/// an option, before the separator `--`. The separator stays in the vector if an argument after it
/// stays that starts with a dash, or that follows an unknown long option.
pub open spec fn walked(
    context: OptionContext,
    w: WalkState,
    argv: Seq<Seq<char>>,
    index: int,
) -> WalkState
    decreases
            if index < argv.len() {
                argv.len() - index
            } else {
                0
            },
{
    if index < 0 || index >= argv.len() || w.st.failure is Some {
        w
    } else {
        let arg = argv[index];
        if dashed(arg) && arg.len() > 1 && !w.stopped {
            if arg[1] != '-' {
                let (st, more) = cluster_parsed(context, w.st, argv, index);
                walked(context, WalkState { st, ..w }, argv, index + 1 + more)
            } else if arg.len() == 2 {
                walked(
                    context,
                    WalkState { stopped: true, separator: Some(index), ..w },
                    argv,
                    index + 1,
                )
            } else {
                let (st, more, unknown) = long_parsed(context, w.st, argv, index);
                walked(
                    context,
                    WalkState { st, unknown: w.unknown || unknown, ..w },
                    argv,
                    index + 1 + more,
                )
            }
        } else {
            let (st, parsed) = plain_parsed(context, w.st, argv, index);
            let separator = if !parsed && (w.unknown || dashed(arg)) {
                None
            } else {
                w.separator
            };
            walked(context, WalkState { st, separator, ..w }, argv, index + 1)
        }
    }
}

/// The arguments that do not leave the vector, in order.
pub open spec fn compacted(kept: Seq<Seq<char>>, gone: Seq<bool>) -> Seq<Seq<char>>
    decreases kept.len(),
{
    if kept.len() == 0 {
        Seq::empty()
    } else if gone.last() {
        compacted(kept.drop_last(), gone.drop_last())
    } else {
        compacted(kept.drop_last(), gone.drop_last()).push(kept.last())
    }
}

/// The state at the end of a parse of an argument vector, whose first argument is the program's
/// name.
pub open spec fn parsed(
    context: OptionContext,
    values: Seq<ValueView>,
    argv: Seq<Seq<char>>,
) -> ParseState {
    let start = ParseState {
        values,
        begun: Seq::new(values.len(), |i: int| false),
        kept: argv,
        gone: Seq::new(argv.len(), |i: int| false),
        calls: Seq::empty(),
        failure: None,
    };
    let end = walked(
        context,
        WalkState { st: start, stopped: false, unknown: false, separator: None },
        argv,
        1,
    );
    match end.separator {
        Some(place) => if end.st.failure is None {
            without(end.st, place)
        } else {
            end.st
        },
        None => end.st,
    }
}

/// What a parse will do.
pub struct OptionPlan {
    /// The values after it.
    pub values: Vec<OptionValue>,
    /// The argument vector after it.
    pub argv: Vec<String>,
    /// The callbacks to call, in order.
    pub calls: Vec<OptionCall>,
    /// The error that it ends with, if all callbacks succeed.
    pub failure: Option<OptionFailure>,
}

impl ParseRun {
    fn has_failed(&self) -> (yes: bool)
        ensures
            yes == self@.failure is Some,
    {
        self.failure.is_some()
    }

    /// Parse a long option by the entries of a group. Returns how many further arguments it took,
    /// or none where the group does not have the option.
    fn parse_long_option(
        &mut self,
        group: &OptionGroup,
        argv: &Vec<String>,
        index: usize,
        text: &str,
        aliased: bool,
    ) -> (more: Option<usize>)
        requires
            index < argv@.len(),
            state_ok(old(self)@, argv@.len()),
            group_fits(*group, old(self)@.values),
        ensures
            match long_given(
                old(self)@,
                *group,
                crate::text::texts(argv@),
                index as int,
                text@,
                aliased,
            ) {
                Some((st, n)) => {
                    &&& more == Some(n as usize)
                    &&& n <= 1
                    &&& n == 1 ==> index + 1 < argv@.len()
                    &&& final(self)@ == st
                },
                None => more is None && final(self)@ == old(self)@,
            },
            follows(old(self)@, final(self)@),
    {
        let ghost args = crate::text::texts(argv@);
        let ghost entries = group.entries@;
        let ghost before = self@;
        let mut i: usize = 0;
        while i < group.entries.len()
            invariant
                i <= group.entries@.len(),
                index < argv@.len(),
                entries == group.entries@,
                args == crate::text::texts(argv@),
                self@ == before,
                before == old(self)@,
                state_ok(self@, argv@.len()),
                group_fits(*group, self@.values),
                long_index(entries, text@, aliased, 0) == long_index(
                    entries,
                    text@,
                    aliased,
                    i as int,
                ),
            decreases group.entries@.len() - i,
        {
            let entry: OptionEntry = group.entries[i];
            if let Some(name) = entry.long_name {
                let refused: bool = aliased && (entry.flags & option_flags::NOALIAS) != 0;
                let exact: bool = same_text(text, name);
                let prefix: String = joined(name, "=");
                let inline: bool = starts_with(text, prefix.as_str());
                if !refused && (exact || inline) {
                    assert(is_long(entry, text@, aliased));
                    assert(fits(entries[i as int], before.values));
                    let option_name: String = joined("--", name);
                    if no_arg(&entry) && exact {
                        self.mark_removed(index);
                        self.parse_arg(group.user_data, &entry, None, option_name.as_str());
                        return Some(0);
                    }
                    if inline {
                        proof {
                            reveal_strlit("=");
                        }
                        let value = skipped(text, prefix.as_str().unicode_len());
                        self.mark_removed(index);
                        self.parse_arg(group.user_data, &entry, Some(value), option_name.as_str());
                        return Some(0);
                    }
                    if index < argv.len() - 1 && !(optional_arg(&entry) && starts_with_char(
                        argv[index + 1].as_str(),
                        '-',
                    )) {
                        self.mark_removed(index);
                        self.mark_removed(index + 1);
                        self.parse_arg(
                            group.user_data,
                            &entry,
                            Some(argv[index + 1].as_str()),
                            option_name.as_str(),
                        );
                        return Some(1);
                    }
                    if optional_arg(&entry) {
                        self.mark_removed(index);
                        self.parse_arg(group.user_data, &entry, None, option_name.as_str());
                        return Some(0);
                    }
                    self.fail_missing(option_name.as_str());
                    return Some(0);
                }
            }
            i = i + 1;
        }
        None
    }

    /// Try the other groups, in order.
    fn parse_long_in_groups(
        &mut self,
        groups: &Vec<OptionGroup>,
        argv: &Vec<String>,
        index: usize,
        text: &str,
    ) -> (more: Option<usize>)
        requires
            index < argv@.len(),
            state_ok(old(self)@, argv@.len()),
            forall|i: int|
                0 <= i < groups@.len() ==> group_fits(#[trigger] groups@[i], old(self)@.values),
        ensures
            match long_given_in(
                old(self)@,
                groups@,
                crate::text::texts(argv@),
                index as int,
                text@,
                0,
            ) {
                Some((st, n)) => {
                    &&& more == Some(n as usize)
                    &&& n <= 1
                    &&& n == 1 ==> index + 1 < argv@.len()
                    &&& final(self)@ == st
                },
                None => more is None && final(self)@ == old(self)@,
            },
            follows(old(self)@, final(self)@),
    {
        let ghost args = crate::text::texts(argv@);
        let ghost before = self@;
        let mut i: usize = 0;
        while i < groups.len()
            invariant
                i <= groups@.len(),
                index < argv@.len(),
                args == crate::text::texts(argv@),
                self@ == before,
                before == old(self)@,
                state_ok(self@, argv@.len()),
                forall|i: int|
                    0 <= i < groups@.len() ==> group_fits(#[trigger] groups@[i], self@.values),
                long_given_in(before, groups@, args, index as int, text@, 0) == long_given_in(
                    before,
                    groups@,
                    args,
                    index as int,
                    text@,
                    i as int,
                ),
            decreases groups@.len() - i,
        {
            let more = self.parse_long_option(&groups[i], argv, index, text, false);
            if more.is_some() {
                return more;
            }
            i = i + 1;
        }
        None
    }

    /// Try the group whose name stands before the first dash.
    fn parse_long_aliased(
        &mut self,
        groups: &Vec<OptionGroup>,
        argv: &Vec<String>,
        index: usize,
        text: &str,
    ) -> (more: Option<usize>)
        requires
            index < argv@.len(),
            state_ok(old(self)@, argv@.len()),
            forall|i: int|
                0 <= i < groups@.len() ==> group_fits(#[trigger] groups@[i], old(self)@.values),
        ensures
            match long_given_aliased(
                old(self)@,
                groups@,
                crate::text::texts(argv@),
                index as int,
                text@,
            ) {
                Some((st, n)) => {
                    &&& more == Some(n as usize)
                    &&& n <= 1
                    &&& n == 1 ==> index + 1 < argv@.len()
                    &&& final(self)@ == st
                },
                None => more is None && final(self)@ == old(self)@,
            },
            follows(old(self)@, final(self)@),
    {
        let n: usize = text.unicode_len();
        let mut dash: usize = 0;
        while dash < n && text.get_char(dash) != '-'
            invariant
                dash <= n,
                n == text@.len(),
                dash_index(text@, 0) == dash_index(text@, dash as int),
            decreases n - dash,
        {
            dash = dash + 1;
        }
        if dash == n {
            return None;
        }
        let name = text.substring_char(0, dash);
        let option = skipped(text, dash + 1);
        assert(name@ =~= text@.take(dash as int));
        let i: usize = group_named(groups, name);
        if i == groups.len() {
            return None;
        }
        self.parse_long_option(&groups[i], argv, index, option, true)
    }

    /// Parse a long argument. Returns how many further arguments were taken, and whether the
    /// option is unknown.
    fn parse_long(&mut self, context: &OptionContext, argv: &Vec<String>, index: usize) -> (result:
        (usize, bool))
        requires
            index < argv@.len(),
            argv@[index as int]@.len() > 2,
            state_ok(old(self)@, argv@.len()),
            context_fits(*context, old(self)@.values),
        ensures
            ({
                let (st, more, unknown) = long_parsed(
                    *context,
                    old(self)@,
                    crate::text::texts(argv@),
                    index as int,
                );
                &&& final(self)@ == st
                &&& result.0 == more
                &&& result.1 == unknown
                &&& more <= 1
                &&& more == 1 ==> index + 1 < argv@.len()
            }),
            follows(old(self)@, final(self)@),
    {
        let ghost args = crate::text::texts(argv@);
        let text = skipped(argv[index].as_str(), 2);
        assert(text@ == args[index as int].skip(2));
        if context.help_enabled && help_option_requested(text) {
            let message: String = "help requested".to_owned();
            self.fail(OptionError::Failed, message);
            return (0, false);
        }
        if let Some(main) = &context.main_group {
            if let Some(more) = self.parse_long_option(main, argv, index, text, false) {
                return (more, false);
            }
        }
        if let Some(more) = self.parse_long_in_groups(&context.groups, argv, index, text) {
            return (more, false);
        }
        if let Some(more) = self.parse_long_aliased(&context.groups, argv, index, text) {
            return (more, false);
        }
        if !context.ignore_unknown {
            let message: String = joined("Unknown option ", argv[index].as_str());
            self.fail(OptionError::UnknownOption, message);
        }
        (0, true)
    }

    /// Parse a short option by the entries of a group, all that have the name. `took` says whether
    /// the next argument was taken already. Returns whether it is taken now, and whether the group
    /// has the option.
    fn parse_short_option(
        &mut self,
        group: &OptionGroup,
        argv: &Vec<String>,
        index: usize,
        ch: &str,
        took: bool,
        Ghost(c): Ghost<ClusterState>,
    ) -> (result: (bool, bool))
        requires
            index < argv@.len(),
            ch@.len() == 1,
            state_ok(old(self)@, argv@.len()),
            group_fits(*group, old(self)@.values),
            old(self)@.failure is None,
            c.st == old(self)@,
            c.took == took,
            took ==> index + 1 < argv@.len(),
        ensures
            ({
                let after = short_given_by(
                    c,
                    *group,
                    ch@[0],
                    crate::text::texts(argv@),
                    index as int,
                    0,
                );
                &&& final(self)@ == after.st
                &&& result.0 == after.took
                &&& after.took ==> index + 1 < argv@.len()
                &&& after.parsed == (c.parsed || result.1)
                &&& after.left == c.left
            }),
            follows(old(self)@, final(self)@),
    {
        let ghost args = crate::text::texts(argv@);
        let ghost before = self@;
        let ghost mut now: ClusterState = c;
        let mut took_next: bool = took;
        let mut parsed: bool = false;
        let c0: char = ch.get_char(0);
        let mut i: usize = 0;
        while i < group.entries.len() && !self.has_failed()
            invariant
                i <= group.entries@.len(),
                index < argv@.len(),
                ch@.len() == 1,
                c0 == ch@[0],
                args == crate::text::texts(argv@),
                state_ok(self@, argv@.len()),
                group_fits(*group, self@.values),
                follows(before, self@),
                before == old(self)@,
                now.st == self@,
                now.took == took_next,
                now.parsed == (c.parsed || parsed),
                now.left == c.left,
                took_next ==> index + 1 < argv@.len(),
                short_given_by(c, *group, c0, args, index as int, 0) == short_given_by(
                    now,
                    *group,
                    c0,
                    args,
                    index as int,
                    i as int,
                ),
            decreases group.entries@.len() - i,
        {
            let entry: OptionEntry = group.entries[i];
            if entry.short_name == c0 {
                let ghost was = self@;
                assert(fits(group.entries@[i as int], self@.values));
                let option_name: String = joined("-", ch);
                proof {
                    assert(option_name@ =~= "-"@ + seq![entry.short_name]);
                    now = short_given(now, entry, group.user_data, args, index as int);
                }
                if !no_arg(&entry) && took_next {
                    let message: String = joined("Error parsing option ", option_name.as_str());
                    self.fail(OptionError::Failed, message);
                } else {
                    let next: bool = index < argv.len() - 1 && !(optional_arg(&entry)
                        && starts_with_char(argv[index + 1].as_str(), '-'));
                    if !no_arg(&entry) && !next && !optional_arg(&entry) {
                        self.fail_missing(option_name.as_str());
                    } else {
                        if !no_arg(&entry) && next {
                            took_next = true;
                            self.parse_arg(
                                group.user_data,
                                &entry,
                                Some(argv[index + 1].as_str()),
                                option_name.as_str(),
                            );
                        } else {
                            self.parse_arg(group.user_data, &entry, None, option_name.as_str());
                        }
                        self.mark_removed(index);
                        if took_next {
                            self.mark_removed(index + 1);
                        }
                        parsed = true;
                    }
                }
                proof {
                    assert(follows(was, self@));
                    lemma_group_fits_same(*group, was.values, self@.values);
                }
            }
            i = i + 1;
        }
        (took_next, parsed)
    }
}

fn help_option_requested(text: &str) -> (yes: bool)
    ensures
        yes == asks_for_help(text@),
{
    same_text(text, "help") || starts_with(text, "help-")
}

fn group_has_short(group: &OptionGroup, ch: char) -> (yes: bool)
    ensures
        yes == has_short(*group, ch),
{
    let mut i: usize = 0;
    while i < group.entries.len()
        invariant
            i <= group.entries@.len(),
            forall|j: int| 0 <= j < i ==> (#[trigger] group.entries@[j]).short_name != ch,
        decreases group.entries@.len() - i,
    {
        if group.entries[i].short_name == ch {
            assert(group.entries@[i as int].short_name == ch);
            return true;
        }
        i = i + 1;
    }
    false
}

fn context_has_h_entry(context: &OptionContext) -> (yes: bool)
    ensures
        yes == context_has_short(*context, 'h'),
{
    if let Some(main) = &context.main_group {
        if group_has_short(main, 'h') {
            return true;
        }
    }
    let mut i: usize = 0;
    while i < context.groups.len()
        invariant
            i <= context.groups@.len(),
            context.main_group matches Some(main) ==> !has_short(main, 'h'),
            forall|j: int| 0 <= j < i ==> !has_short(#[trigger] context.groups@[j], 'h'),
        decreases context.groups@.len() - i,
    {
        if group_has_short(&context.groups[i], 'h') {
            assert(has_short(context.groups@[i as int], 'h'));
            return true;
        }
        i = i + 1;
    }
    false
}

impl ParseRun {
    /// Parse one character of a cluster; see [`char_parsed`]. Returns whether the next argument is
    /// taken, and whether the character is an option.
    fn parse_short(
        &mut self,
        context: &OptionContext,
        argv: &Vec<String>,
        index: usize,
        ch: &str,
        took: bool,
        Ghost(c): Ghost<ClusterState>,
    ) -> (result: (bool, bool))
        requires
            index < argv@.len(),
            ch@.len() == 1,
            state_ok(old(self)@, argv@.len()),
            context_fits(*context, old(self)@.values),
            old(self)@.failure is None,
            c.st == old(self)@,
            c.took == took,
            took ==> index + 1 < argv@.len(),
        ensures
            ({
                let after = char_parsed(
                    *context,
                    c,
                    crate::text::texts(argv@),
                    index as int,
                    ch@[0],
                );
                &&& final(self)@ == after.st
                &&& result.0 == after.took
                &&& after.took ==> index + 1 < argv@.len()
                &&& after.st.failure is None ==> result.1 == after.parsed
                &&& after.st.failure is None ==> after.left == (if result.1 {
                    c.left
                } else {
                    c.left.push(ch@[0])
                })
            }),
            follows(old(self)@, final(self)@),
    {
        let ghost args = crate::text::texts(argv@);
        let ghost before = self@;
        let c0: char = ch.get_char(0);
        if context.help_enabled && (c0 == '?' || (c0 == 'h' && !context_has_h_entry(context))) {
            let message: String = "help requested".to_owned();
            self.fail(OptionError::Failed, message);
            return (took, false);
        }
        let ghost start = ClusterState { parsed: false, ..c };
        let ghost mut now: ClusterState = start;
        let mut took_next: bool = took;
        let mut parsed: bool = false;
        if let Some(main) = &context.main_group {
            let (t, p) = self.parse_short_option(main, argv, index, ch, took_next, Ghost(start));
            took_next = t;
            parsed = p;
            proof {
                now = short_given_by(start, *main, c0, args, index as int, 0);
            }
        }
        let ghost by_main = now;
        proof {
            lemma_context_fits_same(*context, before.values, self@.values);
        }
        let mut i: usize = 0;
        while i < context.groups.len() && !parsed && !self.has_failed()
            invariant
                i <= context.groups@.len(),
                index < argv@.len(),
                ch@.len() == 1,
                c0 == ch@[0],
                args == crate::text::texts(argv@),
                state_ok(self@, argv@.len()),
                context_fits(*context, self@.values),
                follows(before, self@),
                before == old(self)@,
                now.st == self@,
                now.took == took_next,
                now.parsed == parsed,
                now.left == c.left,
                took_next ==> index + 1 < argv@.len(),
                short_given_in(by_main, context.groups@, c0, args, index as int, 0)
                    == short_given_in(now, context.groups@, c0, args, index as int, i as int),
            decreases context.groups@.len() - i,
        {
            let ghost was = self@;
            let ghost was_c = now;
            let (t, p) = self.parse_short_option(
                &context.groups[i],
                argv,
                index,
                ch,
                took_next,
                Ghost(was_c),
            );
            took_next = t;
            parsed = p;
            proof {
                now = short_given_by(
                    was_c,
                    context.groups@[i as int],
                    c0,
                    args,
                    index as int,
                    0,
                );
                lemma_context_fits_same(*context, was.values, self@.values);
            }
            i = i + 1;
        }
        if !self.has_failed() && !parsed && !context.ignore_unknown {
            let message: String = joined("Unknown option ", argv[index].as_str());
            self.fail(OptionError::UnknownOption, message);
        }
        (took_next, parsed)
    }

    /// Parse a cluster of short options. Returns how many further arguments were taken.
    fn parse_cluster(&mut self, context: &OptionContext, argv: &Vec<String>, index: usize) -> (more:
        usize)
        requires
            index < argv@.len(),
            argv@[index as int]@.len() > 1,
            state_ok(old(self)@, argv@.len()),
            context_fits(*context, old(self)@.values),
            old(self)@.failure is None,
        ensures
            ({
                let (st, n) = cluster_parsed(
                    *context,
                    old(self)@,
                    crate::text::texts(argv@),
                    index as int,
                );
                &&& final(self)@ == st
                &&& more == n
                &&& n <= 1
                &&& n == 1 ==> index + 1 < argv@.len()
            }),
            follows(old(self)@, final(self)@),
    {
        let ghost args = crate::text::texts(argv@);
        let ghost before = self@;
        let ghost start = ClusterState {
            st: self@,
            took: false,
            parsed: false,
            left: Seq::empty(),
        };
        let ghost mut now: ClusterState = start;
        let arg = argv[index].as_str();
        let n: usize = arg.unicode_len();
        let mut left: String = String::new();
        let mut took: bool = false;
        let mut pos: usize = 1;
        assert(arg@ == args[index as int]);
        while pos < n && !self.has_failed()
            invariant
                1 <= pos <= n,
                index < argv@.len(),
                n == arg@.len(),
                args == crate::text::texts(argv@),
                arg@ == args[index as int],
                state_ok(self@, argv@.len()),
                context_fits(*context, self@.values),
                follows(before, self@),
                before == old(self)@,
                now.st == self@,
                now.took == took,
                self@.failure is None ==> now.left == left@,
                took ==> index + 1 < argv@.len(),
                chars_parsed(*context, start, args, index as int, 1) == chars_parsed(
                    *context,
                    now,
                    args,
                    index as int,
                    pos as int,
                ),
            decreases n - pos,
        {
            let ghost was = self@;
            let ghost was_c = now;
            let ch = arg.substring_char(pos, pos + 1);
            assert(ch@[0] == arg@[pos as int]);
            let (t, parsed) = self.parse_short(context, argv, index, ch, took, Ghost(was_c));
            took = t;
            if !parsed {
                left.append(ch);
            }
            proof {
                now = char_parsed(*context, was_c, args, index as int, arg@[pos as int]);
                assert(was_c.left + ch@ =~= was_c.left.push(ch@[0]));
                lemma_context_fits_same(*context, was.values, self@.values);
            }
            pos = pos + 1;
        }
        if !self.has_failed() && context.ignore_unknown {
            if left.as_str().is_empty() {
                self.mark_removed(index);
            } else {
                let ghost was = *self;
                let rest: String = joined("-", left.as_str());
                self.kept[index] = rest;
                self.gone[index] = false;
                assert(self@.kept =~= was@.kept.update(index as int, rest@));
            }
        }
        if took {
            1
        } else {
            0
        }
    }

    /// Parse an argument that is no option. Returns whether an entry collects it.
    fn parse_remaining_arg(
        &mut self,
        context: &OptionContext,
        argv: &Vec<String>,
        index: usize,
    ) -> (parsed: bool)
        requires
            index < argv@.len(),
            state_ok(old(self)@, argv@.len()),
            context_fits(*context, old(self)@.values),
        ensures
            (final(self)@, parsed) == plain_parsed(
                *context,
                old(self)@,
                crate::text::texts(argv@),
                index as int,
            ),
            follows(old(self)@, final(self)@),
    {
        if let Some(main) = &context.main_group {
            let mut i: usize = 0;
            while i < main.entries.len()
                invariant
                    i <= main.entries@.len(),
                    index < argv@.len(),
                    self@ == old(self)@,
                    state_ok(self@, argv@.len()),
                    context.main_group == Some(*main),
                    group_fits(*main, self@.values),
                    remaining_index(main.entries@, 0) == remaining_index(main.entries@, i as int),
                decreases main.entries@.len() - i,
            {
                let entry: OptionEntry = main.entries[i];
                if let Some(name) = entry.long_name {
                    if name.is_empty() {
                        assert(name@ =~= Seq::<char>::empty());
                        assert(fits(main.entries@[i as int], self@.values));
                        self.mark_removed(index);
                        proof {
                            reveal_strlit("");
                            assert(""@ =~= Seq::<char>::empty());
                        }
                        self.parse_arg(main.user_data, &entry, Some(argv[index].as_str()), "");
                        return true;
                    }
                }
                i = i + 1;
            }
        }
        false
    }

    /// Parse all arguments after the first.
    fn parse_inner(&mut self, context: &OptionContext, argv: &Vec<String>)
        requires
            state_ok(old(self)@, argv@.len()),
            context_fits(*context, old(self)@.values),
            old(self)@.failure is None,
        ensures
            ({
                let end = walked(
                    *context,
                    WalkState { st: old(self)@, stopped: false, unknown: false, separator: None },
                    crate::text::texts(argv@),
                    1,
                );
                final(self)@ == (match end.separator {
                    Some(place) => if end.st.failure is None {
                        without(end.st, place)
                    } else {
                        end.st
                    },
                    None => end.st,
                })
            }),
            follows(old(self)@, final(self)@),
    {
        let ghost args = crate::text::texts(argv@);
        let ghost before = self@;
        let ghost start = WalkState {
            st: self@,
            stopped: false,
            unknown: false,
            separator: None,
        };
        let ghost mut now: WalkState = start;
        let mut stopped: bool = false;
        let mut unknown: bool = false;
        let mut separator: Option<usize> = None;
        let mut index: usize = 1;
        while index < argv.len() && !self.has_failed()
            invariant
                1 <= index,
                args == crate::text::texts(argv@),
                state_ok(self@, argv@.len()),
                context_fits(*context, self@.values),
                follows(before, self@),
                before == old(self)@,
                now.st == self@,
                now.stopped == stopped,
                now.unknown == unknown,
                now.separator == (match separator {
                    Some(place) => Some(place as int),
                    None => None,
                }),
                separator matches Some(place) ==> place < argv@.len(),
                walked(*context, start, args, 1) == walked(*context, now, args, index as int),
            decreases argv@.len() - index,
        {
            let ghost was = self@;
            let arg = argv[index].as_str();
            assert(arg@ == args[index as int]);
            if !stopped && arg.unicode_len() > 1 && starts_with_char(arg, '-') {
                if arg.get_char(1) != '-' {
                    let more: usize = self.parse_cluster(context, argv, index);
                    proof {
                        now = WalkState { st: self@, ..now };
                    }
                    index = index + 1 + more;
                } else if arg.unicode_len() == 2 {
                    separator = Some(index);
                    stopped = true;
                    proof {
                        now = WalkState { stopped: true, separator: Some(index as int), ..now };
                    }
                    index = index + 1;
                } else {
                    let (more, missed) = self.parse_long(context, argv, index);
                    unknown = unknown || missed;
                    proof {
                        now = WalkState { st: self@, unknown, ..now };
                    }
                    index = index + 1 + more;
                }
            } else {
                let parsed: bool = self.parse_remaining_arg(context, argv, index);
                if !parsed && (unknown || starts_with_char(arg, '-')) {
                    separator = None;
                }
                proof {
                    now = WalkState {
                        st: self@,
                        separator: match separator {
                            Some(place) => Some(place as int),
                            None => None,
                        },
                        ..now
                    };
                }
                index = index + 1;
            }
            proof {
                lemma_context_fits_same(*context, was.values, self@.values);
            }
        }
        if !self.has_failed() {
            if let Some(place) = separator {
                self.mark_removed(place);
            }
        }
    }
}

fn copy_value(value: &OptionValue) -> (copy: OptionValue)
    ensures
        copy@ == value@,
{
    match value {
        OptionValue::Bool(b) => OptionValue::Bool(*b),
        OptionValue::Int(i) => OptionValue::Int(*i),
        OptionValue::Text(t) => OptionValue::Text(t.clone()),
        OptionValue::Texts(list) => OptionValue::Texts(copy_texts(list)),
    }
}

fn copy_values(values: &Vec<OptionValue>) -> (copy: Vec<OptionValue>)
    ensures
        held(copy@) == held(values@),
{
    let mut copy: Vec<OptionValue> = Vec::new();
    let mut i: usize = 0;
    while i < values.len()
        invariant
            i <= values@.len(),
            copy@.len() == i,
            forall|j: int| 0 <= j < i ==> (#[trigger] copy@[j])@ == values@[j]@,
        decreases values@.len() - i,
    {
        copy.push(copy_value(&values[i]));
        i = i + 1;
    }
    assert(held(copy@) =~= held(values@));
    copy
}

/// The arguments that do not leave the vector, in order.
fn compact(kept: &Vec<String>, gone: &Vec<bool>) -> (rest: Vec<String>)
    requires
        kept@.len() == gone@.len(),
    ensures
        crate::text::texts(rest@) == compacted(crate::text::texts(kept@), gone@),
{
    let ghost all = crate::text::texts(kept@);
    let mut rest: Vec<String> = Vec::new();
    let mut i: usize = 0;
    assert(crate::text::texts(rest@) =~= compacted(all.take(0), gone@.take(0)));
    while i < kept.len()
        invariant
            i <= kept@.len() == gone@.len(),
            all == crate::text::texts(kept@),
            crate::text::texts(rest@) == compacted(all.take(i as int), gone@.take(i as int)),
        decreases kept@.len() - i,
    {
        let ghost before = rest@;
        proof {
            assert(all.take(i + 1).drop_last() =~= all.take(i as int));
            assert(gone@.take(i + 1).drop_last() =~= gone@.take(i as int));
            assert(all.take(i + 1).last() == kept@[i as int]@);
        }
        if !gone[i] {
            rest.push(kept[i].clone());
            assert(crate::text::texts(rest@) =~= crate::text::texts(before).push(
                kept@[i as int]@,
            ));
        }
        i = i + 1;
    }
    assert(all.take(kept@.len() as int) =~= all);
    assert(gone@.take(kept@.len() as int) =~= gone@);
    rest
}

/// The error value of an error of the parser.
pub open spec fn failure_error(failure: FailureView, domain: Quark) -> ErrorView {
    ErrorView { domain, code: failure.code.number(), message: failure.message }
}

/// The error value for an error of a callback: its own, if it is of the domain of option parsing,
/// else one that names the option.
pub open spec fn callback_error(error: ErrorView, option_name: Seq<char>, domain: Quark) -> ErrorView {
    if error.domain == domain {
        error
    } else {
        ErrorView {
            domain,
            code: OptionError::Failed.number(),
            message: "Error parsing option "@ + option_name,
        }
    }
}

/// `answers` are what the callback answered to the planned calls: to all of them, or up to the
/// first error.
pub open spec fn answered<F: Fn(&OptionCall) -> Result<(), Error>>(
    callback: F,
    planned: Seq<CallView>,
    made: Seq<OptionCall>,
    answers: Seq<Result<(), Error>>,
) -> bool {
    &&& made.len() == answers.len() <= planned.len()
    &&& forall|i: int|
        0 <= i < made.len() ==> {
            &&& (#[trigger] made[i])@ == planned[i]
            &&& callback.ensures((&made[i],), answers[i])
            &&& i < made.len() - 1 ==> answers[i] is Ok
        }
    &&& answers.len() == planned.len() || (answers.len() > 0 && answers.last() is Err)
}

/// How a parse ends: with the error of the last call, else with the parser's own error, else well.
pub open spec fn parse_error(
    st: ParseState,
    answers: Seq<Result<(), Error>>,
    domain: Quark,
) -> Option<ErrorView> {
    if answers.len() > 0 && answers.last() is Err {
        Some(
            callback_error(
                answers.last()->Err_0@,
                st.calls[answers.len() - 1].option_name,
                domain,
            ),
        )
    } else {
        match st.failure {
            Some(failure) => Some(failure_error(failure, domain)),
            None => None,
        }
    }
}

impl OptionContext {
    /// The end of a context.
    pub fn free(self) {
    }

    /// Say whether help options end a parse.
    pub fn set_help_enabled(&mut self, help_enabled: bool)
        ensures
            *final(self) == (OptionContext { help_enabled, ..*old(self) }),
    {
        self.help_enabled = help_enabled;
    }

    /// Whether help options end a parse.
    pub fn get_help_enabled(&self) -> (enabled: bool)
        ensures
            enabled == self.help_enabled,
    {
        self.help_enabled
    }

    /// Say whether unknown options are left in place.
    pub fn set_ignore_unknown_options(&mut self, ignore_unknown: bool)
        ensures
            *final(self) == (OptionContext { ignore_unknown, ..*old(self) }),
    {
        self.ignore_unknown = ignore_unknown;
    }

    /// Whether unknown options are left in place.
    pub fn get_ignore_unknown_options(&self) -> (ignored: bool)
        ensures
            ignored == self.ignore_unknown,
    {
        self.ignore_unknown
    }

    /// Add entries to the main group, which is made where there is none.
    pub fn add_main_entries(
        &mut self,
        entries: &[OptionEntry],
        _translation_domain: Option<&str>,
    )
        ensures
            final(self).groups == old(self).groups,
            final(self).parameter_string == old(self).parameter_string,
            final(self).help_enabled == old(self).help_enabled,
            final(self).ignore_unknown == old(self).ignore_unknown,
            final(self).main_group matches Some(after) && match old(self).main_group {
                Some(before) => {
                    &&& after.entries@ == before.entries@ + listed(entries@)
                    &&& after.name == before.name
                    &&& after.description == before.description
                    &&& after.help_description == before.help_description
                    &&& after.user_data == before.user_data
                },
                None => {
                    &&& after.entries@ == listed(entries@)
                    &&& after.name is None
                    &&& after.description is None
                    &&& after.help_description is None
                    &&& after.user_data == 0
                },
            },
    {
        let mut main = match self.main_group.take() {
            Some(main) => main,
            None => OptionGroup::new(None, None, None, 0),
        };
        main.add_entries(entries);
        assert(Seq::<OptionEntry>::empty() + listed(entries@) =~= listed(entries@));
        self.main_group = Some(main);
    }

    /// Add a group.
    pub fn add_group(&mut self, group: OptionGroup)
        ensures
            final(self).groups@ == old(self).groups@.push(group),
            final(self).main_group == old(self).main_group,
            final(self).parameter_string == old(self).parameter_string,
            final(self).help_enabled == old(self).help_enabled,
            final(self).ignore_unknown == old(self).ignore_unknown,
    {
        self.groups.push(group);
    }

    /// Whether every entry that sets a value names one of its kind in the store.
    pub fn fits_store(&self, store: &OptionStore) -> (fit: bool)
        ensures
            fit == context_fits(*self, store@),
    {
        if let Some(main) = &self.main_group {
            if !main.fits_store(store) {
                return false;
            }
        }
        let mut i: usize = 0;
        while i < self.groups.len()
            invariant
                i <= self.groups@.len(),
                self.main_group matches Some(main) ==> group_fits(main, store@),
                forall|j: int| 0 <= j < i ==> group_fits(#[trigger] self.groups@[j], store@),
            decreases self.groups@.len() - i,
        {
            if !self.groups[i].fits_store(store) {
                assert(!group_fits(self.groups@[i as int], store@));
                return false;
            }
            i = i + 1;
        }
        true
    }

    /// Work out what a parse of an argument vector will do.
    pub fn plan(&self, argv: &Vec<String>, store: &OptionStore) -> (plan: OptionPlan)
        requires
            context_fits(*self, store@),
        ensures
            ({
                let st = parsed(*self, store@, crate::text::texts(argv@));
                &&& held(plan.values@) == st.values
                &&& crate::text::texts(plan.argv@) == compacted(st.kept, st.gone)
                &&& handed(plan.calls@) == st.calls
                &&& plan.failure is Some == st.failure is Some
                &&& plan.failure matches Some(failure) ==> Some(failure@) == st.failure
            }),
    {
        let mut begun: Vec<bool> = Vec::new();
        let mut i: usize = 0;
        while i < store.values.len()
            invariant
                i <= store.values@.len(),
                begun@.len() == i,
                forall|j: int| 0 <= j < i ==> !begun@[j],
            decreases store.values@.len() - i,
        {
            begun.push(false);
            i = i + 1;
        }
        let mut run = ParseRun {
            values: copy_values(&store.values),
            begun,
            kept: copy_texts(argv),
            gone: vec![false; argv.len()],
            calls: Vec::new(),
            failure: None,
        };
        proof {
            let start = ParseState {
                values: store@,
                begun: Seq::new(store@.len(), |i: int| false),
                kept: crate::text::texts(argv@),
                gone: Seq::new(argv@.len(), |i: int| false),
                calls: Seq::empty(),
                failure: None,
            };
            assert(run@ =~= start);
        }
        run.parse_inner(self, argv);
        let rest = compact(&run.kept, &run.gone);
        OptionPlan {
            values: run.values,
            argv: rest,
            calls: run.calls,
            failure: run.failure,
        }
    }

    /// Parse an argument vector, whose first argument is the program's name. The options set their
    /// values in `store`, `callback` is called for those with a callback, and the parsed arguments
    /// leave the vector. On an error the vector and the values stay as they were.
    pub fn parse<F: Fn(&OptionCall) -> Result<(), Error>>(
        &self,
        argv: &mut Vec<String>,
        store: &mut OptionStore,
        callback: F,
        quarks: &mut QuarkTable,
    ) -> (result: Result<(), Error>)
        requires
            context_fits(*self, old(store)@),
            forall|call: &OptionCall| #[trigger] callback.requires((call,)),
            old(quarks).wf(),
            old(quarks).has_room(OPTION_ERROR_DOMAIN@),
        ensures
            final(quarks).wf(),
            ({
                let st = parsed(*self, old(store)@, crate::text::texts(old(argv)@));
                let domain = crate::quark::quark_of(final(quarks)@, OPTION_ERROR_DOMAIN@) as Quark;
                &&& exists|made: Seq<OptionCall>, answers: Seq<Result<(), Error>>| #[trigger]
                    answered(callback, st.calls, made, answers) && match parse_error(
                        st,
                        answers,
                        domain,
                    ) {
                        None => result is Ok,
                        Some(error) => result matches Err(e) && e@ == error,
                    }
                &&& result is Ok ==> {
                    &&& final(store)@ == st.values
                    &&& crate::text::texts(final(argv)@) == compacted(st.kept, st.gone)
                    &&& final(quarks)@ == old(quarks)@
                    &&& final(quarks).copies() == old(quarks).copies()
                }
                &&& result is Err ==> {
                    &&& final(store)@ == old(store)@
                    &&& *final(argv) == *old(argv)
                    &&& final(quarks)@ == crate::quark::with_string(
                        old(quarks)@,
                        OPTION_ERROR_DOMAIN@,
                    )
                    &&& final(quarks).copies() == (if old(quarks)@.contains(OPTION_ERROR_DOMAIN@) {
                        old(quarks).copies()
                    } else {
                        old(quarks).copies().push(false)
                    })
                }
            }),
    {
        let ghost st = parsed(*self, store@, crate::text::texts(argv@));
        let plan = self.plan(argv, store);
        let ghost made = plan.calls@;
        let ghost mut answers: Seq<Result<(), Error>> = Seq::empty();
        let mut i: usize = 0;
        while i < plan.calls.len()
            invariant
                i <= plan.calls@.len(),
                made == plan.calls@,
                handed(plan.calls@) == st.calls,
                st == parsed(*self, old(store)@, crate::text::texts(old(argv)@)),
                *argv == *old(argv),
                *store == *old(store),
                *quarks == *old(quarks),
                quarks.wf(),
                quarks.has_room(OPTION_ERROR_DOMAIN@),
                forall|call: &OptionCall| #[trigger] callback.requires((call,)),
                answers.len() == i,
                forall|j: int|
                    0 <= j < i ==> {
                        &&& callback.ensures((&made[j],), #[trigger] answers[j])
                        &&& answers[j] is Ok
                    },
            decreases plan.calls@.len() - i,
        {
            let answer = callback(&plan.calls[i]);
            proof {
                answers = answers.push(answer);
            }
            if let Err(error) = answer {
                let domain: Quark = option_error_quark(quarks);
                proof {
                    let some = made.take(i + 1);
                    assert forall|j: int| 0 <= j < some.len() implies {
                        &&& (#[trigger] some[j])@ == st.calls[j]
                        &&& callback.ensures((&some[j],), answers[j])
                        &&& j < some.len() - 1 ==> answers[j] is Ok
                    } by {
                        assert(handed(made)[j] == made[j]@);
                    }
                    assert(answered(callback, st.calls, some, answers));
                    assert(handed(made)[i as int] == made[i as int]@);
                }
                if error.domain() == domain {
                    return Err(error);
                }
                let message: String = joined(
                    "Error parsing option ",
                    plan.calls[i].option_name.as_str(),
                );
                return Err(
                    Error::new(domain, OptionError::Failed.code(), message.as_str()),
                );
            }
            i = i + 1;
        }
        proof {
            assert forall|j: int| 0 <= j < made.len() implies {
                &&& (#[trigger] made[j])@ == st.calls[j]
                &&& callback.ensures((&made[j],), answers[j])
                &&& j < made.len() - 1 ==> answers[j] is Ok
            } by {
                assert(handed(made)[j] == made[j]@);
                assert(answers[j] is Ok);
            }
            assert(answered(callback, st.calls, made, answers));
            if answers.len() > 0 {
                assert(answers[answers.len() - 1] is Ok);
            }
        }
        match plan.failure {
            Some(failure) => {
                let domain: Quark = option_error_quark(quarks);
                Err(Error::new(domain, failure.code.code(), failure.message.as_str()))
            },
            None => {
                store.values = plan.values;
                *argv = plan.argv;
                Ok(())
            },
        }
    }
}

/// Every argument is as it was or, where unknown options are ignored, is a cluster of which unknown
/// short options stay. The first argument stays.
pub open spec fn stay_or_leave(
    ignore_unknown: bool,
    argv: Seq<Seq<char>>,
    st: ParseState,
) -> bool {
    &&& st.kept.len() == argv.len()
    &&& st.gone.len() == argv.len()
    &&& argv.len() > 0 ==> st.kept[0] == argv[0] && !st.gone[0]
    &&& forall|i: int|
        0 <= i < argv.len() ==> {
            ||| #[trigger] st.kept[i] == argv[i]
            ||| ignore_unknown && dashed(st.kept[i]) && dashed(argv[i])
        }
}

proof fn lemma_stay_long(
    ignore: bool,
    st: ParseState,
    group: OptionGroup,
    argv: Seq<Seq<char>>,
    index: int,
    text: Seq<char>,
    aliased: bool,
)
    requires
        1 <= index < argv.len(),
        stay_or_leave(ignore, argv, st),
    ensures
        long_given(st, group, argv, index, text, aliased) matches Some(result) ==> stay_or_leave(
            ignore,
            argv,
            result.0,
        ),
{
}

proof fn lemma_stay_long_in(
    ignore: bool,
    st: ParseState,
    groups: Seq<OptionGroup>,
    argv: Seq<Seq<char>>,
    index: int,
    text: Seq<char>,
    from: int,
)
    requires
        1 <= index < argv.len(),
        stay_or_leave(ignore, argv, st),
    ensures
        long_given_in(st, groups, argv, index, text, from) matches Some(result) ==> stay_or_leave(
            ignore,
            argv,
            result.0,
        ),
    decreases groups.len() - from,
{
    if 0 <= from < groups.len() {
        lemma_stay_long(ignore, st, groups[from], argv, index, text, false);
        lemma_stay_long_in(ignore, st, groups, argv, index, text, from + 1);
    }
}

/// The next argument was taken only if there is one.
spec fn stays(ignore: bool, c: ClusterState, argv: Seq<Seq<char>>, index: int) -> bool {
    &&& stay_or_leave(ignore, argv, c.st)
    &&& c.took ==> index + 1 < argv.len()
}

proof fn lemma_stay_short_by(
    ignore: bool,
    c: ClusterState,
    group: OptionGroup,
    ch: char,
    argv: Seq<Seq<char>>,
    index: int,
    from: int,
)
    requires
        1 <= index < argv.len(),
        stays(ignore, c, argv, index),
    ensures
        stays(ignore, short_given_by(c, group, ch, argv, index, from), argv, index),
    decreases group.entries@.len() - from,
{
    if !(from < 0 || from >= group.entries@.len() || c.st.failure is Some) {
        if group.entries@[from].short_name == ch {
            let next = short_given(c, group.entries@[from], group.user_data, argv, index);
            lemma_stay_short_by(ignore, next, group, ch, argv, index, from + 1);
        } else {
            lemma_stay_short_by(ignore, c, group, ch, argv, index, from + 1);
        }
    }
}

proof fn lemma_stay_short_in(
    ignore: bool,
    c: ClusterState,
    groups: Seq<OptionGroup>,
    ch: char,
    argv: Seq<Seq<char>>,
    index: int,
    from: int,
)
    requires
        1 <= index < argv.len(),
        stays(ignore, c, argv, index),
    ensures
        stays(ignore, short_given_in(c, groups, ch, argv, index, from), argv, index),
    decreases groups.len() - from,
{
    if !(from < 0 || from >= groups.len() || c.st.failure is Some || c.parsed) {
        lemma_stay_short_by(ignore, c, groups[from], ch, argv, index, 0);
        lemma_stay_short_in(
            ignore,
            short_given_by(c, groups[from], ch, argv, index, 0),
            groups,
            ch,
            argv,
            index,
            from + 1,
        );
    }
}

proof fn lemma_stay_chars(
    context: OptionContext,
    c: ClusterState,
    argv: Seq<Seq<char>>,
    index: int,
    from: int,
)
    requires
        1 <= index < argv.len(),
        stays(context.ignore_unknown, c, argv, index),
    ensures
        stays(
            context.ignore_unknown,
            chars_parsed(context, c, argv, index, from),
            argv,
            index,
        ),
    decreases argv[index].len() - from,
{
    if !(from < 0 || from >= argv[index].len() || c.st.failure is Some) {
        let ch = argv[index][from];
        let ignore = context.ignore_unknown;
        let start = ClusterState { parsed: false, ..c };
        let by_main = match context.main_group {
            Some(main) => short_given_by(start, main, ch, argv, index, 0),
            None => start,
        };
        if let Some(main) = context.main_group {
            lemma_stay_short_by(ignore, start, main, ch, argv, index, 0);
        }
        lemma_stay_short_in(ignore, by_main, context.groups@, ch, argv, index, 0);
        lemma_stay_chars(
            context,
            char_parsed(context, c, argv, index, ch),
            argv,
            index,
            from + 1,
        );
    }
}

proof fn lemma_stay_walked(
    context: OptionContext,
    w: WalkState,
    argv: Seq<Seq<char>>,
    index: int,
)
    requires
        1 <= index,
        stay_or_leave(context.ignore_unknown, argv, w.st),
        w.separator matches Some(place) ==> 1 <= place < argv.len(),
    ensures
        stay_or_leave(
            context.ignore_unknown,
            argv,
            walked(context, w, argv, index).st,
        ),
        walked(context, w, argv, index).separator matches Some(place) ==> 1 <= place < argv.len(),
    decreases
            if index < argv.len() {
                argv.len() - index
            } else {
                0
            },
{
    if !(index < 0 || index >= argv.len() || w.st.failure is Some) {
        let ignore = context.ignore_unknown;
        let arg = argv[index];
        if dashed(arg) && arg.len() > 1 && !w.stopped {
            if arg[1] != '-' {
                let start = ClusterState {
                    st: w.st,
                    took: false,
                    parsed: false,
                    left: Seq::empty(),
                };
                lemma_stay_chars(context, start, argv, index, 1);
                let (st, more) = cluster_parsed(context, w.st, argv, index);
                let c = chars_parsed(context, start, argv, index, 1);
                reveal_strlit("-");
                assert(stay_or_leave(ignore, argv, st));
                lemma_stay_walked(context, WalkState { st, ..w }, argv, index + 1 + more);
            } else if arg.len() == 2 {
                lemma_stay_walked(
                    context,
                    WalkState { stopped: true, separator: Some(index), ..w },
                    argv,
                    index + 1,
                );
            } else {
                let text = argv[index].skip(2);
                if let Some(main) = context.main_group {
                    lemma_stay_long(ignore, w.st, main, argv, index, text, false);
                }
                lemma_stay_long_in(ignore, w.st, context.groups@, argv, index, text, 0);
                let dash = dash_index(text, 0);
                let i = group_index(context.groups@, text.take(dash), 0);
                lemma_stay_long(
                    ignore,
                    w.st,
                    context.groups@[i],
                    argv,
                    index,
                    text.skip(dash + 1),
                    true,
                );
                let (st, more, unknown) = long_parsed(context, w.st, argv, index);
                lemma_stay_walked(
                    context,
                    WalkState { st, unknown: w.unknown || unknown, ..w },
                    argv,
                    index + 1 + more,
                );
            }
        } else {
            let (st, parsed) = plain_parsed(context, w.st, argv, index);
            let separator = if !parsed && (w.unknown || dashed(arg)) {
                None
            } else {
                w.separator
            };
            lemma_stay_walked(context, WalkState { st, separator, ..w }, argv, index + 1);
        }
    }
}

/// A parse takes arguments out of the vector and rewrites nothing but clusters of short options of
/// which some are unknown; the program's name stays.
pub proof fn law_arguments_stay_or_leave(
    context: OptionContext,
    values: Seq<ValueView>,
    argv: Seq<Seq<char>>,
)
    ensures
        stay_or_leave(context.ignore_unknown, argv, parsed(context, values, argv)),
{
    let start = ParseState {
        values,
        begun: Seq::new(values.len(), |i: int| false),
        kept: argv,
        gone: Seq::new(argv.len(), |i: int| false),
        calls: Seq::empty(),
        failure: None,
    };
    lemma_stay_walked(
        context,
        WalkState { st: start, stopped: false, unknown: false, separator: None },
        argv,
        1,
    );
}

/// Nothing leaves where nothing is marked.
proof fn lemma_none_gone(kept: Seq<Seq<char>>, gone: Seq<bool>)
    requires
        kept.len() == gone.len(),
        forall|i: int| 0 <= i < gone.len() ==> !#[trigger] gone[i],
    ensures
        compacted(kept, gone) == kept,
    decreases kept.len(),
{
    if kept.len() > 0 {
        lemma_none_gone(kept.drop_last(), gone.drop_last());
        assert(kept.drop_last().push(kept.last()) =~= kept);
    } else {
        assert(compacted(kept, gone) =~= kept);
    }
}

/// An argument is no option: it does not start with a dash, or is nothing else.
pub open spec fn is_plain(arg: Seq<char>) -> bool {
    !dashed(arg) || arg.len() == 1
}

/// No entry collects the arguments that are no options.
pub open spec fn collects_nothing(context: OptionContext) -> bool {
    context.main_group matches Some(main) ==> remaining_index(main.entries@, 0)
        == main.entries@.len()
}

proof fn lemma_plain_walked(
    context: OptionContext,
    w: WalkState,
    argv: Seq<Seq<char>>,
    index: int,
)
    requires
        1 <= index,
        collects_nothing(context),
        forall|i: int| 1 <= i < argv.len() ==> is_plain(#[trigger] argv[i]),
        w.separator is None,
    ensures
        walked(context, w, argv, index) == w,
    decreases
            if index < argv.len() {
                argv.len() - index
            } else {
                0
            },
{
    if index < argv.len() && w.st.failure is None {
        assert(is_plain(argv[index]));
        lemma_plain_walked(context, w, argv, index + 1);
    }
}

/// A parse takes out only what it parses: arguments that are no options, empty ones among them,
/// stay where no entry collects them, and nothing else happens.
pub proof fn law_plain_arguments_stay(
    context: OptionContext,
    values: Seq<ValueView>,
    argv: Seq<Seq<char>>,
)
    requires
        collects_nothing(context),
        forall|i: int| 1 <= i < argv.len() ==> is_plain(#[trigger] argv[i]),
    ensures
        ({
            let st = parsed(context, values, argv);
            &&& compacted(st.kept, st.gone) == argv
            &&& st.values == values
            &&& st.calls == Seq::<CallView>::empty()
            &&& st.failure is None
        }),
{
    let start = ParseState {
        values,
        begun: Seq::new(values.len(), |i: int| false),
        kept: argv,
        gone: Seq::new(argv.len(), |i: int| false),
        calls: Seq::empty(),
        failure: None,
    };
    lemma_plain_walked(
        context,
        WalkState { st: start, stopped: false, unknown: false, separator: None },
        argv,
        1,
    );
    lemma_none_gone(start.kept, start.gone);
}

/// An entry is warned of exactly where something is taken out of it.
pub proof fn law_warned_of_what_is_taken_out(entry: OptionEntry, shown_group: Seq<char>)
    ensures
        (warnings_of(entry, shown_group).len() == 0) == (validated(entry) == entry),
{
    let flags = entry.flags;
    assert((flags & 4i32) != 0 ==> (flags & !4i32) != flags) by (bit_vector);
    assert((flags & (8i32 | 32i32)) != 0 ==> (flags & !(8i32 | 32i32)) != flags) by (bit_vector);
    assert(((flags & !4i32) & (8i32 | 32i32)) == (flags & (8i32 | 32i32))) by (bit_vector);
    assert((flags & 4i32) != 0 ==> ((flags & !4i32) & !(8i32 | 32i32)) != flags) by (bit_vector);
}

/// The text after `--` names an entry: it is the entry's long name, alone or followed by an equals
/// sign.
pub open spec fn names(entry: OptionEntry, text: Seq<char>) -> bool {
    entry.long_name matches Some(name) && {
        ||| text == name@
        ||| {
            &&& text.len() > name@.len()
            &&& text.take(name@.len() as int) == name@
            &&& text[name@.len() as int] == '='
        }
    }
}

/// An entry is found by what stands after `--` where that names it; under its group's name, only if
/// it does not refuse that.
pub proof fn law_long_names(entry: OptionEntry, text: Seq<char>)
    ensures
        is_long(entry, text, false) == names(entry, text),
        is_long(entry, text, true) == (names(entry, text) && entry.flags & 64i32 == 0),
{
    reveal_strlit("=");
    if let Some(name) = entry.long_name {
        let n = name@.len() as int;
        let whole = name@ + "="@;
        if crate::text::is_prefix(whole, text) {
            assert(whole[n] == '=');
            assert(text.take(n + 1)[n] == '=');
            assert(text.take(n) =~= text.take(n + 1).take(n));
            assert(whole.take(n) =~= name@);
        }
        if text.len() > n && text.take(n) == name@ && text[n] == '=' {
            assert(text.take(n + 1) =~= whole);
        }
    }
}

/// Which entry of a group is given: the first that the text names (and that does not refuse to be
/// found under its group's name, where it is looked for so), or none.
pub proof fn law_first_named_entry(entries: Seq<OptionEntry>, text: Seq<char>, aliased: bool)
    ensures
        ({
            let i = long_index(entries, text, aliased, 0);
            &&& 0 <= i <= entries.len()
            &&& i < entries.len() ==> names(entries[i], text) && (aliased ==> entries[i].flags
                & 64i32 == 0)
            &&& forall|j: int|
                0 <= j < i ==> !(names(#[trigger] entries[j], text) && (aliased ==> entries[j].flags
                    & 64i32 == 0))
        }),
{
    lemma_long_index(entries, text, aliased, 0);
}

proof fn lemma_long_index(entries: Seq<OptionEntry>, text: Seq<char>, aliased: bool, from: int)
    requires
        0 <= from <= entries.len(),
    ensures
        ({
            let i = long_index(entries, text, aliased, from);
            &&& from <= i <= entries.len()
            &&& i < entries.len() ==> names(entries[i], text) && (aliased ==> entries[i].flags
                & 64i32 == 0)
            &&& forall|j: int|
                from <= j < i ==> !(names(#[trigger] entries[j], text) && (aliased
                    ==> entries[j].flags & 64i32 == 0))
        }),
    decreases entries.len() - from,
{
    if from < entries.len() {
        law_long_names(entries[from], text);
        if !is_long(entries[from], text, aliased) {
            lemma_long_index(entries, text, aliased, from + 1);
        }
    }
}

/// How a named entry of a group is given: the argument is marked to leave, and the entry is given
/// the text after the equals sign, or nothing where it takes none, or the next argument, which then
/// leaves too, or nothing where it may be left out; else its argument is missing, and nothing
/// leaves.
pub proof fn law_long_option_in_group(
    st: ParseState,
    group: OptionGroup,
    argv: Seq<Seq<char>>,
    index: int,
    text: Seq<char>,
    aliased: bool,
    i: int,
)
    requires
        0 <= i < group.entries@.len(),
        names(group.entries@[i], text),
        aliased ==> group.entries@[i].flags & 64i32 == 0,
        forall|j: int|
            0 <= j < i ==> !(names(#[trigger] group.entries@[j], text) && (aliased
                ==> group.entries@[j].flags & 64i32 == 0)),
    ensures
        ({
            let entry = group.entries@[i];
            let name = entry.long_name->0@;
            let option_name = seq!['-', '-'] + name;
            let alone = text == name;
            let plain = entry.arg == OptionArg::NoArg || (entry.arg == OptionArg::Callback
                && entry.flags & 8i32 != 0);
            let optional = entry.arg == OptionArg::Callback && entry.flags & 32i32 != 0;
            let next = index + 1 < argv.len() && !(optional && argv[index + 1].len() > 0 && argv[
            index + 1][0] == '-');
            let gone = ParseState { gone: st.gone.update(index, true), ..st };
            let both = ParseState {
                gone: st.gone.update(index, true).update(index + 1, true),
                ..st
            };
            &&& long_given(st, group, argv, index, text, aliased) matches Some(result) && {
                &&& !alone ==> result == (
                    given(
                        gone,
                        entry,
                        Some(text.skip(name.len() as int + 1)),
                        option_name,
                        group.user_data,
                    ),
                    0nat,
                )
                &&& alone && plain ==> result == (
                    given(gone, entry, None, option_name, group.user_data),
                    0nat,
                )
                &&& alone && !plain && next ==> result == (
                    given(both, entry, Some(argv[index + 1]), option_name, group.user_data),
                    1nat,
                )
                &&& alone && !plain && !next && optional ==> result == (
                    given(gone, entry, None, option_name, group.user_data),
                    0nat,
                )
                &&& alone && !plain && !next && !optional ==> {
                    &&& result.1 == 0
                    &&& result.0.failure == Some(
                        FailureView {
                            code: OptionError::BadValue,
                            message: "Missing argument for "@ + option_name,
                        },
                    )
                    &&& result.0.values == st.values && result.0.gone == st.gone && result.0.kept
                        == st.kept && result.0.calls == st.calls
                }
            }
        }),
{
    reveal_strlit("--");
    reveal_strlit("=");
    let entries = group.entries@;
    law_first_named_entry(entries, text, aliased);
    let k = long_index(entries, text, aliased, 0);
    if k < i {
        assert(names(entries[k], text));
    } else if k > i {
        assert(names(entries[i], text));
    }
    let name = entries[i].long_name->0@;
    assert("--"@ + name =~= seq!['-', '-'] + name);
    let whole = name + "="@;
    let n = name.len() as int;
    if text != name {
        assert(text.take(n + 1) =~= whole);
    }
}

/// A group in which no entry is named gives none.
pub proof fn law_long_option_not_in_group(
    st: ParseState,
    group: OptionGroup,
    argv: Seq<Seq<char>>,
    index: int,
    text: Seq<char>,
    aliased: bool,
)
    requires
        forall|j: int|
            0 <= j < group.entries@.len() ==> !(names(#[trigger] group.entries@[j], text) && (
            aliased ==> group.entries@[j].flags & 64i32 == 0)),
    ensures
        long_given(st, group, argv, index, text, aliased) is None,
{
    law_first_named_entry(group.entries@, text, aliased);
}

/// No entry of a group is named.
pub open spec fn names_none(group: OptionGroup, text: Seq<char>) -> bool {
    forall|j: int| 0 <= j < group.entries@.len() ==> !names(#[trigger] group.entries@[j], text)
}

/// What stands after `--` asks for help, and help ends the parse.
pub open spec fn helps(context: OptionContext, text: Seq<char>) -> bool {
    context.help_enabled && (text == seq!['h', 'e', 'l', 'p'] || (text.len() >= 5 && text.take(5)
        == seq!['h', 'e', 'l', 'p', '-']))
}

proof fn lemma_helps(context: OptionContext, text: Seq<char>)
    ensures
        helps(context, text) == (context.help_enabled && asks_for_help(text)),
{
    reveal_strlit("help");
    reveal_strlit("help-");
    assert("help"@ =~= seq!['h', 'e', 'l', 'p']);
    assert("help-"@ =~= seq!['h', 'e', 'l', 'p', '-']);
}

/// A long option is found by its own name in any group: where help does not end the parse and no
/// entry of the main group is named, the first named entry of the first group that has one is given,
/// and the option is not unknown. A switch sets its value and leaves the vector.
pub proof fn law_long_option_is_found(
    context: OptionContext,
    st: ParseState,
    argv: Seq<Seq<char>>,
    index: int,
    g: int,
    i: int,
)
    requires
        0 <= index < argv.len(),
        !helps(context, argv[index].skip(2)),
        context.main_group matches Some(main) ==> names_none(main, argv[index].skip(2)),
        0 <= g < context.groups@.len(),
        forall|h: int|
            0 <= h < g ==> names_none(#[trigger] context.groups@[h], argv[index].skip(2)),
        0 <= i < context.groups@[g].entries@.len(),
        names(context.groups@[g].entries@[i], argv[index].skip(2)),
        forall|j: int|
            0 <= j < i ==> !names(
                #[trigger] context.groups@[g].entries@[j],
                argv[index].skip(2),
            ),
    ensures
        ({
            let text = argv[index].skip(2);
            let group = context.groups@[g];
            let entry = group.entries@[i];
            let result = long_parsed(context, st, argv, index);
            &&& !result.2
            &&& long_given(st, group, argv, index, text, false) == Some((result.0, result.1))
            &&& entry.arg == OptionArg::NoArg && text == entry.long_name->0@ ==> {
                &&& result.1 == 0
                &&& result.0 == (ParseState {
                    values: st.values.update(
                        entry.arg_data as int,
                        ValueView::Bool(entry.flags & 4i32 == 0),
                    ),
                    gone: st.gone.update(index, true),
                    ..st
                })
            }
        }),
{
    let text = argv[index].skip(2);
    lemma_helps(context, text);
    if let Some(main) = context.main_group {
        law_long_option_not_in_group(st, main, argv, index, text, false);
    }
    law_long_option_in_group(st, context.groups@[g], argv, index, text, false, i);
    lemma_long_given_in(st, context.groups@, argv, index, text, 0, g);
}

proof fn lemma_long_given_in(
    st: ParseState,
    groups: Seq<OptionGroup>,
    argv: Seq<Seq<char>>,
    index: int,
    text: Seq<char>,
    from: int,
    g: int,
)
    requires
        0 <= from <= g <= groups.len(),
        forall|h: int| from <= h < g ==> names_none(#[trigger] groups[h], text),
        g < groups.len() ==> long_given(st, groups[g], argv, index, text, false) is Some,
    ensures
        long_given_in(st, groups, argv, index, text, from) == (if g < groups.len() {
            long_given(st, groups[g], argv, index, text, false)
        } else {
            None
        }),
    decreases g - from,
{
    if from < g {
        law_long_option_not_in_group(st, groups[from], argv, index, text, false);
        lemma_long_given_in(st, groups, argv, index, text, from + 1, g);
    }
}

/// The main group goes first: where help does not end the parse, its first named entry is given.
pub proof fn law_main_group_goes_first(
    context: OptionContext,
    st: ParseState,
    argv: Seq<Seq<char>>,
    index: int,
    i: int,
)
    requires
        0 <= index < argv.len(),
        !helps(context, argv[index].skip(2)),
        context.main_group is Some,
        0 <= i < context.main_group->0.entries@.len(),
        names(context.main_group->0.entries@[i], argv[index].skip(2)),
        forall|j: int|
            0 <= j < i ==> !names(
                #[trigger] context.main_group->0.entries@[j],
                argv[index].skip(2),
            ),
    ensures
        ({
            let text = argv[index].skip(2);
            let main = context.main_group->0;
            let entry = main.entries@[i];
            let result = long_parsed(context, st, argv, index);
            &&& !result.2
            &&& long_given(st, main, argv, index, text, false) == Some((result.0, result.1))
            &&& entry.arg == OptionArg::NoArg && text == entry.long_name->0@ ==> {
                &&& result.1 == 0
                &&& result.0 == (ParseState {
                    values: st.values.update(
                        entry.arg_data as int,
                        ValueView::Bool(entry.flags & 4i32 == 0),
                    ),
                    gone: st.gone.update(index, true),
                    ..st
                })
            }
        }),
{
    let text = argv[index].skip(2);
    lemma_helps(context, text);
    law_long_option_in_group(st, context.main_group->0, argv, index, text, false, i);
}

/// What stands after `--` is the name of group `g`, which no group before it has, a dash, and
/// `rest`; the first dash is that one.
pub open spec fn by_group_name(
    groups: Seq<OptionGroup>,
    text: Seq<char>,
    g: int,
    rest: Seq<char>,
) -> bool {
    &&& 0 <= g < groups.len()
    &&& groups[g].name matches Some(name) && {
        &&& text == name@ + seq!['-'] + rest
        &&& !name@.contains('-')
        &&& forall|h: int|
            0 <= h < g ==> !((#[trigger] groups[h]).name matches Some(other) && other@ == name@)
    }
}

proof fn lemma_dash_index(text: Seq<char>, from: int)
    requires
        0 <= from <= text.len(),
    ensures
        from <= dash_index(text, from) <= text.len(),
        dash_index(text, from) < text.len() ==> text[dash_index(text, from)] == '-',
        forall|i: int| from <= i < dash_index(text, from) ==> #[trigger] text[i] != '-',
    decreases text.len() - from,
{
    if from < text.len() && text[from] != '-' {
        lemma_dash_index(text, from + 1);
    }
}

proof fn lemma_group_index(groups: Seq<OptionGroup>, name: Seq<char>, from: int)
    requires
        0 <= from <= groups.len(),
    ensures
        from <= group_index(groups, name, from) <= groups.len(),
        group_index(groups, name, from) < groups.len() ==> (groups[group_index(
            groups,
            name,
            from,
        )].name matches Some(n) && n@ == name),
        forall|i: int|
            from <= i < group_index(groups, name, from) ==> !((#[trigger] groups[i]).name matches Some(
                n,
            ) && n@ == name),
    decreases groups.len() - from,
{
    if from < groups.len() && crate::text::optional(groups[from].name) != Some(name) {
        lemma_group_index(groups, name, from + 1);
    }
}

/// Where a long option is looked for under its group's name.
proof fn lemma_aliased(groups: Seq<OptionGroup>, text: Seq<char>, g: int, rest: Seq<char>)
    requires
        by_group_name(groups, text, g, rest),
    ensures
        ({
            let dash = dash_index(text, 0);
            &&& dash < text.len()
            &&& group_index(groups, text.take(dash), 0) == g
            &&& text.skip(dash + 1) == rest
        }),
{
    let name = groups[g].name->0@;
    lemma_dash_index(text, 0);
    let dash = dash_index(text, 0);
    let n = name.len() as int;
    assert(text[n] == '-');
    if dash < n {
        assert(name[dash] == text[dash]);
        assert(name.contains('-'));
    }
    assert(dash == n);
    assert(text.take(n) =~= name);
    assert(text.skip(n + 1) =~= rest);
    lemma_group_index(groups, name, 0);
    let k = group_index(groups, name, 0);
    if k < g {
        assert(groups[k].name matches Some(other) && other@ == name);
    } else if k > g {
        assert(groups[g].name matches Some(other) && other@ == name);
    }
}

/// A long option that is found under no name of its own is found under the name of its group, by the
/// group's name, a dash and its long name, unless it refuses that.
pub proof fn law_long_option_under_group_name(
    context: OptionContext,
    st: ParseState,
    argv: Seq<Seq<char>>,
    index: int,
    g: int,
    rest: Seq<char>,
    i: int,
)
    requires
        0 <= index < argv.len(),
        !helps(context, argv[index].skip(2)),
        context.main_group matches Some(main) ==> names_none(main, argv[index].skip(2)),
        forall|h: int|
            0 <= h < context.groups@.len() ==> names_none(
                #[trigger] context.groups@[h],
                argv[index].skip(2),
            ),
        by_group_name(context.groups@, argv[index].skip(2), g, rest),
        0 <= i < context.groups@[g].entries@.len(),
        names(context.groups@[g].entries@[i], rest),
        context.groups@[g].entries@[i].flags & 64i32 == 0,
        forall|j: int|
            0 <= j < i ==> !(names(#[trigger] context.groups@[g].entries@[j], rest)
                && context.groups@[g].entries@[j].flags & 64i32 == 0),
    ensures
        ({
            let group = context.groups@[g];
            let entry = group.entries@[i];
            let result = long_parsed(context, st, argv, index);
            &&& !result.2
            &&& long_given(st, group, argv, index, rest, true) == Some((result.0, result.1))
            &&& entry.arg == OptionArg::NoArg && rest == entry.long_name->0@ ==> {
                &&& result.1 == 0
                &&& result.0 == (ParseState {
                    values: st.values.update(
                        entry.arg_data as int,
                        ValueView::Bool(entry.flags & 4i32 == 0),
                    ),
                    gone: st.gone.update(index, true),
                    ..st
                })
            }
        }),
{
    let text = argv[index].skip(2);
    lemma_helps(context, text);
    if let Some(main) = context.main_group {
        law_long_option_not_in_group(st, main, argv, index, text, false);
    }
    lemma_long_given_in(
        st,
        context.groups@,
        argv,
        index,
        text,
        0,
        context.groups@.len() as int,
    );
    lemma_aliased(context.groups@, text, g, rest);
    law_long_option_in_group(st, context.groups@[g], argv, index, rest, true, i);
}

/// A long option that no group has, neither under its own name nor under its group's, is unknown:
/// where unknown options are ignored nothing changes, else the parse ends with an error that names
/// the argument.
pub proof fn law_long_option_unknown(
    context: OptionContext,
    st: ParseState,
    argv: Seq<Seq<char>>,
    index: int,
)
    requires
        0 <= index < argv.len(),
        !helps(context, argv[index].skip(2)),
        context.main_group matches Some(main) ==> names_none(main, argv[index].skip(2)),
        forall|h: int|
            0 <= h < context.groups@.len() ==> names_none(
                #[trigger] context.groups@[h],
                argv[index].skip(2),
            ),
        forall|g: int, rest: Seq<char>, i: int|
            #![trigger by_group_name(context.groups@, argv[index].skip(2), g, rest), context.groups@[g].entries@[i]]
            by_group_name(context.groups@, argv[index].skip(2), g, rest) && 0 <= i
                < context.groups@[g].entries@.len() ==> !(names(
                context.groups@[g].entries@[i],
                rest,
            ) && context.groups@[g].entries@[i].flags & 64i32 == 0),
    ensures
        ({
            let result = long_parsed(context, st, argv, index);
            &&& result.2
            &&& result.1 == 0
            &&& context.ignore_unknown ==> result.0 == st
            &&& !context.ignore_unknown ==> result.0 == (ParseState {
                failure: Some(
                    FailureView {
                        code: OptionError::UnknownOption,
                        message: "Unknown option "@ + argv[index],
                    },
                ),
                ..st
            })
        }),
{
    let text = argv[index].skip(2);
    let groups = context.groups@;
    lemma_helps(context, text);
    if let Some(main) = context.main_group {
        law_long_option_not_in_group(st, main, argv, index, text, false);
    }
    lemma_long_given_in(st, groups, argv, index, text, 0, groups.len() as int);
    let dash = dash_index(text, 0);
    lemma_dash_index(text, 0);
    if dash < text.len() {
        let name = text.take(dash);
        lemma_group_index(groups, name, 0);
        let g = group_index(groups, name, 0);
        if g < groups.len() {
            let rest = text.skip(dash + 1);
            assert(text =~= name + seq!['-'] + rest);
            assert(!name.contains('-')) by {
                if name.contains('-') {
                    let i = choose|i: int| 0 <= i < name.len() && name[i] == '-';
                    assert(text[i] == '-');
                }
            }
            assert(by_group_name(groups, text, g, rest));
            assert forall|j: int| 0 <= j < groups[g].entries@.len() implies !(names(
                #[trigger] groups[g].entries@[j],
                rest,
            ) && groups[g].entries@[j].flags & 64i32 == 0) by {
            }
            law_long_option_not_in_group(st, groups[g], argv, index, rest, true);
        }
    }
}

/// A long option that asks for help ends the parse where help is enabled, whatever entries there
/// are.
pub proof fn law_help_ends_the_parse(
    context: OptionContext,
    st: ParseState,
    argv: Seq<Seq<char>>,
    index: int,
)
    requires
        0 <= index < argv.len(),
        helps(context, argv[index].skip(2)),
    ensures
        long_parsed(context, st, argv, index).0 == (ParseState {
            failure: Some(
                FailureView { code: OptionError::Failed, message: "help requested"@ },
            ),
            ..st
        }),
{
    lemma_helps(context, argv[index].skip(2));
}

/// What giving an entry does: a switch sets its value to true, or to false where it is reversed; a
/// text, a file name or an integer sets the value to what the argument says; a list gets the
/// argument at its end, and was begun anew with the first; a callback is called with it. Without the
/// argument that it needs, or one that it cannot read, the parse ends with an error. Other values,
/// and the arguments, stay as they are.
pub proof fn law_given(
    st: ParseState,
    entry: OptionEntry,
    value: Option<Seq<char>>,
    option_name: Seq<char>,
    user_data: GPointer,
)
    requires
        fits(entry, st.values),
        st.begun.len() == st.values.len(),
    ensures
        ({
            let after = given(st, entry, value, option_name, user_data);
            let place = entry.arg_data as int;
            let optional = entry.flags & 8i32 != 0 || entry.flags & 32i32 != 0;
            let missing_argument = Some(
                FailureView {
                    code: OptionError::BadValue,
                    message: "Missing argument for "@ + option_name,
                },
            );
            &&& after.kept == st.kept && after.gone == st.gone
            &&& forall|p: int|
                0 <= p < st.values.len() && p != place ==> #[trigger] after.values[p]
                    == st.values[p] && after.begun[p] == st.begun[p]
            &&& after.values.len() == st.values.len()
            &&& match entry.arg {
                OptionArg::NoArg => {
                    &&& after.values[place] == ValueView::Bool(entry.flags & 4i32 == 0)
                    &&& after.failure == st.failure && after.calls == st.calls
                },
                OptionArg::String | OptionArg::Filename => {
                    &&& after.calls == st.calls
                    &&& match value {
                        Some(text) => after.values[place] == ValueView::Text(text) && after.failure
                            == st.failure,
                        None => after.values == st.values && after.failure == missing_argument,
                    }
                },
                OptionArg::StringArray | OptionArg::FilenameArray => {
                    &&& after.calls == st.calls
                    &&& match value {
                        Some(text) => {
                            &&& after.begun[place]
                            &&& after.failure == st.failure
                            &&& after.values[place] matches ValueView::Texts(list) && list.last()
                                == text && list.len() > 0 && if st.begun[place] {
                                st.values[place] == ValueView::Texts(list.drop_last())
                            } else {
                                list.len() == 1
                            }
                        },
                        None => after.values == st.values && after.failure == missing_argument,
                    }
                },
                OptionArg::Int => {
                    &&& after.calls == st.calls
                    &&& match value {
                        Some(text) => forall|result: IntegerText| #[trigger]
                            crate::number::reads_as(text, result) ==> match result {
                                IntegerText::Value(v) => after.values[place] == ValueView::Int(v)
                                    && after.failure == st.failure,
                                IntegerText::Blank => after.values == st.values && after.failure
                                    == Some(
                                    FailureView {
                                        code: OptionError::BadValue,
                                        message: "Cannot parse integer value \""@ + text
                                            + "\" for "@ + option_name,
                                    },
                                ),
                                IntegerText::BadDigits(bad) => after.values == st.values
                                    && after.failure == Some(
                                    FailureView {
                                        code: OptionError::BadValue,
                                        message: "Cannot parse integer value \""@ + bad@ + "\""@,
                                    },
                                ),
                                IntegerText::OutOfRange => after.values == st.values
                                    && after.failure == Some(
                                    FailureView {
                                        code: OptionError::BadValue,
                                        message: "Integer value \""@ + text + "\" for "@
                                            + option_name + " out of range"@,
                                    },
                                ),
                            },
                        None => after.values == st.values && after.failure == missing_argument,
                    }
                },
                OptionArg::Callback => {
                    &&& after.values == st.values
                    &&& value is None && !optional ==> after.calls == st.calls && after.failure
                        == missing_argument
                    &&& value is Some || optional ==> {
                        &&& after.failure == st.failure
                        &&& after.calls.drop_last() == st.calls
                        &&& after.calls.len() == st.calls.len() + 1
                        &&& after.calls.last().callback == entry.arg_data
                        &&& after.calls.last().option_name == option_name
                        &&& after.calls.last().value == value
                        &&& after.calls.last().user_data == user_data
                    }
                },
                OptionArg::Double | OptionArg::Int64 => {
                    &&& after.values == st.values && after.calls == st.calls
                    &&& after.failure == Some(
                        FailureView {
                            code: OptionError::Failed,
                            message: "Unsupported option argument type for "@ + option_name,
                        },
                    )
                },
            }
        }),
{
    let after = given(st, entry, value, option_name, user_data);
    let place = entry.arg_data as int;
    match entry.arg {
        OptionArg::StringArray | OptionArg::FilenameArray => {
            if let Some(text) = value {
                let before = if st.begun[place] {
                    st.values[place]->Texts_0
                } else {
                    Seq::empty()
                };
                assert(before.push(text).drop_last() =~= before);
            }
        },
        OptionArg::Callback => {
            assert(after.calls.drop_last() =~= st.calls || after.calls == st.calls);
        },
        _ => {},
    }
}

/// No entry of a group has the short name.
pub open spec fn shorts_none(group: OptionGroup, ch: char) -> bool {
    forall|j: int|
        0 <= j < group.entries@.len() ==> (#[trigger] group.entries@[j]).short_name != ch
}

/// Entry `i` of a group is the one that has the short name.
pub open spec fn shorts_only(group: OptionGroup, ch: char, i: int) -> bool {
    &&& 0 <= i < group.entries@.len()
    &&& group.entries@[i].short_name == ch
    &&& forall|j: int|
        0 <= j < group.entries@.len() && j != i ==> (#[trigger] group.entries@[j]).short_name != ch
}

proof fn lemma_shorts_none(
    c: ClusterState,
    group: OptionGroup,
    ch: char,
    argv: Seq<Seq<char>>,
    index: int,
    from: int,
)
    requires
        0 <= from,
        forall|j: int|
            from <= j < group.entries@.len() ==> (#[trigger] group.entries@[j]).short_name != ch,
    ensures
        short_given_by(c, group, ch, argv, index, from) == c,
    decreases group.entries@.len() - from,
{
    if from < group.entries@.len() && c.st.failure is None {
        assert(group.entries@[from].short_name != ch);
        lemma_shorts_none(c, group, ch, argv, index, from + 1);
    }
}

proof fn lemma_shorts_only(
    c: ClusterState,
    group: OptionGroup,
    ch: char,
    argv: Seq<Seq<char>>,
    index: int,
    from: int,
    i: int,
)
    requires
        0 <= from <= i,
        shorts_only(group, ch, i),
        c.st.failure is None,
    ensures
        short_given_by(c, group, ch, argv, index, from) == short_given(
            c,
            group.entries@[i],
            group.user_data,
            argv,
            index,
        ),
    decreases i - from,
{
    if from < i {
        lemma_shorts_only(c, group, ch, argv, index, from + 1, i);
    } else {
        lemma_shorts_none(
            short_given(c, group.entries@[i], group.user_data, argv, index),
            group,
            ch,
            argv,
            index,
            i + 1,
        );
    }
}

proof fn lemma_short_given_in(
    c: ClusterState,
    groups: Seq<OptionGroup>,
    ch: char,
    argv: Seq<Seq<char>>,
    index: int,
    from: int,
    g: int,
)
    requires
        0 <= from <= g <= groups.len(),
        c.st.failure is None,
        !c.parsed,
        forall|h: int| from <= h < g ==> shorts_none(#[trigger] groups[h], ch),
        g < groups.len() ==> {
            let after = short_given_by(c, groups[g], ch, argv, index, 0);
            after.parsed || after.st.failure is Some
        },
    ensures
        short_given_in(c, groups, ch, argv, index, from) == (if g < groups.len() {
            short_given_by(c, groups[g], ch, argv, index, 0)
        } else {
            c
        }),
    decreases g - from,
{
    reveal_with_fuel(short_given_in, 2);
    if from < g {
        lemma_shorts_none(c, groups[from], ch, argv, index, 0);
        lemma_short_given_in(c, groups, ch, argv, index, from + 1, g);
    }
}

/// The character asks for help, and help ends the parse.
pub open spec fn helps_short(context: OptionContext, ch: char) -> bool {
    context.help_enabled && (ch == '?' || (ch == 'h' && {
        &&& context.main_group matches Some(main) ==> shorts_none(main, 'h')
        &&& forall|h: int|
            0 <= h < context.groups@.len() ==> shorts_none(#[trigger] context.groups@[h], 'h')
    }))
}

proof fn lemma_helps_short(context: OptionContext, ch: char)
    ensures
        helps_short(context, ch) == (context.help_enabled && (ch == '?' || (ch == 'h'
            && !context_has_short(context, 'h')))),
{
    if !context_has_short(context, 'h') {
        if let Some(main) = context.main_group {
            assert(!has_short(main, 'h'));
            assert(shorts_none(main, 'h'));
        }
        assert forall|h: int| 0 <= h < context.groups@.len() implies shorts_none(
            #[trigger] context.groups@[h],
            'h',
        ) by {
            assert(!has_short(context.groups@[h], 'h'));
        }
    } else if context.main_group is Some && has_short(context.main_group->0, 'h') {
        assert(!shorts_none(context.main_group->0, 'h'));
    } else {
        let i = choose|i: int|
            0 <= i < context.groups@.len() && has_short(#[trigger] context.groups@[i], 'h');
        assert(!shorts_none(context.groups@[i], 'h'));
    }
}

/// How a short option is given: the argument is marked to leave, and the entry is given nothing
/// where it takes no argument, else the next argument, which then leaves too, or nothing where it
/// may be left out. Where the next argument was taken by another option of the cluster, or is
/// missing, the parse ends with an error.
pub proof fn law_short_given(
    c: ClusterState,
    entry: OptionEntry,
    user_data: GPointer,
    argv: Seq<Seq<char>>,
    index: int,
)
    ensures
        ({
            let option_name = seq!['-', entry.short_name];
            let plain = entry.arg == OptionArg::NoArg || (entry.arg == OptionArg::Callback
                && entry.flags & 8i32 != 0);
            let optional = entry.arg == OptionArg::Callback && entry.flags & 32i32 != 0;
            let next = index + 1 < argv.len() && !(optional && argv[index + 1].len() > 0 && argv[
            index + 1][0] == '-');
            let after = short_given(c, entry, user_data, argv, index);
            let alone = given(c.st, entry, None, option_name, user_data);
            let with_next = given(c.st, entry, Some(argv[index + 1]), option_name, user_data);
            &&& after.left == c.left
            &&& plain ==> {
                &&& after.parsed && after.took == c.took
                &&& !c.took ==> after.st == (ParseState {
                    gone: alone.gone.update(index, true),
                    ..alone
                })
                &&& c.took ==> after.st == (ParseState {
                    gone: alone.gone.update(index, true).update(index + 1, true),
                    ..alone
                })
            }
            &&& !plain && c.took ==> after.st == (ParseState {
                failure: Some(
                    FailureView {
                        code: OptionError::Failed,
                        message: "Error parsing option "@ + option_name,
                    },
                ),
                ..c.st
            })
            &&& !plain && !c.took && next ==> {
                &&& after.parsed && after.took
                &&& after.st == (ParseState {
                    gone: with_next.gone.update(index, true).update(index + 1, true),
                    ..with_next
                })
            }
            &&& !plain && !c.took && !next && optional ==> {
                &&& after.parsed && !after.took
                &&& after.st == (ParseState { gone: alone.gone.update(index, true), ..alone })
            }
            &&& !plain && !c.took && !next && !optional ==> after.st == (ParseState {
                failure: Some(
                    FailureView {
                        code: OptionError::BadValue,
                        message: "Missing argument for "@ + option_name,
                    },
                ),
                ..c.st
            })
        }),
{
    reveal_strlit("-");
    assert("-"@ + seq![entry.short_name] =~= seq!['-', entry.short_name]);
}

/// A short option is found in any group, the main group first: the entry that has the short name is
/// given. A switch sets its value, and its argument leaves.
pub proof fn law_short_option_is_found(
    context: OptionContext,
    c: ClusterState,
    argv: Seq<Seq<char>>,
    index: int,
    ch: char,
    g: int,
    i: int,
)
    requires
        c.st.failure is None,
        !helps_short(context, ch),
        -1 <= g < context.groups@.len(),
        g == -1 ==> context.main_group is Some && shorts_only(context.main_group->0, ch, i),
        g >= 0 ==> {
            &&& context.main_group matches Some(main) ==> shorts_none(main, ch)
            &&& forall|h: int| 0 <= h < g ==> shorts_none(#[trigger] context.groups@[h], ch)
            &&& shorts_only(context.groups@[g], ch, i)
        },
    ensures
        ({
            let group = if g == -1 {
                context.main_group->0
            } else {
                context.groups@[g]
            };
            let entry = group.entries@[i];
            let after = char_parsed(context, c, argv, index, ch);
            let fresh = ClusterState { parsed: false, ..c };
            &&& after == short_given(fresh, entry, group.user_data, argv, index)
            &&& after.parsed || after.st.failure is Some
            &&& entry.arg == OptionArg::NoArg ==> {
                &&& after.parsed && after.took == c.took && after.left == c.left
                &&& after.st.values == c.st.values.update(
                    entry.arg_data as int,
                    ValueView::Bool(entry.flags & 4i32 == 0),
                )
                &&& !c.took ==> after.st.gone == c.st.gone.update(index, true)
                &&& after.st.kept == c.st.kept && after.st.calls == c.st.calls
                    && after.st.failure is None
            }
        }),
{
    lemma_helps_short(context, ch);
    let fresh = ClusterState { parsed: false, ..c };
    let group = if g == -1 {
        context.main_group->0
    } else {
        context.groups@[g]
    };
    lemma_shorts_only(fresh, group, ch, argv, index, 0, i);
    if g >= 0 {
        if let Some(main) = context.main_group {
            lemma_shorts_none(fresh, main, ch, argv, index, 0);
        }
        lemma_short_given_in(fresh, context.groups@, ch, argv, index, 0, g);
    }
}

/// A short name that several entries of a group have is given to each of them, in order and each
/// after the other, up to the first that fails. Returned are the states in between and the places of
/// the entries.
pub proof fn law_short_name_of_several(
    c: ClusterState,
    group: OptionGroup,
    ch: char,
    argv: Seq<Seq<char>>,
    index: int,
) -> (out: (Seq<ClusterState>, Seq<int>))
    ensures
        out.0.len() == out.1.len() + 1,
        out.0[0] == c,
        out.0.last() == short_given_by(c, group, ch, argv, index, 0),
        forall|k: int|
            0 <= k < out.1.len() ==> {
                &&& 0 <= #[trigger] out.1[k] < group.entries@.len()
                &&& group.entries@[out.1[k]].short_name == ch
                &&& out.0[k].st.failure is None
                &&& out.0[k + 1] == short_given(
                    out.0[k],
                    group.entries@[out.1[k]],
                    group.user_data,
                    argv,
                    index,
                )
            },
        forall|j: int, k: int|
            0 <= j < k < out.1.len() ==> #[trigger] out.1[j] < #[trigger] out.1[k],
        out.0.last().st.failure is None ==> forall|i: int|
            0 <= i < group.entries@.len() && (#[trigger] group.entries@[i]).short_name == ch
                ==> out.1.contains(i),
{
    lemma_short_name_of_several(c, group, ch, argv, index, 0)
}

proof fn lemma_short_name_of_several(
    c: ClusterState,
    group: OptionGroup,
    ch: char,
    argv: Seq<Seq<char>>,
    index: int,
    from: int,
) -> (out: (Seq<ClusterState>, Seq<int>))
    requires
        0 <= from <= group.entries@.len(),
    ensures
        out.0.len() == out.1.len() + 1,
        out.0[0] == c,
        out.0.last() == short_given_by(c, group, ch, argv, index, from),
        forall|k: int|
            0 <= k < out.1.len() ==> {
                &&& from <= #[trigger] out.1[k] < group.entries@.len()
                &&& group.entries@[out.1[k]].short_name == ch
                &&& out.0[k].st.failure is None
                &&& out.0[k + 1] == short_given(
                    out.0[k],
                    group.entries@[out.1[k]],
                    group.user_data,
                    argv,
                    index,
                )
            },
        forall|j: int, k: int|
            0 <= j < k < out.1.len() ==> #[trigger] out.1[j] < #[trigger] out.1[k],
        out.0.last().st.failure is None ==> forall|i: int|
            from <= i < group.entries@.len() && (#[trigger] group.entries@[i]).short_name == ch
                ==> out.1.contains(i),
    decreases group.entries@.len() - from,
{
    if from == group.entries@.len() || c.st.failure is Some {
        (seq![c], Seq::empty())
    } else if group.entries@[from].short_name == ch {
        let next = short_given(c, group.entries@[from], group.user_data, argv, index);
        let (states, at) = lemma_short_name_of_several(next, group, ch, argv, index, from + 1);
        let all = seq![c] + states;
        let places = seq![from] + at;
        assert(all.last() == states.last());
        assert forall|k: int| 0 <= k < places.len() implies {
            &&& from <= #[trigger] places[k] < group.entries@.len()
            &&& group.entries@[places[k]].short_name == ch
            &&& all[k].st.failure is None
            &&& all[k + 1] == short_given(
                all[k],
                group.entries@[places[k]],
                group.user_data,
                argv,
                index,
            )
        } by {
            if k > 0 {
                assert(places[k] == at[k - 1]);
                assert(all[k] == states[k - 1]);
            }
        }
        if all.last().st.failure is None {
            assert forall|i: int|
                from <= i < group.entries@.len() && (#[trigger] group.entries@[i]).short_name
                    == ch implies places.contains(i) by {
                if i > from {
                    let k = choose|k: int| 0 <= k < at.len() && at[k] == i;
                    assert(places[k + 1] == i);
                } else {
                    assert(places[0] == i);
                }
            }
        }
        (all, places)
    } else {
        lemma_short_name_of_several(c, group, ch, argv, index, from + 1)
    }
}

/// A short option that no group has is unknown: where unknown options are ignored its character is
/// left, else the parse ends with an error that names the argument.
pub proof fn law_short_option_unknown(
    context: OptionContext,
    c: ClusterState,
    argv: Seq<Seq<char>>,
    index: int,
    ch: char,
)
    requires
        c.st.failure is None,
        !helps_short(context, ch),
        context.main_group matches Some(main) ==> shorts_none(main, ch),
        forall|h: int|
            0 <= h < context.groups@.len() ==> shorts_none(#[trigger] context.groups@[h], ch),
    ensures
        ({
            let after = char_parsed(context, c, argv, index, ch);
            &&& !after.parsed && after.took == c.took
            &&& context.ignore_unknown ==> after.st == c.st && after.left == c.left.push(ch)
            &&& !context.ignore_unknown ==> after.st == (ParseState {
                failure: Some(
                    FailureView {
                        code: OptionError::UnknownOption,
                        message: "Unknown option "@ + argv[index],
                    },
                ),
                ..c.st
            })
        }),
{
    lemma_helps_short(context, ch);
    let fresh = ClusterState { parsed: false, ..c };
    if let Some(main) = context.main_group {
        lemma_shorts_none(fresh, main, ch, argv, index, 0);
    }
    lemma_short_given_in(
        fresh,
        context.groups@,
        ch,
        argv,
        index,
        0,
        context.groups@.len() as int,
    );
}

/// A short option that asks for help ends the parse.
pub proof fn law_short_help_ends_the_parse(
    context: OptionContext,
    c: ClusterState,
    argv: Seq<Seq<char>>,
    index: int,
    ch: char,
)
    requires
        helps_short(context, ch),
    ensures
        char_parsed(context, c, argv, index, ch).st == (ParseState {
            failure: Some(FailureView { code: OptionError::Failed, message: "help requested"@ }),
            ..c.st
        }),
{
    lemma_helps_short(context, ch);
}

/// All characters of a cluster, from the second of the argument on, are switches of the main group
/// for some of `n` values: `at` gives the entry of each.
pub open spec fn all_switches(
    context: OptionContext,
    arg: Seq<char>,
    at: spec_fn(char) -> int,
    n: nat,
) -> bool {
    &&& context.main_group is Some
    &&& forall|k: int|
        1 <= k < arg.len() ==> {
            let ch = #[trigger] arg[k];
            let entry = context.main_group->0.entries@[at(ch)];
            &&& !helps_short(context, ch)
            &&& shorts_only(context.main_group->0, ch, at(ch))
            &&& entry.arg == OptionArg::NoArg
            &&& entry.flags & 4i32 == 0
            &&& entry.arg_data < n
        }
}

proof fn lemma_switches(
    context: OptionContext,
    c: ClusterState,
    argv: Seq<Seq<char>>,
    index: int,
    from: int,
    at: spec_fn(char) -> int,
)
    requires
        0 <= index < argv.len(),
        all_switches(context, argv[index], at, c.st.values.len()),
        c.st.gone.len() == argv.len(),
        1 <= from <= argv[index].len(),
        c.st.failure is None,
        !c.took,
        c.left == Seq::<char>::empty(),
    ensures
        ({
            let after = chars_parsed(context, c, argv, index, from);
            let places = |p: int|
                exists|k: int|
                    from <= k < argv[index].len() && context.main_group->0.entries@[at(
                        #[trigger] argv[index][k],
                    )].arg_data == p;
            &&& after.st.failure is None && !after.took && after.left == Seq::<char>::empty()
            &&& after.st.values.len() == c.st.values.len()
            &&& forall|p: int|
                0 <= p < c.st.values.len() ==> #[trigger] after.st.values[p] == (if places(p) {
                    ValueView::Bool(true)
                } else {
                    c.st.values[p]
                })
            &&& from < argv[index].len() ==> after.st.gone == c.st.gone.update(index, true)
            &&& from == argv[index].len() ==> after.st.gone == c.st.gone
            &&& after.st.kept == c.st.kept && after.st.calls == c.st.calls
        }),
    decreases argv[index].len() - from,
{
    let arg = argv[index];
    if from < arg.len() {
        let ch = arg[from];
        let entry = context.main_group->0.entries@[at(ch)];
        law_short_option_is_found(context, c, argv, index, ch, -1, at(ch));
        let next = char_parsed(context, c, argv, index, ch);
        lemma_switches(context, next, argv, index, from + 1, at);
        let after = chars_parsed(context, c, argv, index, from);
        assert(c.st.gone.update(index, true).update(index, true) =~= c.st.gone.update(index, true));
        let rest = |p: int|
            exists|k: int|
                from + 1 <= k < arg.len() && context.main_group->0.entries@[at(
                    #[trigger] arg[k],
                )].arg_data == p;
        let places = |p: int|
            exists|k: int|
                from <= k < arg.len() && context.main_group->0.entries@[at(
                    #[trigger] arg[k],
                )].arg_data == p;
        assert forall|p: int| 0 <= p < c.st.values.len() implies #[trigger] after.st.values[p] == (
        if places(p) {
            ValueView::Bool(true)
        } else {
            c.st.values[p]
        }) by {
            if rest(p) {
                let k = choose|k: int|
                    from + 1 <= k < arg.len() && context.main_group->0.entries@[at(
                        #[trigger] arg[k],
                    )].arg_data == p;
                assert(context.main_group->0.entries@[at(arg[k])].arg_data == p);
                assert(places(p));
            } else if entry.arg_data == p {
                assert(context.main_group->0.entries@[at(arg[from])].arg_data == p);
                assert(places(p));
            } else if places(p) {
                let k = choose|k: int|
                    from <= k < arg.len() && context.main_group->0.entries@[at(
                        #[trigger] arg[k],
                    )].arg_data == p;
                assert(k != from);
                assert(rest(p));
            }
        }
    }
}

/// A cluster of switches, such as `-abc`, sets the value of each of them to true and no other, and
/// leaves the vector.
pub proof fn law_cluster_of_switches(
    context: OptionContext,
    st: ParseState,
    argv: Seq<Seq<char>>,
    index: int,
    at: spec_fn(char) -> int,
)
    requires
        0 <= index < argv.len(),
        argv[index].len() > 1,
        all_switches(context, argv[index], at, st.values.len()),
        st.gone.len() == argv.len(),
        st.failure is None,
    ensures
        ({
            let (after, more) = cluster_parsed(context, st, argv, index);
            let places = |p: int|
                exists|k: int|
                    1 <= k < argv[index].len() && context.main_group->0.entries@[at(
                        #[trigger] argv[index][k],
                    )].arg_data == p;
            &&& more == 0
            &&& after.failure is None
            &&& forall|p: int|
                0 <= p < st.values.len() ==> #[trigger] after.values[p] == (if places(p) {
                    ValueView::Bool(true)
                } else {
                    st.values[p]
                })
            &&& after.gone == st.gone.update(index, true)
            &&& after.kept == st.kept && after.calls == st.calls
        }),
{
    let start = ClusterState { st, took: false, parsed: false, left: Seq::empty() };
    lemma_switches(context, start, argv, index, 1, at);
    assert(st.gone.update(index, true).update(index, true) =~= st.gone.update(index, true));
}

/// A cluster in which no character is known stays as it is where unknown options are ignored, and
/// the values too.
pub proof fn law_cluster_of_unknown_options(
    context: OptionContext,
    st: ParseState,
    argv: Seq<Seq<char>>,
    index: int,
)
    requires
        0 <= index < argv.len(),
        argv[index].len() > 1,
        argv[index][0] == '-',
        context.ignore_unknown,
        st.failure is None,
        st.kept.len() == argv.len(),
        st.gone.len() == argv.len(),
        forall|k: int|
            1 <= k < argv[index].len() ==> {
                let ch = #[trigger] argv[index][k];
                &&& !helps_short(context, ch)
                &&& context.main_group matches Some(main) ==> shorts_none(main, ch)
                &&& forall|h: int|
                    0 <= h < context.groups@.len() ==> shorts_none(#[trigger] context.groups@[h], ch)
            },
    ensures
        ({
            let (after, more) = cluster_parsed(context, st, argv, index);
            &&& more == 0
            &&& after.kept == st.kept.update(index, argv[index])
            &&& after.gone == st.gone.update(index, false)
            &&& after.values == st.values && after.calls == st.calls && after.failure is None
        }),
{
    reveal_strlit("-");
    let start = ClusterState { st, took: false, parsed: false, left: Seq::empty() };
    lemma_unknown_chars(context, start, argv, index, 1);
    assert("-"@ + (Seq::<char>::empty() + argv[index].skip(1)) =~= argv[index]);
}

proof fn lemma_unknown_chars(
    context: OptionContext,
    c: ClusterState,
    argv: Seq<Seq<char>>,
    index: int,
    from: int,
)
    requires
        0 <= index < argv.len(),
        1 <= from <= argv[index].len(),
        context.ignore_unknown,
        c.st.failure is None,
        forall|k: int|
            1 <= k < argv[index].len() ==> {
                let ch = #[trigger] argv[index][k];
                &&& !helps_short(context, ch)
                &&& context.main_group matches Some(main) ==> shorts_none(main, ch)
                &&& forall|h: int|
                    0 <= h < context.groups@.len() ==> shorts_none(#[trigger] context.groups@[h], ch)
            },
    ensures
        ({
            let after = chars_parsed(context, c, argv, index, from);
            &&& after.st == c.st
            &&& after.took == c.took
            &&& after.left == c.left + argv[index].skip(from)
        }),
    decreases argv[index].len() - from,
{
    let arg = argv[index];
    if from < arg.len() {
        let ch = arg[from];
        law_short_option_unknown(context, c, argv, index, ch);
        let next = char_parsed(context, c, argv, index, ch);
        lemma_unknown_chars(context, next, argv, index, from + 1);
        assert(c.left.push(ch) + arg.skip(from + 1) =~= c.left + arg.skip(from));
    } else {
        assert(c.left + arg.skip(from) =~= c.left);
    }
}

/// An argument that is no option goes to the first entry of the main group with an empty long name,
/// which is given it, and leaves; without such an entry it stays.
pub proof fn law_remaining_argument(
    context: OptionContext,
    st: ParseState,
    argv: Seq<Seq<char>>,
    index: int,
    i: int,
)
    requires
        0 <= index < argv.len(),
        context.main_group matches Some(main) ==> {
            &&& 0 <= i <= main.entries@.len()
            &&& i < main.entries@.len() ==> (main.entries@[i].long_name matches Some(name)
                && name@.len() == 0)
            &&& forall|j: int|
                0 <= j < i ==> !((#[trigger] main.entries@[j]).long_name matches Some(name)
                    && name@.len() == 0)
        },
    ensures
        ({
            let result = plain_parsed(context, st, argv, index);
            let collected = context.main_group is Some && i < context.main_group->0.entries@.len();
            &&& result.1 == collected
            &&& !collected ==> result.0 == st
            &&& collected ==> result.0 == given(
                ParseState { gone: st.gone.update(index, true), ..st },
                context.main_group->0.entries@[i],
                Some(argv[index]),
                Seq::empty(),
                context.main_group->0.user_data,
            )
        }),
{
    if let Some(main) = context.main_group {
        lemma_remaining_index(main.entries@, 0);
        let k = remaining_index(main.entries@, 0);
        if k < i {
            assert(main.entries@[k].long() == Some(Seq::<char>::empty()));
        } else if i < k {
            assert(main.entries@[i].long_name->0@ =~= Seq::<char>::empty());
            assert(main.entries@[i].long() == Some(Seq::<char>::empty()));
        }
    }
}

proof fn lemma_remaining_index(entries: Seq<OptionEntry>, from: int)
    requires
        0 <= from <= entries.len(),
    ensures
        from <= remaining_index(entries, from) <= entries.len(),
        remaining_index(entries, from) < entries.len() ==> entries[remaining_index(
            entries,
            from,
        )].long() == Some(Seq::<char>::empty()),
        forall|i: int|
            from <= i < remaining_index(entries, from) ==> (#[trigger] entries[i]).long() != Some(
                Seq::<char>::empty(),
            ),
    decreases entries.len() - from,
{
    if from < entries.len() && entries[from].long() != Some(Seq::<char>::empty()) {
        lemma_remaining_index(entries, from + 1);
    }
}

/// The walk over the arguments, one at a time and each once: an argument that starts with one dash
/// and goes on is a cluster, one that starts with two and goes on is a long option, two dashes alone
/// end the options, and all else, and everything after that, is no option. It goes on behind what an
/// option took, and ends with the vector or with an error.
pub proof fn law_walk(context: OptionContext, w: WalkState, argv: Seq<Seq<char>>, index: int)
    requires
        0 <= index,
    ensures
        index >= argv.len() || w.st.failure is Some ==> walked(context, w, argv, index) == w,
        index < argv.len() && w.st.failure is None ==> {
            let arg = argv[index];
            let option = arg.len() > 1 && arg[0] == '-' && !w.stopped;
            &&& option && arg[1] != '-' ==> {
                let (st, more) = cluster_parsed(context, w.st, argv, index);
                walked(context, w, argv, index) == walked(
                    context,
                    WalkState { st, ..w },
                    argv,
                    index + 1 + more,
                )
            }
            &&& option && arg == seq!['-', '-'] ==> walked(context, w, argv, index) == walked(
                context,
                WalkState { stopped: true, separator: Some(index), ..w },
                argv,
                index + 1,
            )
            &&& option && arg[1] == '-' && arg.len() > 2 ==> {
                let (st, more, unknown) = long_parsed(context, w.st, argv, index);
                walked(context, w, argv, index) == walked(
                    context,
                    WalkState { st, unknown: w.unknown || unknown, ..w },
                    argv,
                    index + 1 + more,
                )
            }
            &&& !option ==> {
                let (st, collected) = plain_parsed(context, w.st, argv, index);
                let keeps = !collected && (w.unknown || (arg.len() > 0 && arg[0] == '-'));
                walked(context, w, argv, index) == walked(
                    context,
                    WalkState {
                        st,
                        separator: if keeps {
                            None
                        } else {
                            w.separator
                        },
                        ..w
                    },
                    argv,
                    index + 1,
                )
            }
        },
{
    reveal_with_fuel(walked, 2);
    if index < argv.len() && argv[index] == seq!['-', '-'] {
        assert(argv[index][0] == '-' && argv[index][1] == '-');
    }
    if index < argv.len() && argv[index].len() == 2 && argv[index][0] == '-' && argv[index][1]
        == '-' {
        assert(argv[index] =~= seq!['-', '-']);
    }
}

/// A parse starts behind the program's name with nothing marked to leave, and takes a separator out
/// at its end unless the walk has found a reason to keep it.
pub proof fn law_parse_is_a_walk(
    context: OptionContext,
    values: Seq<ValueView>,
    argv: Seq<Seq<char>>,
)
    ensures
        ({
            let start = ParseState {
                values,
                begun: Seq::new(values.len(), |i: int| false),
                kept: argv,
                gone: Seq::new(argv.len(), |i: int| false),
                calls: Seq::empty(),
                failure: None,
            };
            let end = walked(
                context,
                WalkState { st: start, stopped: false, unknown: false, separator: None },
                argv,
                1,
            );
            let st = parsed(context, values, argv);
            &&& end.separator is None || end.st.failure is Some ==> st == end.st
            &&& end.separator is Some && end.st.failure is None ==> st == (ParseState {
                gone: end.st.gone.update(end.separator->0, true),
                ..end.st
            })
            &&& argv.len() <= 1 ==> st == start
        }),
{
}

/// A vector of a program's name and one long option that names a switch of an added group, or of the
/// main group: the switch is set, and the program's name is what is left.
pub proof fn law_parse_of_one_switch(
    context: OptionContext,
    values: Seq<ValueView>,
    argv: Seq<Seq<char>>,
    g: int,
    i: int,
)
    requires
        argv.len() == 2,
        argv[1].len() > 2,
        argv[1][0] == '-',
        argv[1][1] == '-',
        !helps(context, argv[1].skip(2)),
        -1 <= g < context.groups@.len(),
        g == -1 ==> {
            &&& context.main_group is Some
            &&& 0 <= i < context.main_group->0.entries@.len()
            &&& context.main_group->0.entries@[i].arg == OptionArg::NoArg
            &&& context.main_group->0.entries@[i].long_name is Some
            &&& context.main_group->0.entries@[i].long_name->0@ == argv[1].skip(2)
            &&& forall|j: int|
                0 <= j < i ==> !names(
                    #[trigger] context.main_group->0.entries@[j],
                    argv[1].skip(2),
                )
        },
        g >= 0 ==> {
            &&& context.main_group matches Some(main) ==> names_none(main, argv[1].skip(2))
            &&& forall|h: int|
                0 <= h < g ==> names_none(#[trigger] context.groups@[h], argv[1].skip(2))
            &&& 0 <= i < context.groups@[g].entries@.len()
            &&& context.groups@[g].entries@[i].arg == OptionArg::NoArg
            &&& context.groups@[g].entries@[i].long_name is Some
            &&& context.groups@[g].entries@[i].long_name->0@ == argv[1].skip(2)
            &&& forall|j: int|
                0 <= j < i ==> !names(
                    #[trigger] context.groups@[g].entries@[j],
                    argv[1].skip(2),
                )
        },
    ensures
        ({
            let entry = if g == -1 {
                context.main_group->0.entries@[i]
            } else {
                context.groups@[g].entries@[i]
            };
            let st = parsed(context, values, argv);
            &&& st.failure is None
            &&& st.calls == Seq::<CallView>::empty()
            &&& st.values == values.update(
                entry.arg_data as int,
                ValueView::Bool(entry.flags & 4i32 == 0),
            )
            &&& compacted(st.kept, st.gone) == seq![argv[0]]
        }),
{
    let start = ParseState {
        values,
        begun: Seq::new(values.len(), |i: int| false),
        kept: argv,
        gone: Seq::new(argv.len(), |i: int| false),
        calls: Seq::empty(),
        failure: None,
    };
    if g == -1 {
        law_main_group_goes_first(context, start, argv, 1, i);
    } else {
        law_long_option_is_found(context, start, argv, 1, g, i);
    }
    lemma_parse_of_one_long(context, values, argv, start);
    let end = parsed(context, values, argv);
    assert(end.gone[0] == start.gone.update(1, true)[0]);
    lemma_compacted_two(end.kept, end.gone);
}

/// A parse of one long option is that of the option.
proof fn lemma_parse_of_one_long(
    context: OptionContext,
    values: Seq<ValueView>,
    argv: Seq<Seq<char>>,
    start: ParseState,
)
    requires
        argv.len() == 2,
        argv[1].len() > 2,
        argv[1][0] == '-',
        argv[1][1] == '-',
        start.values == values,
        start.begun == Seq::new(values.len(), |i: int| false),
        start.kept == argv,
        start.gone == Seq::new(argv.len(), |i: int| false),
        start.calls == Seq::<CallView>::empty(),
        start.failure is None,
    ensures
        parsed(context, values, argv) == long_parsed(context, start, argv, 1).0,
{
    let w = WalkState { st: start, stopped: false, unknown: false, separator: None };
    let (st, more, unknown) = long_parsed(context, start, argv, 1);
    law_walk(context, w, argv, 1);
    law_walk(context, WalkState { st, unknown: w.unknown || unknown, ..w }, argv, 2 + more as int);
}

/// What is left of two arguments of which the second leaves.
proof fn lemma_compacted_two(kept: Seq<Seq<char>>, gone: Seq<bool>)
    requires
        kept.len() == 2,
        gone.len() == 2,
        !gone[0],
        gone[1],
    ensures
        compacted(kept, gone) == seq![kept[0]],
{
    let one = kept.drop_last();
    let none = one.drop_last();
    assert(none.len() == 0);
    assert(compacted(none, gone.drop_last().drop_last()) == Seq::<Seq<char>>::empty());
    assert(compacted(one, gone.drop_last()) == Seq::<Seq<char>>::empty().push(kept[0]));
    assert(compacted(kept, gone) == compacted(one, gone.drop_last()));
    assert(Seq::<Seq<char>>::empty().push(kept[0]) =~= seq![kept[0]]);
}

/// What is left of a vector, by positions: the arguments that are not marked to leave, in order.
pub proof fn law_compacted(kept: Seq<Seq<char>>, gone: Seq<bool>) -> (at: Seq<int>)
    requires
        kept.len() == gone.len(),
    ensures
        compacted(kept, gone).len() == at.len(),
        forall|j: int|
            0 <= j < at.len() ==> {
                &&& 0 <= #[trigger] at[j] < kept.len()
                &&& !gone[at[j]]
                &&& compacted(kept, gone)[j] == kept[at[j]]
            },
        forall|j: int, k: int| 0 <= j < k < at.len() ==> #[trigger] at[j] < #[trigger] at[k],
        forall|i: int| 0 <= i < kept.len() && !#[trigger] gone[i] ==> at.contains(i),
    decreases kept.len(),
{
    if kept.len() == 0 {
        Seq::empty()
    } else {
        let n = kept.len() - 1;
        let before = law_compacted(kept.drop_last(), gone.drop_last());
        let at = if gone[n] {
            before
        } else {
            before.push(n)
        };
        assert forall|i: int| 0 <= i < kept.len() && !#[trigger] gone[i] implies at.contains(i) by {
            if i < n {
                assert(!gone.drop_last()[i]);
                let j = choose|j: int| 0 <= j < before.len() && before[j] == i;
                assert(at[j] == i);
            } else {
                assert(at[before.len() as int] == i);
            }
        }
        at
    }
}

/// What is left of an entry when it is added: all but a short name that is a dash or no visible
/// ASCII character, the flag of reversal where the entry is no switch, and the two flags about
/// arguments where it is no callback.
pub proof fn law_validated(entry: OptionEntry)
    ensures
        ({
            let v = validated(entry);
            let c = entry.short_name;
            &&& v.long_name == entry.long_name && v.arg == entry.arg && v.arg_data
                == entry.arg_data && v.description == entry.description && v.arg_description
                == entry.arg_description
            &&& 33 <= c as int <= 126 && c != '-' ==> v.short_name == c
            &&& !(33 <= c as int <= 126) || c == '-' ==> v.short_name == '\0'
            &&& v.flags & !44i32 == entry.flags & !44i32
            &&& v.flags & 4i32 == (if entry.arg == OptionArg::NoArg {
                entry.flags & 4i32
            } else {
                0
            })
            &&& v.flags & 40i32 == (if entry.arg == OptionArg::Callback {
                entry.flags & 40i32
            } else {
                0
            })
        }),
{
    let f = entry.flags;
    assert({
        &&& 8i32 | 32i32 == 40i32
        &&& (f & !4i32) & !44i32 == f & !44i32
        &&& (f & !40i32) & !44i32 == f & !44i32
        &&& ((f & !4i32) & !40i32) & !44i32 == f & !44i32
        &&& (f & !4i32) & 4i32 == 0
        &&& (f & !40i32) & 4i32 == f & 4i32
        &&& ((f & !4i32) & !40i32) & 4i32 == 0
        &&& (f & !4i32) & 40i32 == f & 40i32
        &&& (f & !40i32) & 40i32 == 0
        &&& ((f & !4i32) & !40i32) & 40i32 == 0
    }) by (bit_vector);
}

/// The entries that are added: all before the first without a long name, each validated, in order.
pub proof fn law_listed(entries: Seq<OptionEntry>)
    ensures
        listed(entries).len() <= entries.len(),
        forall|i: int|
            0 <= i < listed(entries).len() ==> {
                &&& (#[trigger] entries[i]).long_name is Some
                &&& listed(entries)[i] == validated(entries[i])
            },
        listed(entries).len() < entries.len() ==> entries[listed(
            entries,
        ).len() as int].long_name is None,
    decreases entries.len(),
{
    if entries.len() > 0 && entries[0].long_name is Some {
        let rest = entries.skip(1);
        law_listed(rest);
        assert forall|i: int| 0 <= i < listed(entries).len() implies {
            &&& (#[trigger] entries[i]).long_name is Some
            &&& listed(entries)[i] == validated(entries[i])
        } by {
            if i > 0 {
                assert(rest[i - 1] == entries[i]);
            }
        }
        if listed(rest).len() < rest.len() {
            assert(rest[listed(rest).len() as int] == entries[listed(entries).len() as int]);
        }
    }
}

/// The warnings about entries are those about each of them that is added, in order.
pub proof fn law_warnings_about_all(
    entries: Seq<OptionEntry>,
    more: Seq<OptionEntry>,
    shown_group: Seq<char>,
)
    requires
        forall|i: int| 0 <= i < entries.len() ==> (#[trigger] entries[i]).long_name is Some,
    ensures
        warnings_of_all(entries + more, shown_group) == warnings_of_all(entries, shown_group)
            + warnings_of_all(more, shown_group),
        entries.len() == 1 ==> warnings_of_all(entries, shown_group) == warnings_of(
            entries[0],
            shown_group,
        ),
        more.len() > 0 && more[0].long_name is None ==> warnings_of_all(more, shown_group).len()
            == 0,
    decreases entries.len(),
{
    reveal_with_fuel(warnings_of_all, 2);
    if entries.len() == 0 {
        assert(entries + more =~= more);
        assert(Seq::<Seq<char>>::empty() + warnings_of_all(more, shown_group) =~= warnings_of_all(
            more,
            shown_group,
        ));
    } else {
        let rest = entries.skip(1);
        assert forall|i: int| 0 <= i < rest.len() implies (
        #[trigger] rest[i]).long_name is Some by {
            assert(rest[i] == entries[i + 1]);
        }
        law_warnings_about_all(rest, more, shown_group);
        assert((entries + more).skip(1) =~= rest + more);
        assert((entries + more)[0] == entries[0]);
        let one = warnings_of(entries[0], shown_group);
        assert(one + (warnings_of_all(rest, shown_group) + warnings_of_all(more, shown_group))
            =~= one + warnings_of_all(rest, shown_group) + warnings_of_all(more, shown_group));
        if entries.len() == 1 {
            assert(rest =~= Seq::<OptionEntry>::empty());
            assert(one + Seq::<Seq<char>>::empty() =~= one);
        }
    }
}

/// How a parse ends: an error of a callback wins over the parser's own, and is handed on as it is
/// where it is of the parser's domain, else as a failure that names the option; a parse without any
/// ends well.
pub proof fn law_parse_error(st: ParseState, answers: Seq<Result<(), Error>>, domain: Quark)
    ensures
        answers.len() > 0 && answers.last() is Err ==> {
            let error = answers.last()->Err_0@;
            let name = st.calls[answers.len() - 1].option_name;
            parse_error(st, answers, domain) == Some(
                if error.domain == domain {
                    error
                } else {
                    ErrorView { domain, code: 2, message: "Error parsing option "@ + name }
                },
            )
        },
        answers.len() == 0 || answers.last() is Ok ==> match st.failure {
            None => parse_error(st, answers, domain) is None,
            Some(failure) => parse_error(st, answers, domain) matches Some(error) && error.domain
                == domain && error.message == failure.message && error.code == (
            match failure.code {
                OptionError::UnknownOption => 0i32,
                OptionError::BadValue => 1i32,
                OptionError::Failed => 2i32,
            }),
        },
{
}

/// The calls of callbacks that a parse makes: the planned ones, in order, up to the first that
/// fails, and no further.
pub proof fn law_callbacks_are_called<F: Fn(&OptionCall) -> Result<(), Error>>(
    callback: F,
    planned: Seq<CallView>,
    made: Seq<OptionCall>,
    answers: Seq<Result<(), Error>>,
)
    requires
        answered(callback, planned, made, answers),
    ensures
        made.len() == answers.len() <= planned.len(),
        forall|i: int|
            0 <= i < made.len() ==> {
                &&& callback.ensures((&#[trigger] made[i],), answers[i])
                &&& made[i].callback == planned[i].callback
                &&& made[i].option_name@ == planned[i].option_name
                &&& made[i].user_data == planned[i].user_data
                &&& (made[i].value is Some) == (planned[i].value is Some)
                &&& made[i].value matches Some(text) ==> planned[i].value == Some(text@)
            },
        forall|i: int| 0 <= i < answers.len() - 1 ==> #[trigger] answers[i] is Ok,
        answers.len() < planned.len() ==> answers.len() > 0 && answers.last() is Err,
{
    assert forall|i: int| 0 <= i < answers.len() - 1 implies #[trigger] answers[i] is Ok by {
        assert(made[i]@ == planned[i]);
    }
}

/// The name of an argument type in a warning, spelled out.
pub proof fn law_arg_names()
    ensures
        arg_name(OptionArg::NoArg) == seq!['N', 'o', 'n', 'e'],
        arg_name(OptionArg::String) == seq!['S', 't', 'r', 'i', 'n', 'g'],
        arg_name(OptionArg::Int) == seq!['I', 'n', 't'],
        arg_name(OptionArg::Callback) == seq!['C', 'a', 'l', 'l', 'b', 'a', 'c', 'k'],
        arg_name(OptionArg::Filename) == seq!['F', 'i', 'l', 'e', 'n', 'a', 'm', 'e'],
        arg_name(OptionArg::StringArray) == arg_name(OptionArg::String) + seq![
            'A',
            'r',
            'r',
            'a',
            'y',
        ],
        arg_name(OptionArg::FilenameArray) == arg_name(OptionArg::Filename) + seq![
            'A',
            'r',
            'r',
            'a',
            'y',
        ],
        arg_name(OptionArg::Double) == seq!['D', 'o', 'u', 'b', 'l', 'e'],
        arg_name(OptionArg::Int64) == arg_name(OptionArg::Int) + seq!['6', '4'],
{
    reveal_strlit("None");
    reveal_strlit("String");
    reveal_strlit("Int");
    reveal_strlit("Callback");
    reveal_strlit("Filename");
    reveal_strlit("StringArray");
    reveal_strlit("FilenameArray");
    reveal_strlit("Double");
    reveal_strlit("Int64");
    assert("StringArray"@ =~= "String"@ + seq!['A', 'r', 'r', 'a', 'y']);
    assert("FilenameArray"@ =~= "Filename"@ + seq!['A', 'r', 'r', 'a', 'y']);
    assert("Int64"@ =~= "Int"@ + seq!['6', '4']);
    assert("None"@ =~= seq!['N', 'o', 'n', 'e']);
    assert("String"@ =~= seq!['S', 't', 'r', 'i', 'n', 'g']);
    assert("Int"@ =~= seq!['I', 'n', 't']);
    assert("Callback"@ =~= seq!['C', 'a', 'l', 'l', 'b', 'a', 'c', 'k']);
    assert("Filename"@ =~= seq!['F', 'i', 'l', 'e', 'n', 'a', 'm', 'e']);
    assert("Double"@ =~= seq!['D', 'o', 'u', 'b', 'l', 'e']);
}

/// The group that has no name is called main in warnings; another is called by its name.
pub proof fn law_group_title(name: Option<Seq<char>>)
    ensures
        name is None ==> group_title(name) == seq!['m', 'a', 'i', 'n'],
        name matches Some(given) ==> group_title(name) == given,
{
    reveal_strlit("main");
    assert("main"@ =~= seq!['m', 'a', 'i', 'n']);
}

/// The warnings about an entry: one for each thing that is wrong with it, a short name first, then
/// the reverse flag, then the flags on arguments; and all name the place, by group and long name.
pub proof fn law_warnings_about_one(entry: OptionEntry, title: Seq<char>)
    ensures
        ({
            let c = entry.short_name;
            let short = c == '-' || (c != '\0' && (c < '!' || c > '~'));
            let reverse = entry.arg != OptionArg::NoArg && entry.flags & 4i32 != 0;
            let argument = entry.arg != OptionArg::Callback && entry.flags & 40i32 != 0;
            let all = warnings_of(entry, title);
            let name = match entry.long_name {
                Some(name) => name@,
                None => Seq::empty(),
            };
            let place = " in entry "@ + title + ":"@ + name;
            let n = (if short {
                1int
            } else {
                0
            });
            let m = (if reverse {
                n + 1
            } else {
                n
            });
            &&& all.len() == (if argument {
                m + 1
            } else {
                m
            })
            &&& short ==> all[0] == ("warning: ignoring invalid short option '"@.push(c)) + "'"@
                + place
            &&& reverse ==> all[n] == "warning: ignoring reverse flag on option of arg-type "@
                + arg_name(entry.arg) + place
            &&& argument ==> all[m]
                == "warning: ignoring no-arg or optional-arg flags on option of arg-type "@
                + arg_name(entry.arg) + place
        }),
{
    assert(8i32 | 32i32 == 40i32) by (bit_vector);
}

/// The codes of option errors.
pub proof fn law_error_codes()
    ensures
        OptionError::UnknownOption.number() == 0i32,
        OptionError::BadValue.number() == 1i32,
        OptionError::Failed.number() == 2i32,
{
}

} // verus!
