//! Utilities for constructing commands and command lists, and for rendering
//! them to their wire form.

use crate::buffer::append;
use crate::buffer::buffered;
use crate::text::alphabetic;
use crate::text::char_width;
use crate::text::decimal_text;
use crate::text::digits_of;
use crate::text::quote_char;
use crate::text::quoted;
use crate::text::is_alphabetic;
use crate::text::is_whitespace;
use crate::text::lemma_encode_prefix;
use crate::text::push_char;
use crate::text::same_text;
use crate::text::utf8_len;
use crate::text::whitespace;
use bytes::BytesMut;
use vstd::prelude::*;
use vstd::string::StringExecFns;
use vstd::utf8::encode_utf8;

verus! {

/// Ways in which a command may be invalid.
#[derive(Clone, Copy, Debug, PartialEq, Eq)]
pub enum InvalidCommandReason {
    /// The command was empty.
    Empty,
    /// The command contained a character that no command may hold, at the
    /// given byte position.
    InvalidCharacter(usize, char),
    /// The command contained leading or trailing whitespace (whitespace in
    /// the middle of commands is used to separate arguments).
    UnnecessaryWhitespace,
    /// Attempted to start a nested command list, which is not supported.
    NestedCommandList,
}

/// The command was invalid.
#[derive(Clone, Copy, Debug, PartialEq, Eq)]
pub struct CommandError {
    /// Reason the command was invalid.
    pub reason: InvalidCommandReason,
    /// If given a possible command list, at which index in the list the
    /// error is.
    pub list_at: Option<usize>,
}

impl InvalidCommandReason {
    /// What the reason says in words.
    pub open spec fn text(self) -> Seq<char> {
        match self {
            InvalidCommandReason::Empty => "Command was empty"@,
            InvalidCommandReason::InvalidCharacter(index, c) =>
                "Command contained an invalid character: "@ + quoted(c) + " at position "@
                    + digits_of(index as nat),
            InvalidCommandReason::UnnecessaryWhitespace =>
                "Command contained leading or trailing whitespace"@,
            InvalidCommandReason::NestedCommandList =>
                "Command attempted to open a command list while already in one"@,
        }
    }
}

impl CommandError {
    /// What the error says in words.
    pub open spec fn text(self) -> Seq<char> {
        match self.list_at {
            Some(index) => self.reason.text() + " (at command list index "@ + digits_of(
                index as nat,
            ) + ")"@,
            None => self.reason.text(),
        }
    }

    /// Describes the error in words: the reason, and the position in the
    /// command list where there is one.
    pub fn message(&self) -> (res: String)
        ensures
            res@ == self.text(),
    {
        let mut out = String::new();
        match self.reason {
            InvalidCommandReason::Empty => {
                out.append("Command was empty");
            },
            InvalidCommandReason::InvalidCharacter(index, c) => {
                out.append("Command contained an invalid character: ");
                out.append(quote_char(c).as_str());
                out.append(" at position ");
                out.append(decimal_text(index).as_str());
            },
            InvalidCommandReason::UnnecessaryWhitespace => {
                out.append("Command contained leading or trailing whitespace");
            },
            InvalidCommandReason::NestedCommandList => {
                out.append("Command attempted to open a command list while already in one");
            },
        }
        assert(out@ =~= self.reason.text());
        if let Some(index) = self.list_at {
            out.append(" (at command list index ");
            out.append(decimal_text(index).as_str());
            out.append(")");
        }
        out
    }
}

/// The kinds of characters that commands and their wire form are made of.
#[derive(Clone, Copy, Debug)]
pub enum CharClass {
    /// Any character but a newline.
    Line,
    /// A character of a command's name: alphabetic, or an underscore.
    Name,
    /// A character that may stand anywhere in a command: one of a name, or
    /// whitespace. A newline is neither.
    Text,
}

impl CharClass {
    /// Whether `c` belongs to the class.
    pub open spec fn holds(self, c: char) -> bool {
        match self {
            CharClass::Line => c != '\n',
            CharClass::Name => alphabetic(c) || c == '_',
            CharClass::Text => c != '\n' && (alphabetic(c) || c == '_' || whitespace(c)),
        }
    }

    /// Tests whether `c` belongs to the class.
    pub fn test(self, c: char) -> (res: bool)
        ensures
            res == self.holds(c),
    {
        match self {
            CharClass::Line => c != '\n',
            CharClass::Name => is_valid_command_char(c),
            CharClass::Text => c != '\n' && (is_valid_command_char(c) || is_whitespace(c)),
        }
    }
}

/// Commands can consist of alphabetic chars and underscores.
pub fn is_valid_command_char(c: char) -> (res: bool)
    ensures
        res == CharClass::Name.holds(c),
{
    is_alphabetic(c) || c == '_'
}

/// Where the run of `class` characters that starts at `from` ends.
pub open spec fn run_end(text: Seq<char>, from: int, class: CharClass) -> int
    decreases text.len() - from,
{
    if 0 <= from < text.len() && class.holds(text[from]) {
        run_end(text, from + 1, class)
    } else {
        from
    }
}

/// `run_end` is the one position that a run reaches and does not pass.
pub proof fn lemma_run_end_unique(text: Seq<char>, from: int, class: CharClass, end: int)
    requires
        0 <= from <= end <= text.len(),
        forall|i: int| from <= i < end ==> class.holds(#[trigger] text[i]),
        end < text.len() ==> !class.holds(text[end]),
    ensures
        run_end(text, from, class) == end,
    decreases end - from,
{
    if from < end {
        lemma_run_end_unique(text, from + 1, class, end);
    }
}

/// Every character of a run is in the class, and the one that ends it is
/// not.
pub proof fn lemma_run_end_bounds(text: Seq<char>, from: int, class: CharClass)
    requires
        0 <= from <= text.len(),
    ensures
        from <= run_end(text, from, class) <= text.len(),
        forall|i: int| from <= i < run_end(text, from, class) ==> class.holds(#[trigger] text[i]),
        run_end(text, from, class) < text.len() ==> !class.holds(
            text[run_end(text, from, class)],
        ),
    decreases text.len() - from,
{
    if from < text.len() && class.holds(text[from]) {
        lemma_run_end_bounds(text, from + 1, class);
    }
}

/// Why `text` is no command, or `None` when it is one.
pub open spec fn validation(text: Seq<char>) -> Option<InvalidCommandReason> {
    let rejected = run_end(text, 0, CharClass::Text);
    if text.len() == 0 {
        Some(InvalidCommandReason::Empty)
    } else if whitespace(text[0]) || whitespace(text.last()) {
        Some(InvalidCommandReason::UnnecessaryWhitespace)
    } else if rejected < text.len() {
        Some(
            InvalidCommandReason::InvalidCharacter(
                utf8_len(text.take(rejected)) as usize,
                text[rejected],
            ),
        )
    } else {
        None
    }
}

/// The length of a command's name: its leading run of name characters.
pub open spec fn name_len(text: Seq<char>) -> int {
    run_end(text, 0, CharClass::Name)
}

/// An ASCII capital letter as its small letter; any other character as it
/// is.
pub open spec fn lowered(c: char) -> char {
    if 0x41 <= c as u32 <= 0x5a {
        ((c as u32) + 0x20) as char
    } else {
        c
    }
}

/// The canonical form of a command: its name in small letters, the rest as
/// it was given.
pub open spec fn canonical(text: Seq<char>) -> Seq<char> {
    Seq::new(
        text.len(),
        |i: int|
            if i < name_len(text) {
                lowered(text[i])
            } else {
                text[i]
            },
    )
}

/// A text that can stand on one line of the wire: not empty, and without a
/// newline.
pub open spec fn is_line(text: Seq<char>) -> bool {
    text.len() > 0 && forall|i: int| 0 <= i < text.len() ==> text[i] != '\n'
}

/// Validate that a single command string is well-formed.
pub fn validate_single_command(command: &str) -> (res: Result<&str, CommandError>)
    ensures
        match validation(command@) {
            None => res matches Ok(same) && same@ == command@,
            Some(reason) => res == Err::<&str, CommandError>(
                CommandError { reason, list_at: None },
            ),
        },
{
    let ghost text = command@;
    let total: usize = command.as_bytes().len();
    let mut offset: usize = 0;
    let mut empty: bool = true;
    let mut first_blank: bool = false;
    let mut last_blank: bool = false;
    let mut rejected: Option<(usize, char)> = None;
    let ghost mut rejected_at: int = 0;
    proof {
        lemma_encode_prefix(text, 0);
        assert(text.take(0) =~= Seq::<char>::empty());
    }
    for c in it: command.chars()
        invariant
            it.seq() == text,
            text == command@,
            total == utf8_len(text),
            empty <==> it.index() == 0,
            offset == utf8_len(text.take(it.index() as int)),
            it.index() > 0 ==> first_blank == whitespace(text[0]),
            it.index() > 0 ==> last_blank == whitespace(text[it.index() - 1]),
            rejected is None ==> forall|j: int|
                0 <= j < it.index() ==> CharClass::Text.holds(#[trigger] text[j]),
            rejected matches Some(found) ==> {
                &&& 0 <= rejected_at < it.index()
                &&& forall|j: int| 0 <= j < rejected_at ==> CharClass::Text.holds(#[trigger] text[j])
                &&& !CharClass::Text.holds(text[rejected_at])
                &&& found.0 == utf8_len(text.take(rejected_at))
                &&& found.1 == text[rejected_at]
            },
    {
        proof {
            lemma_encode_prefix(text, it.index() as int);
            lemma_encode_prefix(text, it.index() + 1);
        }
        let blank: bool = is_whitespace(c);
        if empty {
            first_blank = blank;
            empty = false;
        }
        last_blank = blank;
        if rejected.is_none() && !CharClass::Text.test(c) {
            rejected = Some((offset, c));
            proof {
                rejected_at = it.index() as int;
            }
        }
        offset = offset + char_width(c);
    }
    if empty {
        return Err(CommandError { reason: InvalidCommandReason::Empty, list_at: None });
    }
    if first_blank || last_blank {
        return Err(
            CommandError { reason: InvalidCommandReason::UnnecessaryWhitespace, list_at: None },
        );
    }
    match rejected {
        Some(found) => {
            proof {
                lemma_run_end_unique(text, 0, CharClass::Text, rejected_at);
            }
            Err(
                CommandError {
                    reason: InvalidCommandReason::InvalidCharacter(found.0, found.1),
                    list_at: None,
                },
            )
        },
        None => {
            proof {
                lemma_run_end_unique(text, 0, CharClass::Text, text.len() as int);
            }
            Ok(command)
        },
    }
}

/// An ASCII capital letter as its small letter; any other character as it
/// is.
pub fn to_lower(c: char) -> (res: char)
    ensures
        res == lowered(c),
{
    let v: u32 = c as u32;
    if 0x41 <= v && v <= 0x5a {
        ((v + 0x20) as u8) as char
    } else {
        c
    }
}

/// Canonicalize (lowercase) the leading command section of the command
/// string.
pub fn canonicalize_command(command: &str) -> (res: String)
    ensures
        res@ == canonical(command@),
{
    let ghost text = command@;
    let ghost name = name_len(text);
    let mut out = String::new();
    let mut in_name: bool = true;
    proof {
        lemma_run_end_bounds(text, 0, CharClass::Name);
    }
    for c in it: command.chars()
        invariant
            it.seq() == text,
            name == name_len(text),
            0 <= name <= text.len(),
            forall|j: int| 0 <= j < name ==> CharClass::Name.holds(#[trigger] text[j]),
            name < text.len() ==> !CharClass::Name.holds(text[name]),
            in_name ==> it.index() <= name,
            !in_name ==> name < it.index(),
            out@ == canonical(text).take(it.index() as int),
    {
        if in_name && is_valid_command_char(c) {
            push_char(&mut out, to_lower(c));
        } else {
            in_name = false;
            push_char(&mut out, c);
        }
        assert(out@ =~= canonical(text).take(it.index() + 1));
    }
    assert(canonical(text).take(text.len() as int) =~= canonical(text));
    out
}

/// The name of a command: its leading run of name characters.
pub open spec fn name_of(text: Seq<char>) -> Seq<char> {
    text.take(name_len(text))
}

/// Whether a command opens a command list.
pub open spec fn opens_list(text: Seq<char>) -> bool {
    name_of(text) == "command_list_begin"@ || name_of(text) == "command_list_ok_begin"@
}

/// The position of the first command at or after `from` that opens a
/// command list, or the number of commands when none does.
pub open spec fn first_opener(list: Seq<Seq<char>>, from: int) -> int
    decreases list.len() - from,
{
    if 0 <= from < list.len() && !opens_list(list[from]) {
        first_opener(list, from + 1)
    } else {
        from
    }
}

/// A command list is flat when it is a single command, or when none of its
/// commands opens a command list.
pub open spec fn flat(list: Seq<Seq<char>>) -> bool {
    list.len() == 1 || first_opener(list, 0) >= list.len()
}

/// Whether the text at `at` can stand in a command list made of `texts`: it
/// is a valid command, and, where the list holds several, it does not open
/// a command list.
pub open spec fn accepted_at(texts: Seq<Seq<char>>, at: int) -> bool {
    validation(texts[at]) is None && !(texts.len() > 1 && opens_list(canonical(texts[at])))
}

/// Why the text at `at` cannot stand in a command list made of `texts`.
pub open spec fn refusal_at(texts: Seq<Seq<char>>, at: int) -> CommandError {
    CommandError {
        reason: match validation(texts[at]) {
            Some(reason) => reason,
            None => InvalidCommandReason::NestedCommandList,
        },
        list_at: Some(at as usize),
    }
}

/// The lines of a sequence of commands: each followed by a newline.
pub open spec fn lines(list: Seq<Seq<char>>) -> Seq<char>
    decreases list.len(),
{
    if list.len() == 0 {
        Seq::empty()
    } else {
        lines(list.drop_last()) + list.last().push('\n')
    }
}

/// What is sent for a command list: a single command as it is, several
/// between the markers that open and close a list.
pub open spec fn framed(list: Seq<Seq<char>>) -> Seq<Seq<char>> {
    if list.len() == 1 {
        list
    } else {
        seq!["command_list_ok_begin"@] + list + seq!["command_list_end"@]
    }
}

/// The wire form of a command list.
pub open spec fn wire_text(list: Seq<Seq<char>>) -> Seq<char> {
    lines(framed(list))
}

/// A command which can be sent to the server.
#[derive(Debug, PartialEq, Eq, Hash)]
pub struct Command {
    text: String,
}

impl View for Command {
    type V = Seq<char>;

    closed spec fn view(&self) -> Seq<char> {
        self.text@
    }
}

impl Clone for Command {
    fn clone(&self) -> (res: Command)
        ensures
            res@ == self@,
    {
        proof {
            use_type_invariant(self);
        }
        Command { text: self.text.clone() }
    }
}

impl Command {
    #[verifier::type_invariant]
    spec fn well_formed(self) -> bool {
        is_line(self.text@)
    }

    /// Create a new command from a text that is known to be valid.
    pub fn new(text: &str) -> (command: Command)
        requires
            validation(text@) is None,
        ensures
            command@ == canonical(text@),
            is_line(command@),
    {
        let canonical_text = canonicalize_command(text);
        proof {
            lemma_canonical_is_line(text@);
        }
        Command { text: canonical_text }
    }

    /// Validate a text and create the command it writes, with its name in
    /// small letters.
    pub fn build(text: &str) -> (res: Result<Command, CommandError>)
        ensures
            match validation(text@) {
                None => res matches Ok(command) && command@ == canonical(text@) && is_line(
                    command@,
                ),
                Some(reason) => res == Err::<Command, CommandError>(
                    CommandError { reason, list_at: None },
                ),
            },
    {
        match validate_single_command(text) {
            Ok(valid) => Ok(Command::new(valid)),
            Err(e) => Err(e),
        }
    }

    /// The text of the command, without the newline that ends it on the
    /// wire.
    pub fn text(&self) -> (text: &str)
        ensures
            text@ == self@,
            is_line(self@),
    {
        proof {
            use_type_invariant(self);
        }
        self.text.as_str()
    }

    /// Whether the command opens a command list.
    pub fn opens_list(&self) -> (res: bool)
        ensures
            res == opens_list(self@),
    {
        let ghost text = self.text@;
        let mut name = String::new();
        let mut in_name: bool = true;
        proof {
            lemma_run_end_bounds(text, 0, CharClass::Name);
        }
        for c in it: self.text.as_str().chars()
            invariant
                it.seq() == text,
                0 <= name_len(text) <= text.len(),
                forall|j: int| 0 <= j < name_len(text) ==> CharClass::Name.holds(#[trigger] text[j]),
                name_len(text) < text.len() ==> !CharClass::Name.holds(text[name_len(text)]),
                in_name ==> it.index() <= name_len(text),
                !in_name ==> name_len(text) < it.index(),
                in_name ==> name@ == text.take(it.index() as int),
                !in_name ==> name@ == name_of(text),
        {
            if in_name {
                if is_valid_command_char(c) {
                    push_char(&mut name, c);
                    assert(name@ =~= text.take(it.index() + 1));
                } else {
                    in_name = false;
                }
            }
        }
        same_text(name.as_str(), "command_list_begin") || same_text(
            name.as_str(),
            "command_list_ok_begin",
        )
    }

    /// Render the command to the wire representation.
    pub fn render(self) -> (wire: String)
        ensures
            wire@ == self@.push('\n'),
            wire@ == wire_text(seq![self@]),
    {
        let mut out = self.text;
        push_char(&mut out, '\n');
        proof {
            lemma_lines_single(self@);
        }
        out
    }
}

/// The canonical form of a valid command can stand on one line.
pub proof fn lemma_canonical_is_line(text: Seq<char>)
    requires
        validation(text) is None,
    ensures
        is_line(canonical(text)),
{
    lemma_run_end_bounds(text, 0, CharClass::Text);
    assert forall|i: int| 0 <= i < text.len() implies canonical(text)[i] != '\n' by {
        assert(CharClass::Text.holds(text[i]));
    }
}

/// The lines of one command are the command and a newline.
pub proof fn lemma_lines_single(text: Seq<char>)
    ensures
        lines(seq![text]) == text.push('\n'),
{
    assert(seq![text].drop_last() =~= Seq::<Seq<char>>::empty());
    assert(lines(seq![text]) =~= text.push('\n')) by {
        reveal_with_fuel(lines, 2);
    }
}

/// The lines of a sequence with one more command at its end.
pub proof fn lemma_lines_push(list: Seq<Seq<char>>, text: Seq<char>)
    ensures
        lines(list.push(text)) == lines(list) + text.push('\n'),
{
    assert(list.push(text).drop_last() =~= list);
}

/// A command list consisting of one or more commands, which can be sent to
/// the server as one batch.
#[derive(Debug, PartialEq, Eq, Hash)]
pub struct CommandList {
    first: Command,
    rest: Vec<Command>,
}

/// What a slice of texts stands for.
pub open spec fn texts_of(texts: Seq<&str>) -> Seq<Seq<char>> {
    texts.map_values(|t: &str| t@)
}

/// What a sequence of commands stands for.
pub open spec fn command_texts(commands: Seq<Command>) -> Seq<Seq<char>> {
    commands.map_values(|c: Command| c@)
}

impl View for CommandList {
    type V = Seq<Seq<char>>;

    closed spec fn view(&self) -> Seq<Seq<char>> {
        seq![self.first@] + command_texts(self.rest@)
    }
}

impl Clone for CommandList {
    fn clone(&self) -> (res: CommandList)
        ensures
            res@ == self@,
    {
        proof {
            use_type_invariant(self);
        }
        let mut rest: Vec<Command> = Vec::new();
        let mut i: usize = 0;
        while i < self.rest.len()
            invariant
                0 <= i <= self.rest@.len(),
                rest@.len() == i,
                forall|j: int| 0 <= j < i ==> (#[trigger] rest@[j])@ == self.rest@[j]@,
            decreases self.rest@.len() - i,
        {
            rest.push(self.rest[i].clone());
            i = i + 1;
        }
        let first = self.first.clone();
        assert(seq![first@] + command_texts(rest@) =~= seq![self.first@] + command_texts(
            self.rest@,
        ));
        CommandList { first, rest }
    }
}

impl CommandList {
    #[verifier::type_invariant]
    spec fn well_formed(self) -> bool {
        &&& self.rest@.len() < usize::MAX
        &&& flat(seq![self.first@] + command_texts(self.rest@))
    }

    /// Create a command list that holds a single command.
    pub fn new(first: Command) -> (list: CommandList)
        ensures
            list@ == seq![first@],
            flat(list@),
    {
        let list = CommandList { first, rest: Vec::new() };
        assert(list@ =~= seq![first@]);
        list
    }

    /// Validate the given texts and create the command list that they
    /// write. An empty slice makes no list. Otherwise the first text that is
    /// no valid command, or that opens a command list within a list of
    /// several, is refused with its position.
    pub fn build(commands: &[&str]) -> (res: Result<CommandList, CommandError>)
        ensures
            match res {
                Ok(list) => {
                    &&& list@.len() == commands@.len()
                    &&& commands@.len() > 0
                    &&& forall|i: int|
                        0 <= i < commands@.len() ==> accepted_at(texts_of(commands@), i)
                            && #[trigger] list@[i] == canonical(commands@[i]@)
                    &&& flat(list@)
                },
                Err(e) => if commands@.len() == 0 {
                    e == (CommandError { reason: InvalidCommandReason::Empty, list_at: None })
                } else {
                    exists|at: int|
                        {
                            &&& 0 <= at < commands@.len()
                            &&& forall|i: int| 0 <= i < at ==> accepted_at(texts_of(commands@), i)
                            &&& !accepted_at(texts_of(commands@), at)
                            &&& e == #[trigger] refusal_at(texts_of(commands@), at)
                        }
                },
            },
    {
        let ghost texts = texts_of(commands@);
        if commands.len() == 0 {
            return Err(CommandError { reason: InvalidCommandReason::Empty, list_at: None });
        }
        let mut first: Option<Command> = None;
        let mut rest: Vec<Command> = Vec::new();
        let mut i: usize = 0;
        while i < commands.len()
            invariant
                0 <= i <= commands@.len(),
                texts == texts_of(commands@),
                commands@.len() > 0,
                i == 0 <==> first is None,
                i > 0 ==> rest@.len() == i - 1,
                i == 0 ==> rest@.len() == 0,
                forall|j: int| 0 <= j < i ==> accepted_at(texts, j),
                first matches Some(c) ==> c@ == canonical(texts[0]),
                forall|j: int| 0 <= j < rest@.len() ==> (#[trigger] rest@[j])@ == canonical(
                    texts[j + 1],
                ),
            decreases commands@.len() - i,
        {
            let valid = match validate_single_command(commands[i]) {
                Ok(valid) => valid,
                Err(e) => {
                    let refused = CommandError { reason: e.reason, list_at: Some(i) };
                    proof {
                        assert(texts[i as int] == commands@[i as int]@);
                        assert(!accepted_at(texts, i as int));
                        assert(refused == refusal_at(texts, i as int));
                    }
                    return Err(refused);
                },
            };
            let command = Command::new(valid);
            if commands.len() > 1 && command.opens_list() {
                let refused = CommandError {
                    reason: InvalidCommandReason::NestedCommandList,
                    list_at: Some(i),
                };
                proof {
                    assert(texts[i as int] == commands@[i as int]@);
                    assert(!accepted_at(texts, i as int));
                    assert(refused == refusal_at(texts, i as int));
                }
                return Err(refused);
            }
            if i == 0 {
                first = Some(command);
            } else {
                rest.push(command);
            }
            i = i + 1;
        }
        let first = first.unwrap();
        proof {
            let list = seq![first@] + command_texts(rest@);
            assert forall|j: int| 0 <= j < list.len() implies list[j] == canonical(texts[j]) by {
                if j > 0 {
                    assert(list[j] == rest@[j - 1]@);
                }
            }
            if list.len() > 1 {
                assert forall|j: int| 0 <= j < list.len() implies !opens_list(
                    #[trigger] list[j],
                ) by {
                    assert(accepted_at(texts, j));
                }
                lemma_first_opener_unique(list, 0, list.len() as int);
            }
        }
        Ok(CommandList { first, rest })
    }

    /// The number of commands in the list, which is never 0.
    pub fn len(&self) -> (n: usize)
        ensures
            n == self@.len(),
            n >= 1,
            flat(self@),
    {
        proof {
            use_type_invariant(self);
        }
        self.rest.len() + 1
    }

    /// Add a command to the end of the list. A list of several commands
    /// cannot hold one that opens a command list: the addition is then
    /// refused, with the position of the first such command, and the list
    /// stays as it was.
    pub fn add(&mut self, command: Command) -> (res: Result<(), CommandError>)
        requires
            old(self)@.len() < usize::MAX,
        ensures
            flat(old(self)@),
            ({
                let joined = old(self)@.push(command@);
                if first_opener(joined, 0) < joined.len() {
                    &&& res == Err::<(), CommandError>(
                        CommandError {
                            reason: InvalidCommandReason::NestedCommandList,
                            list_at: Some(first_opener(joined, 0) as usize),
                        },
                    )
                    &&& final(self)@ == old(self)@
                } else {
                    &&& res is Ok
                    &&& final(self)@ == joined
                    &&& flat(final(self)@)
                }
            }),
    {
        proof {
            use_type_invariant(&*self);
        }
        let ghost joined = self@.push(command@);
        if self.rest.len() == 0 && self.first.opens_list() {
            proof {
                assert(joined[0] == self.first@);
            }
            return Err(
                CommandError {
                    reason: InvalidCommandReason::NestedCommandList,
                    list_at: Some(0),
                },
            );
        }
        proof {
            lemma_first_opener_bounds(self@, 0);
            lemma_first_opener_bounds(joined, 0);
            assert forall|i: int| 0 <= i < self@.len() implies !opens_list(
                #[trigger] joined[i],
            ) by {
                assert(joined[i] == self@[i]);
            }
        }
        if command.opens_list() {
            let at: usize = self.rest.len() + 1;
            proof {
                lemma_first_opener_unique(joined, 0, at as int);
            }
            return Err(
                CommandError {
                    reason: InvalidCommandReason::NestedCommandList,
                    list_at: Some(at),
                },
            );
        }
        proof {
            lemma_first_opener_unique(joined, 0, joined.len() as int);
        }
        let mut rest: Vec<Command> = Vec::new();
        core::mem::swap(&mut self.rest, &mut rest);
        rest.push(command);
        assert(seq![self.first@] + command_texts(rest@) =~= joined);
        core::mem::swap(&mut self.rest, &mut rest);
        assert(self@ =~= joined);
        Ok(())
    }

    /// The wire representation of the list as text.
    pub fn to_wire(&self) -> (wire: String)
        ensures
            wire@ == wire_text(self@),
            flat(self@),
            forall|i: int| 0 <= i < self@.len() ==> is_line(#[trigger] self@[i]),
    {
        proof {
            use_type_invariant(self);
        }
        let ghost list = self@;
        let mut out = String::new();
        if self.rest.len() == 0 {
            out.append(self.first.text());
            push_char(&mut out, '\n');
            proof {
                lemma_lines_single(self.first@);
                assert(list =~= seq![self.first@]);
            }
            return out;
        }
        proof {
            reveal_strlit("command_list_ok_begin\n");
            reveal_strlit("command_list_ok_begin");
            reveal_strlit("command_list_end\n");
            reveal_strlit("command_list_end");
            assert("command_list_ok_begin\n"@ =~= "command_list_ok_begin"@.push('\n'));
            assert("command_list_end\n"@ =~= "command_list_end"@.push('\n'));
            lemma_lines_single("command_list_ok_begin"@);
        }
        out.append("command_list_ok_begin\n");
        out.append(self.first.text());
        push_char(&mut out, '\n');
        let ghost head = seq!["command_list_ok_begin"@];
        proof {
            lemma_lines_push(head, self.first@);
            assert(out@ =~= lines(head.push(self.first@)));
            assert(head.push(self.first@) =~= head + list.take(1));
        }
        let mut i: usize = 0;
        while i < self.rest.len()
            invariant
                0 <= i <= self.rest@.len(),
                list == self@,
                head == seq!["command_list_ok_begin"@],
                out@ == lines(head + list.take(i + 1)),
                forall|j: int| 0 <= j < i + 1 ==> is_line(#[trigger] list[j]),
            decreases self.rest@.len() - i,
        {
            let ghost before = head + list.take(i + 1);
            out.append(self.rest[i].text());
            push_char(&mut out, '\n');
            proof {
                lemma_lines_push(before, self.rest@[i as int]@);
                assert(before.push(self.rest@[i as int]@) =~= head + list.take(i + 2));
            }
            i = i + 1;
        }
        out.append("command_list_end\n");
        proof {
            assert(list.take(i + 1) =~= list);
            lemma_lines_push(head + list, "command_list_end"@);
            assert((head + list).push("command_list_end"@) =~= framed(list));
        }
        out
    }

    /// Render the list to its wire representation, behind what `dst` holds.
    /// A single command is sent as it is; several are sent between the
    /// markers that open and close a command list.
    pub fn render(self, dst: &mut BytesMut)
        requires
            buffered(*old(dst)).len() + utf8_len(wire_text(self@)) <= isize::MAX,
        ensures
            buffered(*final(dst)) == buffered(*old(dst)) + encode_utf8(wire_text(self@)),
    {
        let wire = self.to_wire();
        append(dst, wire.as_str().as_bytes());
    }
}

/// Every command before the first opener does not open a list, and the
/// first opener does.
pub proof fn lemma_first_opener_bounds(list: Seq<Seq<char>>, from: int)
    requires
        0 <= from <= list.len(),
    ensures
        from <= first_opener(list, from) <= list.len(),
        forall|i: int| from <= i < first_opener(list, from) ==> !opens_list(#[trigger] list[i]),
        first_opener(list, from) < list.len() ==> opens_list(list[first_opener(list, from)]),
    decreases list.len() - from,
{
    if from < list.len() && !opens_list(list[from]) {
        lemma_first_opener_bounds(list, from + 1);
    }
}

/// `first_opener` is the one position that opens a list with none before
/// it that does.
pub proof fn lemma_first_opener_unique(list: Seq<Seq<char>>, from: int, at: int)
    requires
        0 <= from <= at <= list.len(),
        forall|i: int| from <= i < at ==> !opens_list(#[trigger] list[i]),
        at < list.len() ==> opens_list(list[at]),
    ensures
        first_opener(list, from) == at,
    decreases at - from,
{
    if from < at {
        lemma_first_opener_unique(list, from + 1, at);
    }
}

/// How the receiving side reads wire text: as the lines that it holds, each
/// ended by its newline. What stands behind the last newline, if anything,
/// is a last line.
pub open spec fn split_lines(wire: Seq<char>) -> Seq<Seq<char>>
    decreases wire.len(),
    via split_lines_terminates
{
    let end = run_end(wire, 0, CharClass::Line);
    if wire.len() == 0 {
        Seq::empty()
    } else if end >= wire.len() {
        seq![wire]
    } else {
        seq![wire.take(end)] + split_lines(wire.skip(end + 1))
    }
}

#[via_fn]
proof fn split_lines_terminates(wire: Seq<char>) {
    lemma_run_end_bounds(wire, 0, CharClass::Line);
}

/// A text without a newline, followed by a newline, is read as one line.
pub proof fn lemma_split_first_line(line: Seq<char>, rest: Seq<char>)
    requires
        forall|i: int| 0 <= i < line.len() ==> line[i] != '\n',
    ensures
        split_lines(line.push('\n') + rest) == seq![line] + split_lines(rest),
{
    let wire = line.push('\n') + rest;
    assert forall|i: int| 0 <= i < line.len() implies CharClass::Line.holds(#[trigger] wire[i]) by {
        assert(wire[i] == line[i]);
    }
    assert(wire[line.len() as int] == '\n');
    lemma_run_end_unique(wire, 0, CharClass::Line, line.len() as int);
    assert(wire.take(line.len() as int) =~= line);
    assert(wire.skip(line.len() as int + 1) =~= rest);
}

/// The lines of commands are read as those commands.
pub proof fn lemma_split_lines_of(list: Seq<Seq<char>>, rest: Seq<char>)
    requires
        forall|i: int, j: int|
            0 <= i < list.len() && 0 <= j < list[i].len() ==> #[trigger] list[i][j] != '\n',
    ensures
        split_lines(lines(list) + rest) == list + split_lines(rest),
    decreases list.len(),
{
    if list.len() == 0 {
        assert(lines(list) + rest =~= rest);
        assert(list + split_lines(rest) =~= split_lines(rest));
    } else {
        let last = list.last();
        let tail = last.push('\n') + rest;
        assert(lines(list) + rest =~= lines(list.drop_last()) + tail);
        assert forall|i: int, j: int|
            0 <= i < list.drop_last().len() && 0 <= j < list.drop_last()[i].len() implies #[trigger] list.drop_last()[i][j]
            != '\n' by {
            assert(list.drop_last()[i] == list[i]);
            assert(list[i][j] != '\n');
        }
        lemma_split_lines_of(list.drop_last(), tail);
        assert forall|j: int| 0 <= j < last.len() implies last[j] != '\n' by {
            assert(list[list.len() - 1][j] != '\n');
        }
        lemma_split_first_line(last, rest);
        assert(list.drop_last() + (seq![last] + split_lines(rest)) =~= list + split_lines(rest));
    }
}

/// Rendering can be undone. The wire form of commands that each stand on
/// one line is read back as exactly those commands: a single command alone,
/// several between the two markers of a command list.
pub proof fn lemma_wire_round_trip(list: Seq<Seq<char>>)
    requires
        forall|i: int| 0 <= i < list.len() ==> is_line(#[trigger] list[i]),
    ensures
        split_lines(wire_text(list)) == framed(list),
{
    let sent = framed(list);
    reveal_strlit("command_list_ok_begin");
    reveal_strlit("command_list_end");
    assert forall|i: int, j: int|
        0 <= i < sent.len() && 0 <= j < sent[i].len() implies #[trigger] sent[i][j] != '\n' by {
        if list.len() == 1 {
            assert(is_line(list[i]));
        } else if 0 < i <= list.len() {
            assert(sent[i] == list[i - 1]);
            assert(is_line(list[i - 1]));
        }
    }
    lemma_split_lines_of(sent, Seq::empty());
    assert(lines(sent) + Seq::<char>::empty() =~= lines(sent));
    assert(sent + split_lines(Seq::<char>::empty()) =~= sent);
}

/// A valid command survives the wire. Rendered and read back, it is the
/// one line that holds the text it was built from, with the letters of its
/// name made small and everything behind the name as it was given.
pub proof fn lemma_command_round_trip(text: Seq<char>)
    requires
        validation(text) is None,
    ensures
        split_lines(wire_text(seq![canonical(text)])) == seq![canonical(text)],
        canonical(text).len() == text.len(),
        forall|i: int|
            0 <= i < name_len(text) ==> #[trigger] canonical(text)[i] == lowered(text[i]),
        forall|i: int|
            name_len(text) <= i < text.len() ==> #[trigger] canonical(text)[i] == text[i],
{
    lemma_canonical_is_line(text);
    lemma_run_end_bounds(text, 0, CharClass::Name);
    lemma_wire_round_trip(seq![canonical(text)]);
}

} // verus!
