//! The tokenizer: recognises the next structural unit of a response.

use crate::model::ErrorModel;
use crate::model::FrameModel;
use crate::text::ascii_text;
use crate::text::lemma_ascii_is_utf8;
use crate::text::utf8_str;
use vstd::prelude::*;
use vstd::slice::slice_subrange;
use vstd::utf8::decode_utf8;
use vstd::utf8::valid_utf8;

verus! {

/// The byte classes that delimit the tokens of a line.
#[derive(Clone, Copy, Debug)]
pub enum ByteClass {
    /// Anything but a newline.
    Line,
    /// A byte of a field name: an ASCII letter, `_` or `-`.
    Key,
    /// A byte of a command name: an ASCII letter or `_`.
    Verb,
    /// An ASCII decimal digit.
    Digit,
}

/// Whether a byte is an ASCII letter, capital or small.
pub open spec fn is_ascii_letter(b: u8) -> bool {
    (0x41 <= b <= 0x5a) || (0x61 <= b <= 0x7a)
}

impl ByteClass {
    /// Whether `b` belongs to the class.
    pub open spec fn holds(self, b: u8) -> bool {
        match self {
            ByteClass::Line => b != 0x0a,
            ByteClass::Key => is_ascii_letter(b) || b == 0x5f || b == 0x2d,
            ByteClass::Verb => is_ascii_letter(b) || b == 0x5f,
            ByteClass::Digit => 0x30 <= b <= 0x39,
        }
    }

    /// Tests whether `b` belongs to the class.
    pub fn test(self, b: u8) -> (res: bool)
        ensures
            res == self.holds(b),
    {
        let letter = (0x41 <= b && b <= 0x5a) || (0x61 <= b && b <= 0x7a);
        match self {
            ByteClass::Line => b != 0x0a,
            ByteClass::Key => letter || b == 0x5f || b == 0x2d,
            ByteClass::Verb => letter || b == 0x5f,
            ByteClass::Digit => 0x30 <= b && b <= 0x39,
        }
    }
}

/// Where the run of `class` bytes that starts at `from` ends: the first
/// position at or after `from` whose byte is outside the class, or the end of
/// `s` when there is none.
pub open spec fn run_end(s: Seq<u8>, from: int, class: ByteClass) -> int
    decreases s.len() - from,
{
    if 0 <= from < s.len() && class.holds(s[from]) {
        run_end(s, from + 1, class)
    } else {
        from
    }
}

/// `run_end` is the one position that a run reaches and does not pass.
pub proof fn lemma_run_end_unique(s: Seq<u8>, from: int, class: ByteClass, end: int)
    requires
        0 <= from <= end <= s.len(),
        forall|i: int| from <= i < end ==> class.holds(#[trigger] s[i]),
        end < s.len() ==> !class.holds(s[end]),
    ensures
        run_end(s, from, class) == end,
    decreases end - from,
{
    if from < end {
        lemma_run_end_unique(s, from + 1, class, end);
    }
}

/// Every byte of a run is in the class, and the byte that ends it is not.
pub proof fn lemma_run_end_bounds(s: Seq<u8>, from: int, class: ByteClass)
    requires
        0 <= from <= s.len(),
    ensures
        from <= run_end(s, from, class) <= s.len(),
        forall|i: int| from <= i < run_end(s, from, class) ==> class.holds(#[trigger] s[i]),
        run_end(s, from, class) < s.len() ==> !class.holds(s[run_end(s, from, class)]),
    decreases s.len() - from,
{
    if from < s.len() && class.holds(s[from]) {
        lemma_run_end_bounds(s, from + 1, class);
    }
}

/// Scans the run of `class` bytes that starts at `from`.
pub fn scan_run(s: &[u8], from: usize, class: ByteClass) -> (end: usize)
    requires
        from <= s@.len(),
    ensures
        end == run_end(s@, from as int, class),
        from <= end <= s@.len(),
{
    let mut i: usize = from;
    while i < s.len() && class.test(s[i])
        invariant
            from <= i <= s@.len(),
            forall|j: int| from <= j < i ==> class.holds(#[trigger] s@[j]),
        decreases s@.len() - i,
    {
        i = i + 1;
    }
    proof {
        lemma_run_end_unique(s@, from as int, class, i as int);
    }
    i
}

/// The number that a sequence of ASCII decimal digits writes.
pub open spec fn decimal(digits: Seq<u8>) -> nat
    decreases digits.len(),
{
    if digits.len() == 0 {
        0
    } else {
        decimal(digits.drop_last()) * 10 + (digits.last() - 0x30) as nat
    }
}

/// Reads the decimal number written in `s[from..to]`, or `None` when it
/// exceeds `u64::MAX`.
pub fn parse_decimal(s: &[u8], from: usize, to: usize) -> (res: Option<u64>)
    requires
        from <= to <= s@.len(),
        forall|i: int| from <= i < to ==> ByteClass::Digit.holds(#[trigger] s@[i]),
    ensures
        match res {
            Some(n) => n == decimal(s@.subrange(from as int, to as int)),
            None => decimal(s@.subrange(from as int, to as int)) > u64::MAX,
        },
{
    let mut acc: u64 = 0;
    let mut overflow: bool = false;
    let mut i: usize = from;
    assert(s@.subrange(from as int, from as int) =~= Seq::<u8>::empty());
    while i < to
        invariant
            from <= i <= to <= s@.len(),
            forall|j: int| from <= j < to ==> ByteClass::Digit.holds(#[trigger] s@[j]),
            !overflow ==> acc == decimal(s@.subrange(from as int, i as int)),
            overflow ==> decimal(s@.subrange(from as int, i as int)) > u64::MAX,
        decreases to - i,
    {
        let digit: u64 = (s[i] - 0x30) as u64;
        proof {
            let next = s@.subrange(from as int, i + 1);
            assert(next.drop_last() =~= s@.subrange(from as int, i as int));
            assert(next.last() == s@[i as int]);
        }
        if !overflow {
            match acc.checked_mul(10) {
                Some(tens) => match tens.checked_add(digit) {
                    Some(sum) => {
                        acc = sum;
                    },
                    None => {
                        overflow = true;
                    },
                },
                None => {
                    overflow = true;
                },
            }
        }
        i = i + 1;
    }
    if overflow {
        None
    } else {
        Some(acc)
    }
}

/// `OK`
pub open spec fn lit_ok() -> Seq<u8> {
    seq![0x4f, 0x4b]
}

/// `list_OK`
pub open spec fn lit_list_ok() -> Seq<u8> {
    seq![0x6c, 0x69, 0x73, 0x74, 0x5f, 0x4f, 0x4b]
}

/// `ACK ` with its trailing space.
pub open spec fn lit_ack() -> Seq<u8> {
    seq![0x41, 0x43, 0x4b, 0x20]
}

/// `binary`
pub open spec fn lit_binary() -> Seq<u8> {
    seq![0x62, 0x69, 0x6e, 0x61, 0x72, 0x79]
}

/// `OK MPD ` with its trailing space.
pub open spec fn lit_greeting() -> Seq<u8> {
    seq![0x4f, 0x4b, 0x20, 0x4d, 0x50, 0x44, 0x20]
}

/// Whether `s[from..to]` starts with `lit`.
pub open spec fn starts_with(s: Seq<u8>, from: int, to: int, lit: Seq<u8>) -> bool {
    from + lit.len() <= to && s.subrange(from, from + lit.len()) == lit
}

/// Whether `s[from..to]` is `lit`.
pub open spec fn is_exactly(s: Seq<u8>, from: int, to: int, lit: Seq<u8>) -> bool {
    from + lit.len() == to && s.subrange(from, to) == lit
}

/// Compares the bytes at `from` with `lit`, as far as `to` allows.
pub fn has_prefix(s: &[u8], from: usize, to: usize, lit: &[u8]) -> (res: bool)
    requires
        from <= to <= s@.len(),
    ensures
        res == starts_with(s@, from as int, to as int, lit@),
{
    if lit.len() > to - from {
        return false;
    }
    let mut i: usize = 0;
    while i < lit.len()
        invariant
            from <= to <= s@.len(),
            lit@.len() <= to - from,
            0 <= i <= lit@.len(),
            forall|j: int| 0 <= j < i ==> s@[from + j] == #[trigger] lit@[j],
        decreases lit@.len() - i,
    {
        if s[from + i] != lit[i] {
            proof {
                let part = s@.subrange(from as int, from + lit@.len());
                assert(part[i as int] == s@[from + i]);
            }
            return false;
        }
        i = i + 1;
    }
    assert(s@.subrange(from as int, from + lit@.len()) =~= lit@);
    true
}

/// One structural unit of a response, as the grammar defines it.
pub enum Unit {
    /// `<key>: <value>`
    Field { key: Seq<char>, value: Seq<char> },
    /// `binary: <length>`, the payload of that length, and a newline.
    Binary(Seq<u8>),
    /// `list_OK`: the end of one command's segment in a batch.
    EndOfFrame,
    /// `OK`: the end of the response.
    EndOfResponse,
    /// `ACK [<code>@<index>] {<command>} <message>`
    Error(ErrorModel),
}

/// What the bytes from some position on begin with.
pub enum Scan {
    /// Too few bytes to decide.
    Incomplete,
    /// The bytes break the grammar.
    Malformed,
    /// A unit, and the position behind its last byte.
    Found(Unit, int),
}

/// A binary unit whose length is written in `s[digits..nl]`, with the
/// newline of its header line at `nl`.
pub open spec fn scan_binary(s: Seq<u8>, digits: int, nl: int) -> Scan {
    let length = decimal(s.subrange(digits, nl));
    if digits == nl || run_end(s, digits, ByteClass::Digit) != nl {
        Scan::Malformed
    } else if length > usize::MAX {
        Scan::Malformed
    } else if nl + 1 + length + 1 > s.len() {
        Scan::Incomplete
    } else if s[nl + 1 + length] != 0x0a {
        Scan::Malformed
    } else {
        Scan::Found(Unit::Binary(s.subrange(nl + 1, nl + 1 + length)), nl + 1 + length + 1)
    }
}

/// A field line `s[at..nl]`, with its newline at `nl`.
pub open spec fn scan_field(s: Seq<u8>, at: int, nl: int) -> Scan {
    let colon = run_end(s, at, ByteClass::Key);
    if colon == at || colon + 2 > nl || s[colon] != 0x3a || s[colon + 1] != 0x20 {
        Scan::Malformed
    } else if s.subrange(at, colon) == lit_binary() {
        scan_binary(s, colon + 2, nl)
    } else if valid_utf8(s.subrange(colon + 2, nl)) {
        Scan::Found(
            Unit::Field {
                key: ascii_text(s.subrange(at, colon)),
                value: decode_utf8(s.subrange(colon + 2, nl)),
            },
            nl + 1,
        )
    } else {
        Scan::Malformed
    }
}

/// An error line whose part behind `ACK ` is `s[at..nl]`, with its newline
/// at `nl`.
pub open spec fn scan_ack(s: Seq<u8>, at: int, nl: int) -> Scan {
    let code_end = run_end(s, at + 1, ByteClass::Digit);
    let index_end = run_end(s, code_end + 1, ByteClass::Digit);
    let name_end = run_end(s, index_end + 3, ByteClass::Verb);
    let code = decimal(s.subrange(at + 1, code_end));
    let index = decimal(s.subrange(code_end + 1, index_end));
    let name = s.subrange(index_end + 3, name_end);
    let message = s.subrange(name_end + 2, nl);
    if at >= nl || s[at] != 0x5b {
        Scan::Malformed
    } else if code_end == at + 1 || code_end >= nl || s[code_end] != 0x40 {
        Scan::Malformed
    } else if index_end == code_end + 1 || index_end + 3 > nl || s[index_end] != 0x5d || s[index_end
        + 1] != 0x20 || s[index_end + 2] != 0x7b {
        Scan::Malformed
    } else if name_end + 2 > nl || s[name_end] != 0x7d || s[name_end + 1] != 0x20 {
        Scan::Malformed
    } else if code > u64::MAX || index > u64::MAX {
        Scan::Malformed
    } else if !valid_utf8(message) {
        Scan::Malformed
    } else {
        Scan::Found(
            Unit::Error(
                ErrorModel {
                    code: code as u64,
                    command_index: index as u64,
                    current_command: if name.len() == 0 {
                        None
                    } else {
                        Some(ascii_text(name))
                    },
                    message: decode_utf8(message),
                },
            ),
            nl + 1,
        )
    }
}

/// The unit that starts at `at`. Every unit begins with a line; nothing is
/// decided before that line's newline has arrived, and a binary unit is
/// not found before its whole payload and the newline behind it have.
pub open spec fn scan_unit(s: Seq<u8>, at: int) -> Scan {
    let nl = run_end(s, at, ByteClass::Line);
    if at < 0 || nl >= s.len() {
        Scan::Incomplete
    } else if is_exactly(s, at, nl, lit_ok()) {
        Scan::Found(Unit::EndOfResponse, nl + 1)
    } else if is_exactly(s, at, nl, lit_list_ok()) {
        Scan::Found(Unit::EndOfFrame, nl + 1)
    } else if starts_with(s, at, nl, lit_ack()) {
        scan_ack(s, at + 4, nl)
    } else {
        scan_field(s, at, nl)
    }
}

/// An error line, borrowed from the bytes it was read from.
#[derive(Clone, Copy, Debug)]
pub struct ParsedError<'a> {
    pub code: u64,
    pub command_index: u64,
    pub current_command: Option<&'a str>,
    pub message: &'a str,
}

impl<'a> View for ParsedError<'a> {
    type V = ErrorModel;

    open spec fn view(&self) -> ErrorModel {
        ErrorModel {
            code: self.code,
            command_index: self.command_index,
            current_command: match self.current_command {
                Some(name) => Some(name@),
                None => None,
            },
            message: self.message@,
        }
    }
}

/// One structural unit, borrowed from the bytes it was read from.
#[derive(Clone, Copy, Debug)]
pub enum ParsedComponent<'a> {
    EndOfFrame,
    EndOfResponse,
    Error(ParsedError<'a>),
    Field { key: &'a str, value: &'a str },
    BinaryField(&'a [u8]),
}

impl<'a> View for ParsedComponent<'a> {
    type V = Unit;

    open spec fn view(&self) -> Unit {
        match *self {
            ParsedComponent::EndOfFrame => Unit::EndOfFrame,
            ParsedComponent::EndOfResponse => Unit::EndOfResponse,
            ParsedComponent::Error(e) => Unit::Error(e@),
            ParsedComponent::Field { key, value } => Unit::Field { key: key@, value: value@ },
            ParsedComponent::BinaryField(payload) => Unit::Binary(payload@),
        }
    }
}

/// What the tokenizer returns.
#[derive(Clone, Copy, Debug)]
pub enum Parsed<'a> {
    /// More bytes are needed.
    Incomplete,
    /// The bytes break the grammar.
    Malformed,
    /// A unit, and the position behind its last byte.
    Found(ParsedComponent<'a>, usize),
}

impl<'a> View for Parsed<'a> {
    type V = Scan;

    open spec fn view(&self) -> Scan {
        match *self {
            Parsed::Incomplete => Scan::Incomplete,
            Parsed::Malformed => Scan::Malformed,
            Parsed::Found(component, end) => Scan::Found(component@, end as int),
        }
    }
}

/// Reads a binary unit whose length is written in `src[digits..nl]`.
fn parse_binary<'a>(src: &'a [u8], digits: usize, nl: usize) -> (res: Parsed<'a>)
    requires
        digits <= nl < src@.len(),
        src@[nl as int] == 0x0a,
    ensures
        res@ == scan_binary(src@, digits as int, nl as int),
{
    let digits_end: usize = scan_run(src, digits, ByteClass::Digit);
    if digits == nl || digits_end != nl {
        return Parsed::Malformed;
    }
    proof {
        lemma_run_end_bounds(src@, digits as int, ByteClass::Digit);
    }
    let length: u64 = match parse_decimal(src, digits, nl) {
        Some(n) => n,
        None => {
            return Parsed::Malformed;
        },
    };
    if length > usize::MAX as u64 {
        return Parsed::Malformed;
    }
    let behind: usize = src.len() - nl - 1;
    if length as usize >= behind {
        return Parsed::Incomplete;
    }
    let end: usize = nl + 1 + length as usize;
    if src[end] != 0x0a {
        return Parsed::Malformed;
    }
    Parsed::Found(ParsedComponent::BinaryField(slice_subrange(src, nl + 1, end)), end + 1)
}

/// Reads the field line `src[at..nl]`, and the payload behind it where it
/// declares one.
fn parse_field<'a>(src: &'a [u8], at: usize, nl: usize) -> (res: Parsed<'a>)
    requires
        at <= nl < src@.len(),
        src@[nl as int] == 0x0a,
    ensures
        res@ == scan_field(src@, at as int, nl as int),
{
    let colon: usize = scan_run(src, at, ByteClass::Key);
    proof {
        lemma_run_end_bounds(src@, at as int, ByteClass::Key);
    }
    if colon == at || nl - colon < 2 || src[colon] != 0x3a || src[colon + 1] != 0x20 {
        return Parsed::Malformed;
    }
    let binary: [u8; 6] = [0x62, 0x69, 0x6e, 0x61, 0x72, 0x79];
    assert(binary@ =~= lit_binary());
    if colon - at == 6 && has_prefix(src, at, colon, binary.as_slice()) {
        return parse_binary(src, colon + 2, nl);
    }
    proof {
        let name = src@.subrange(at as int, colon as int);
        assert forall|i: int| 0 <= i < name.len() implies #[trigger] name[i] < 0x80 by {
            assert(ByteClass::Key.holds(src@[at + i]));
        }
        lemma_ascii_is_utf8(name);
    }
    match utf8_str(slice_subrange(src, at, colon)) {
        Some(key) => match utf8_str(slice_subrange(src, colon + 2, nl)) {
            Some(value) => Parsed::Found(ParsedComponent::Field { key, value }, nl + 1),
            None => Parsed::Malformed,
        },
        None => Parsed::Malformed,
    }
}

/// Reads the error line whose part behind `ACK ` is `src[at..nl]`.
fn parse_ack<'a>(src: &'a [u8], at: usize, nl: usize) -> (res: Parsed<'a>)
    requires
        at <= nl < src@.len(),
        src@[nl as int] == 0x0a,
    ensures
        res@ == scan_ack(src@, at as int, nl as int),
{
    if at >= nl || src[at] != 0x5b {
        return Parsed::Malformed;
    }
    let code_end: usize = scan_run(src, at + 1, ByteClass::Digit);
    proof {
        lemma_run_end_bounds(src@, at + 1, ByteClass::Digit);
    }
    if code_end == at + 1 || code_end >= nl || src[code_end] != 0x40 {
        return Parsed::Malformed;
    }
    let index_end: usize = scan_run(src, code_end + 1, ByteClass::Digit);
    proof {
        lemma_run_end_bounds(src@, code_end + 1, ByteClass::Digit);
    }
    if index_end == code_end + 1 || nl - index_end < 3 || src[index_end] != 0x5d || src[index_end
        + 1] != 0x20 || src[index_end + 2] != 0x7b {
        return Parsed::Malformed;
    }
    let name_end: usize = scan_run(src, index_end + 3, ByteClass::Verb);
    proof {
        lemma_run_end_bounds(src@, index_end + 3, ByteClass::Verb);
    }
    if nl - name_end < 2 || src[name_end] != 0x7d || src[name_end + 1] != 0x20 {
        return Parsed::Malformed;
    }
    let code: u64 = match parse_decimal(src, at + 1, code_end) {
        Some(n) => n,
        None => {
            return Parsed::Malformed;
        },
    };
    let command_index: u64 = match parse_decimal(src, code_end + 1, index_end) {
        Some(n) => n,
        None => {
            return Parsed::Malformed;
        },
    };
    proof {
        let name = src@.subrange(index_end + 3, name_end as int);
        assert forall|i: int| 0 <= i < name.len() implies #[trigger] name[i] < 0x80 by {
            assert(ByteClass::Verb.holds(src@[index_end + 3 + i]));
        }
        lemma_ascii_is_utf8(name);
    }
    let name = match utf8_str(slice_subrange(src, index_end + 3, name_end)) {
        Some(name) => name,
        None => {
            return Parsed::Malformed;
        },
    };
    let message = match utf8_str(slice_subrange(src, name_end + 2, nl)) {
        Some(message) => message,
        None => {
            return Parsed::Malformed;
        },
    };
    let current_command = if name_end == index_end + 3 {
        None
    } else {
        Some(name)
    };
    Parsed::Found(
        ParsedComponent::Error(ParsedError { code, command_index, current_command, message }),
        nl + 1,
    )
}

impl<'a> ParsedComponent<'a> {
    /// Recognises the unit that starts at `at`.
    pub fn parse(src: &'a [u8], at: usize) -> (res: Parsed<'a>)
        ensures
            res@ == scan_unit(src@, at as int),
    {
        if at >= src.len() {
            return Parsed::Incomplete;
        }
        let nl: usize = scan_run(src, at, ByteClass::Line);
        if nl >= src.len() {
            return Parsed::Incomplete;
        }
        proof {
            lemma_run_end_bounds(src@, at as int, ByteClass::Line);
        }
        let ok: [u8; 2] = [0x4f, 0x4b];
        let list_ok: [u8; 7] = [0x6c, 0x69, 0x73, 0x74, 0x5f, 0x4f, 0x4b];
        let ack: [u8; 4] = [0x41, 0x43, 0x4b, 0x20];
        assert(ok@ =~= lit_ok());
        assert(list_ok@ =~= lit_list_ok());
        assert(ack@ =~= lit_ack());
        if nl - at == 2 && has_prefix(src, at, nl, ok.as_slice()) {
            Parsed::Found(ParsedComponent::EndOfResponse, nl + 1)
        } else if nl - at == 7 && has_prefix(src, at, nl, list_ok.as_slice()) {
            Parsed::Found(ParsedComponent::EndOfFrame, nl + 1)
        } else if has_prefix(src, at, nl, ack.as_slice()) {
            parse_ack(src, at + 4, nl)
        } else {
            parse_field(src, at, nl)
        }
    }
}

/// What the first bytes a server sends begin with.
pub enum GreetingScan {
    /// Too few bytes to decide.
    Incomplete,
    /// The bytes are no greeting.
    Malformed,
    /// A greeting with the protocol version it names, and the position
    /// behind its newline.
    Found(Seq<char>, int),
}

/// The greeting line `OK MPD <version>` at the front of `s`. The bytes are
/// refused as soon as they depart from `OK MPD `; a version is not empty.
pub open spec fn scan_greeting(s: Seq<u8>) -> GreetingScan {
    let lit = lit_greeting();
    let nl = run_end(s, lit.len() as int, ByteClass::Line);
    if s.len() < lit.len() {
        if s == lit.take(s.len() as int) {
            GreetingScan::Incomplete
        } else {
            GreetingScan::Malformed
        }
    } else if s.take(lit.len() as int) != lit {
        GreetingScan::Malformed
    } else if nl >= s.len() {
        GreetingScan::Incomplete
    } else if nl == lit.len() || !valid_utf8(s.subrange(lit.len() as int, nl)) {
        GreetingScan::Malformed
    } else {
        GreetingScan::Found(decode_utf8(s.subrange(lit.len() as int, nl)), nl + 1)
    }
}

/// What [`greeting`] returns.
#[derive(Clone, Copy, Debug)]
pub enum ParsedGreeting<'a> {
    /// More bytes are needed.
    Incomplete,
    /// The bytes are no greeting.
    Malformed,
    /// The protocol version, and the position behind the greeting.
    Found(&'a str, usize),
}

impl<'a> View for ParsedGreeting<'a> {
    type V = GreetingScan;

    open spec fn view(&self) -> GreetingScan {
        match *self {
            ParsedGreeting::Incomplete => GreetingScan::Incomplete,
            ParsedGreeting::Malformed => GreetingScan::Malformed,
            ParsedGreeting::Found(version, end) => GreetingScan::Found(version@, end as int),
        }
    }
}

/// Recognises the greeting that a server sends when a connection opens.
pub fn greeting<'a>(src: &'a [u8]) -> (res: ParsedGreeting<'a>)
    ensures
        res@ == scan_greeting(src@),
{
    let lit: [u8; 7] = [0x4f, 0x4b, 0x20, 0x4d, 0x50, 0x44, 0x20];
    assert(lit@ =~= lit_greeting());
    if src.len() < 7 {
        let agrees = has_prefix(lit.as_slice(), 0, src.len(), src);
        assert(lit@.subrange(0, src@.len() as int) =~= lit@.take(src@.len() as int));
        return if agrees {
            ParsedGreeting::Incomplete
        } else {
            ParsedGreeting::Malformed
        };
    }
    assert(src@.subrange(0, 7) =~= src@.take(7));
    if !has_prefix(src, 0, src.len(), lit.as_slice()) {
        return ParsedGreeting::Malformed;
    }
    let nl: usize = scan_run(src, 7, ByteClass::Line);
    if nl >= src.len() {
        return ParsedGreeting::Incomplete;
    }
    if nl == 7 {
        return ParsedGreeting::Malformed;
    }
    match utf8_str(slice_subrange(src, 7, nl)) {
        Some(version) => ParsedGreeting::Found(version, nl + 1),
        None => ParsedGreeting::Malformed,
    }
}

/// The response to one command, borrowed from the bytes it was read from.
#[derive(Debug)]
pub enum Response<'a> {
    /// The command succeeded with these fields and this binary payload.
    Success { fields: Vec<(&'a str, &'a str)>, binary: Option<&'a [u8]> },
    /// The command failed.
    Error { code: u64, command_index: u64, current_command: Option<&'a str>, message: &'a str },
}

/// What borrowed fields stand for.
pub open spec fn borrowed_fields(fields: Seq<(&str, &str)>) -> Seq<(Seq<char>, Seq<char>)> {
    Seq::new(fields.len(), |i: int| (fields[i].0@, fields[i].1@))
}

impl<'a> View for Response<'a> {
    type V = Result<FrameModel, ErrorModel>;

    open spec fn view(&self) -> Result<FrameModel, ErrorModel> {
        match *self {
            Response::Success { fields, binary } => Ok(
                FrameModel {
                    fields: borrowed_fields(fields@),
                    binary: match binary {
                        Some(bytes) => Some(bytes@),
                        None => None,
                    },
                },
            ),
            Response::Error { code, command_index, current_command, message } => Err(
                ErrorModel {
                    code,
                    command_index,
                    current_command: match current_command {
                        Some(name) => Some(name@),
                        None => None,
                    },
                    message: message@,
                },
            ),
        }
    }
}

} // verus!
