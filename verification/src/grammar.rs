//! The wire forms of the units, and the proof that each is read as what it
//! writes: the tokenizer's positional description of a unit agrees with the
//! unit as it is written down byte by byte.

use crate::model::ErrorModel;
use crate::parser::decimal;
use crate::parser::lemma_run_end_unique;
use crate::parser::lit_ack;
use crate::parser::lit_binary;
use crate::parser::lit_greeting;
use crate::parser::lit_list_ok;
use crate::parser::lit_ok;
use crate::parser::run_end;
use crate::parser::scan_ack;
use crate::parser::scan_binary;
use crate::parser::scan_field;
use crate::parser::scan_greeting;
use crate::parser::scan_unit;
use crate::parser::ByteClass;
use crate::parser::GreetingScan;
use crate::parser::Scan;
use crate::parser::Unit;
use crate::text::ascii_text;
use vstd::prelude::*;
use vstd::utf8::decode_utf8;
use vstd::utf8::valid_utf8;

verus! {

/// Whether every byte of `bytes` belongs to `class`.
pub open spec fn all_in(bytes: Seq<u8>, class: ByteClass) -> bool {
    forall|i: int| 0 <= i < bytes.len() ==> class.holds(#[trigger] bytes[i])
}

/// Where `part` stands at `at` in `s`, its bytes are those of `s` there.
proof fn lemma_part_at(s: Seq<u8>, at: int, part: Seq<u8>)
    requires
        0 <= at,
        at + part.len() <= s.len(),
        s.subrange(at, at + part.len()) == part,
    ensures
        forall|i: int| 0 <= i < part.len() ==> s[at + i] == #[trigger] part[i],
{
    assert forall|i: int| 0 <= i < part.len() implies s[at + i] == #[trigger] part[i] by {
        assert(s.subrange(at, at + part.len())[i] == s[at + i]);
    }
}

/// A run over a part whose bytes all belong to the class ends where the
/// part ends, when the byte behind it does not belong to the class.
proof fn lemma_run_over(s: Seq<u8>, at: int, part: Seq<u8>, class: ByteClass)
    requires
        0 <= at,
        at + part.len() < s.len(),
        s.subrange(at, at + part.len()) == part,
        all_in(part, class),
        !class.holds(s[at + part.len()]),
    ensures
        run_end(s, at, class) == at + part.len(),
{
    lemma_part_at(s, at, part);
    assert forall|i: int| at <= i < at + part.len() implies class.holds(#[trigger] s[i]) by {
        assert(s[at + (i - at)] == part[i - at]);
    }
    lemma_run_end_unique(s, at, class, at + part.len());
}

/// The line `OK` is the end of a response.
pub proof fn lemma_final_terminator(before: Seq<u8>, after: Seq<u8>)
    ensures
        scan_unit(before + lit_ok() + seq![0x0au8] + after, before.len() as int) == Scan::Found(
            Unit::EndOfResponse,
            before.len() + 3int,
        ),
{
    let s = before + lit_ok() + seq![0x0au8] + after;
    let at = before.len() as int;
    assert(s.subrange(at, at + 2) =~= lit_ok());
    assert(s[at + 2] == 0x0a);
    lemma_run_over(s, at, lit_ok(), ByteClass::Line);
}

/// The line `list_OK` is the end of a frame.
pub proof fn lemma_sub_terminator(before: Seq<u8>, after: Seq<u8>)
    ensures
        scan_unit(before + lit_list_ok() + seq![0x0au8] + after, before.len() as int)
            == Scan::Found(Unit::EndOfFrame, before.len() + 8int),
{
    let s = before + lit_list_ok() + seq![0x0au8] + after;
    let at = before.len() as int;
    assert(s.subrange(at, at + 7) =~= lit_list_ok());
    assert(s[at + 7] == 0x0a);
    lemma_run_over(s, at, lit_list_ok(), ByteClass::Line);
    assert(s.subrange(at, at + 7) != lit_ok());
}

/// A field line that stands at `at` in `s` is found there.
proof fn lemma_field_at(s: Seq<u8>, at: int, key: Seq<u8>, value: Seq<u8>)
    requires
        0 <= at,
        key.len() > 0,
        at + key.len() + 2 + value.len() < s.len(),
        s.subrange(at, at + key.len()) == key,
        s[at + key.len()] == 0x3a,
        s[at + key.len() + 1] == 0x20,
        s.subrange(at + key.len() + 2, at + key.len() + 2 + value.len()) == value,
        s[at + key.len() + 2 + value.len()] == 0x0a,
        all_in(key, ByteClass::Key),
        all_in(value, ByteClass::Line),
        key != lit_binary(),
        valid_utf8(value),
    ensures
        scan_unit(s, at) == Scan::Found(
            Unit::Field { key: ascii_text(key), value: decode_utf8(value) },
            at + key.len() + 2 + value.len() + 1,
        ),
{
    let colon = at + key.len();
    let nl = colon + 2 + value.len();
    lemma_part_at(s, at, key);
    lemma_part_at(s, colon + 2, value);
    assert forall|i: int| at <= i < nl implies ByteClass::Line.holds(#[trigger] s[i]) by {
        if i < colon {
            assert(s[at + (i - at)] == key[i - at]);
            assert(ByteClass::Key.holds(key[i - at]));
        } else if i >= colon + 2 {
            assert(s[colon + 2 + (i - colon - 2)] == value[i - colon - 2]);
        }
    }
    lemma_run_end_unique(s, at, ByteClass::Line, nl);
    lemma_run_over(s, at, key, ByteClass::Key);
    let line = s.subrange(at, nl);
    assert(line[key.len() as int] == 0x3a);
    assert(line != lit_ok());
    assert(line != lit_list_ok()) by {
        if line.len() == 7 {
            assert(ByteClass::Key.holds(lit_list_ok()[key.len() as int]));
        }
    }
    assert(s.subrange(at, at + 4) != lit_ack()) by {
        if at + 4 <= nl {
            let head = s.subrange(at, at + 4);
            assert(head[0] == s[at] && head[1] == s[at + 1] && head[2] == s[at + 2] && head[3]
                == s[at + 3]);
            if key.len() > 3 {
                assert(s[at + 3] == key[3]);
                assert(ByteClass::Key.holds(key[3]));
            }
        }
    }
    assert(scan_unit(s, at) == scan_field(s, at, nl));
}

/// A line `<key>: <value>` is a field, whatever stands before and behind
/// it: for every key made of letters, `_` and `-` other than `binary`, and
/// every value of well-formed UTF-8 without a newline, the empty value
/// included.
pub proof fn lemma_field_line(before: Seq<u8>, key: Seq<u8>, value: Seq<u8>, after: Seq<u8>)
    requires
        key.len() > 0,
        all_in(key, ByteClass::Key),
        key != lit_binary(),
        all_in(value, ByteClass::Line),
        valid_utf8(value),
    ensures
        scan_unit(
            before + key + seq![0x3au8, 0x20u8] + value + seq![0x0au8] + after,
            before.len() as int,
        ) == Scan::Found(
            Unit::Field { key: ascii_text(key), value: decode_utf8(value) },
            before.len() + key.len() + 2int + value.len() + 1int,
        ),
{
    let s = before + key + seq![0x3au8, 0x20u8] + value + seq![0x0au8] + after;
    let at = before.len() as int;
    let colon = at + key.len();
    assert(s.subrange(at, colon) =~= key);
    assert(s[colon] == 0x3a);
    assert(s[colon + 1] == 0x20);
    assert(s.subrange(colon + 2, colon + 2 + value.len()) =~= value);
    assert(s[colon + 2 + value.len()] == 0x0a);
    lemma_field_at(s, at, key, value);
}

/// The bytes of a binary unit: the header line that declares the length in
/// `digits`, the payload, and the newline behind it.
pub open spec fn binary_unit(digits: Seq<u8>, payload: Seq<u8>) -> Seq<u8> {
    lit_binary() + seq![0x3au8, 0x20u8] + digits + seq![0x0au8] + payload + seq![0x0au8]
}

/// A binary unit that stands at `at` in `s` is found there, with its
/// payload as it stands in `s`.
proof fn lemma_binary_unit_at(s: Seq<u8>, at: int, digits: int, payload: int)
    requires
        0 <= at,
        0 < digits,
        0 <= payload <= usize::MAX,
        at + 8 + digits + 1 + payload + 1 <= s.len(),
        s.subrange(at, at + 6) == lit_binary(),
        s[at + 6] == 0x3a,
        s[at + 7] == 0x20,
        forall|i: int| at + 8 <= i < at + 8 + digits ==> ByteClass::Digit.holds(#[trigger] s[i]),
        s[at + 8 + digits] == 0x0a,
        decimal(s.subrange(at + 8, at + 8 + digits)) == payload,
        s[at + 8 + digits + 1 + payload] == 0x0a,
    ensures
        scan_unit(s, at) == Scan::Found(
            Unit::Binary(s.subrange(at + 8 + digits + 1, at + 8 + digits + 1 + payload)),
            at + 8 + digits + 1 + payload + 1,
        ),
{
    let nl = at + 8 + digits;
    assert forall|i: int| at <= i < at + 6 implies s[i] == #[trigger] lit_binary()[i - at] by {
        assert(s.subrange(at, at + 6)[i - at] == s[i]);
    }
    assert forall|i: int| at <= i < nl implies ByteClass::Line.holds(#[trigger] s[i]) by {
        if i < at + 6 {
            assert(s[i] == lit_binary()[i - at]);
        }
    }
    lemma_run_end_unique(s, at, ByteClass::Line, nl);
    assert forall|i: int| at <= i < at + 6 implies ByteClass::Key.holds(#[trigger] s[i]) by {
        assert(s[i] == lit_binary()[i - at]);
    }
    lemma_run_end_unique(s, at, ByteClass::Key, at + 6);
    lemma_run_end_unique(s, at + 8, ByteClass::Digit, nl);
    assert(s.subrange(at, at + 4)[0] == s[at]);
    assert(s[at] == lit_binary()[0]);
    assert(s.subrange(at, at + 4) != lit_ack());
    assert(s.subrange(at, nl).len() >= 9);
    assert(scan_binary(s, at + 8, nl) == Scan::Found(
        Unit::Binary(s.subrange(nl + 1, nl + 1 + payload)),
        nl + 1 + payload + 1,
    ));
    assert(scan_field(s, at, nl) == scan_binary(s, at + 8, nl));
}

/// A binary payload is taken by its declared length alone. Whatever bytes it
/// holds, terminator lines among them, and whatever stands before and
/// behind the unit: the unit found is the payload, byte for byte, and it ends
/// behind the newline that follows the payload.
pub proof fn lemma_binary_payload_exact(
    before: Seq<u8>,
    digits: Seq<u8>,
    payload: Seq<u8>,
    after: Seq<u8>,
)
    requires
        digits.len() > 0,
        forall|i: int| 0 <= i < digits.len() ==> ByteClass::Digit.holds(#[trigger] digits[i]),
        decimal(digits) == payload.len(),
        payload.len() <= usize::MAX,
    ensures
        scan_unit(before + binary_unit(digits, payload) + after, before.len() as int)
            == Scan::Found(
            Unit::Binary(payload),
            (before.len() + binary_unit(digits, payload).len()) as int,
        ),
{
    let unit = binary_unit(digits, payload);
    let s = before + unit + after;
    let at = before.len() as int;
    let dn = digits.len() as int;
    let pn = payload.len() as int;
    let header = lit_binary() + seq![0x3au8, 0x20u8];
    assert(unit =~= header + (digits + seq![0x0au8] + payload + seq![0x0au8]));
    assert(s.subrange(at, at + 6) =~= lit_binary());
    assert(s[at + 6] == header[6]);
    assert(s[at + 7] == header[7]);
    assert(s.subrange(at + 8, at + 8 + dn) =~= digits);
    assert forall|i: int| at + 8 <= i < at + 8 + dn implies ByteClass::Digit.holds(
        #[trigger] s[i],
    ) by {
        assert(s[i] == digits[i - at - 8]);
    }
    assert(s[at + 8 + dn] == 0x0a);
    assert(s.subrange(at + 8 + dn + 1, at + 8 + dn + 1 + pn) =~= payload);
    assert(s[at + 8 + dn + 1 + pn] == 0x0a);
    lemma_binary_unit_at(s, at, dn, pn);
}

/// The bytes of an error line, without its newline.
pub open spec fn error_line(
    code: Seq<u8>,
    index: Seq<u8>,
    name: Seq<u8>,
    message: Seq<u8>,
) -> Seq<u8> {
    lit_ack() + seq![0x5bu8] + code + seq![0x40u8] + index + seq![0x5du8, 0x20u8, 0x7bu8] + name
        + seq![0x7du8, 0x20u8] + message
}

/// An error line that stands at `at` in `s` is found there.
proof fn lemma_error_at(
    s: Seq<u8>,
    at: int,
    code: Seq<u8>,
    index: Seq<u8>,
    name: Seq<u8>,
    message: Seq<u8>,
)
    requires
        0 <= at,
        code.len() > 0,
        index.len() > 0,
        at + 5 + code.len() + 1 + index.len() + 3 + name.len() + 2 + message.len() < s.len(),
        s.subrange(at, at + 4) == lit_ack(),
        s[at + 4] == 0x5b,
        s.subrange(at + 5, at + 5 + code.len()) == code,
        s[at + 5 + code.len()] == 0x40,
        s.subrange(at + 6 + code.len(), at + 6 + code.len() + index.len()) == index,
        s[at + 6 + code.len() + index.len()] == 0x5d,
        s[at + 7 + code.len() + index.len()] == 0x20,
        s[at + 8 + code.len() + index.len()] == 0x7b,
        s.subrange(
            at + 9 + code.len() + index.len(),
            at + 9 + code.len() + index.len() + name.len(),
        ) == name,
        s[at + 9 + code.len() + index.len() + name.len()] == 0x7d,
        s[at + 10 + code.len() + index.len() + name.len()] == 0x20,
        s.subrange(
            at + 11 + code.len() + index.len() + name.len(),
            at + 11 + code.len() + index.len() + name.len() + message.len(),
        ) == message,
        s[at + 11 + code.len() + index.len() + name.len() + message.len()] == 0x0a,
        all_in(code, ByteClass::Digit),
        all_in(index, ByteClass::Digit),
        all_in(name, ByteClass::Verb),
        all_in(message, ByteClass::Line),
        decimal(code) <= u64::MAX,
        decimal(index) <= u64::MAX,
        valid_utf8(message),
    ensures
        scan_unit(s, at) == Scan::Found(
            Unit::Error(
                ErrorModel {
                    code: decimal(code) as u64,
                    command_index: decimal(index) as u64,
                    current_command: if name.len() == 0 {
                        None
                    } else {
                        Some(ascii_text(name))
                    },
                    message: decode_utf8(message),
                },
            ),
            at + 11 + code.len() + index.len() + name.len() + message.len() + 1,
        ),
{
    let a = at + 4;
    let code_end = a + 1 + code.len();
    let index_end = code_end + 1 + index.len();
    let name_end = index_end + 3 + name.len();
    let nl = name_end + 2 + message.len();
    lemma_part_at(s, at, lit_ack());
    lemma_part_at(s, a + 1, code);
    lemma_part_at(s, code_end + 1, index);
    lemma_part_at(s, index_end + 3, name);
    lemma_part_at(s, name_end + 2, message);
    assert forall|i: int| at <= i < nl implies ByteClass::Line.holds(#[trigger] s[i]) by {
        if i < a {
            assert(s[at + (i - at)] == lit_ack()[i - at]);
        } else if a + 1 <= i < code_end {
            assert(s[a + 1 + (i - a - 1)] == code[i - a - 1]);
            assert(ByteClass::Digit.holds(code[i - a - 1]));
        } else if code_end + 1 <= i < index_end {
            assert(s[code_end + 1 + (i - code_end - 1)] == index[i - code_end - 1]);
            assert(ByteClass::Digit.holds(index[i - code_end - 1]));
        } else if index_end + 3 <= i < name_end {
            assert(s[index_end + 3 + (i - index_end - 3)] == name[i - index_end - 3]);
            assert(ByteClass::Verb.holds(name[i - index_end - 3]));
        } else if name_end + 2 <= i {
            assert(s[name_end + 2 + (i - name_end - 2)] == message[i - name_end - 2]);
        }
    }
    lemma_run_end_unique(s, at, ByteClass::Line, nl);
    lemma_run_over(s, a + 1, code, ByteClass::Digit);
    lemma_run_over(s, code_end + 1, index, ByteClass::Digit);
    lemma_run_over(s, index_end + 3, name, ByteClass::Verb);
    let line = s.subrange(at, nl);
    assert(line[3] == s[at + 3]);
    assert(s[at + 3] == lit_ack()[3]);
    assert(line != lit_ok());
    assert(line != lit_list_ok()) by {
        if line.len() == 7 {
            assert(lit_list_ok()[3] == 0x74);
        }
    }
    assert(scan_unit(s, at) == scan_ack(s, a, nl));
}

/// A line `ACK [<code>@<index>] {<command>} <message>` is an error, whatever
/// stands before and behind it: for every code and index written in decimal
/// digits that fit in 64 bits, every command name made of letters and `_`,
/// the empty one included, which stands for no command, and every message
/// of well-formed UTF-8 without a newline.
pub proof fn lemma_error_line(
    before: Seq<u8>,
    code: Seq<u8>,
    index: Seq<u8>,
    name: Seq<u8>,
    message: Seq<u8>,
    after: Seq<u8>,
)
    requires
        code.len() > 0,
        index.len() > 0,
        all_in(code, ByteClass::Digit),
        all_in(index, ByteClass::Digit),
        all_in(name, ByteClass::Verb),
        all_in(message, ByteClass::Line),
        decimal(code) <= u64::MAX,
        decimal(index) <= u64::MAX,
        valid_utf8(message),
    ensures
        scan_unit(
            before + error_line(code, index, name, message) + seq![0x0au8] + after,
            before.len() as int,
        ) == Scan::Found(
            Unit::Error(
                ErrorModel {
                    code: decimal(code) as u64,
                    command_index: decimal(index) as u64,
                    current_command: if name.len() == 0 {
                        None
                    } else {
                        Some(ascii_text(name))
                    },
                    message: decode_utf8(message),
                },
            ),
            before.len() + error_line(code, index, name, message).len() + 1int,
        ),
{
    lemma_error_line_parts(code, index, name, message);
    lemma_error_embedded(
        before,
        error_line(code, index, name, message),
        after,
        code,
        index,
        name,
        message,
    );
}

/// Whether `line` is made of the parts of an error line, each at its place.
spec fn error_parts(
    line: Seq<u8>,
    code: Seq<u8>,
    index: Seq<u8>,
    name: Seq<u8>,
    message: Seq<u8>,
) -> bool {
    let c = code.len() as int;
    let i = index.len() as int;
    let n = name.len() as int;
    let m = message.len() as int;
    &&& line.len() == 11 + c + i + n + m
    &&& line.subrange(0, 4) == lit_ack()
    &&& line[4] == 0x5b
    &&& line.subrange(5, 5 + c) == code
    &&& line[5 + c] == 0x40
    &&& line.subrange(6 + c, 6 + c + i) == index
    &&& line[6 + c + i] == 0x5d
    &&& line[7 + c + i] == 0x20
    &&& line[8 + c + i] == 0x7b
    &&& line.subrange(9 + c + i, 9 + c + i + n) == name
    &&& line[9 + c + i + n] == 0x7d
    &&& line[10 + c + i + n] == 0x20
    &&& line.subrange(11 + c + i + n, 11 + c + i + n + m) == message
}

/// A line made of the parts of an error line is an error wherever it
/// stands.
proof fn lemma_error_embedded(
    before: Seq<u8>,
    line: Seq<u8>,
    after: Seq<u8>,
    code: Seq<u8>,
    index: Seq<u8>,
    name: Seq<u8>,
    message: Seq<u8>,
)
    requires
        error_parts(line, code, index, name, message),
        code.len() > 0,
        index.len() > 0,
        all_in(code, ByteClass::Digit),
        all_in(index, ByteClass::Digit),
        all_in(name, ByteClass::Verb),
        all_in(message, ByteClass::Line),
        decimal(code) <= u64::MAX,
        decimal(index) <= u64::MAX,
        valid_utf8(message),
    ensures
        scan_unit(before + line + seq![0x0au8] + after, before.len() as int) == Scan::Found(
            Unit::Error(
                ErrorModel {
                    code: decimal(code) as u64,
                    command_index: decimal(index) as u64,
                    current_command: if name.len() == 0 {
                        None
                    } else {
                        Some(ascii_text(name))
                    },
                    message: decode_utf8(message),
                },
            ),
            before.len() + line.len() + 1int,
        ),
{
    let s = before + line + seq![0x0au8] + after;
    let at = before.len() as int;
    let c = code.len() as int;
    let i = index.len() as int;
    let n = name.len() as int;
    let m = message.len() as int;
    lemma_embedded(before, line, seq![0x0au8], after);
    assert(s[at + 4] == line[4]);
    assert(s[at + (5 + c)] == line[5 + c]);
    assert(s[at + (6 + c + i)] == line[6 + c + i]);
    assert(s[at + (7 + c + i)] == line[7 + c + i]);
    assert(s[at + (8 + c + i)] == line[8 + c + i]);
    assert(s[at + (9 + c + i + n)] == line[9 + c + i + n]);
    assert(s[at + (10 + c + i + n)] == line[10 + c + i + n]);
    assert(s.subrange(at + 0, at + 4) == line.subrange(0, 4));
    assert(s.subrange(at + 5, at + (5 + c)) == line.subrange(5, 5 + c));
    assert(s.subrange(at + (6 + c), at + (6 + c + i)) == line.subrange(6 + c, 6 + c + i));
    assert(s.subrange(at + (9 + c + i), at + (9 + c + i + n)) == line.subrange(
        9 + c + i,
        9 + c + i + n,
    ));
    assert(s.subrange(at + (11 + c + i + n), at + (11 + c + i + n + m)) == line.subrange(
        11 + c + i + n,
        11 + c + i + n + m,
    ));
    lemma_error_at(s, at, code, index, name, message);
}

/// Where the parts of an error line stand in it.
proof fn lemma_error_line_parts(code: Seq<u8>, index: Seq<u8>, name: Seq<u8>, message: Seq<u8>)
    ensures
        error_parts(error_line(code, index, name, message), code, index, name, message),
{
    let line = error_line(code, index, name, message);
    let c = code.len() as int;
    let i = index.len() as int;
    let n = name.len() as int;
    let m = message.len() as int;
    let up_to_code = lit_ack() + seq![0x5bu8] + code;
    let up_to_index = up_to_code + seq![0x40u8] + index;
    let up_to_name = up_to_index + seq![0x5du8, 0x20u8, 0x7bu8] + name;
    assert(line =~= up_to_name + seq![0x7du8, 0x20u8] + message);
    assert(up_to_code.len() == 5 + c);
    assert(up_to_index.len() == 6 + c + i);
    assert(up_to_name.len() == 9 + c + i + n);
    assert(line.subrange(0, 4) =~= lit_ack());
    assert(line.subrange(5, 5 + c) =~= code);
    assert(line.subrange(6 + c, 6 + c + i) =~= index);
    assert(line.subrange(9 + c + i, 9 + c + i + n) =~= name);
    assert(line.subrange(11 + c + i + n, 11 + c + i + n + m) =~= message);
}

/// What stands within a sequence stands there as it stands alone.
proof fn lemma_embedded(before: Seq<u8>, part: Seq<u8>, end: Seq<u8>, after: Seq<u8>)
    requires
        end.len() == 1,
    ensures
        forall|k: int|
            0 <= k < part.len() ==> #[trigger] (before + part + end + after)[before.len() + k]
                == part[k],
        forall|a: int, b: int|
            0 <= a <= b <= part.len() ==> #[trigger] (before + part + end + after).subrange(
                before.len() + a,
                before.len() + b,
            ) == part.subrange(a, b),
        (before + part + end + after).len() == before.len() + part.len() + 1 + after.len(),
        (before + part + end + after)[(before.len() + part.len()) as int] == end[0],
{
    let s = before + part + end + after;
    assert forall|a: int, b: int| 0 <= a <= b <= part.len() implies #[trigger] s.subrange(
        before.len() + a,
        before.len() + b,
    ) == part.subrange(a, b) by {
        assert(s.subrange(before.len() + a, before.len() + b) =~= part.subrange(a, b));
    }
}

/// A line `OK MPD <version>` at the front is a greeting, whatever follows
/// it: for every version of well-formed UTF-8 that is not empty and holds no
/// newline.
pub proof fn lemma_greeting_line(version: Seq<u8>, after: Seq<u8>)
    requires
        version.len() > 0,
        all_in(version, ByteClass::Line),
        valid_utf8(version),
    ensures
        scan_greeting(lit_greeting() + version + seq![0x0au8] + after) == GreetingScan::Found(
            decode_utf8(version),
            7int + version.len() + 1int,
        ),
{
    let s = lit_greeting() + version + seq![0x0au8] + after;
    assert(s.take(7) =~= lit_greeting());
    assert(s.subrange(7, 7int + version.len()) =~= version);
    assert(s[7int + version.len()] == 0x0a);
    lemma_run_over(s, 7, version, ByteClass::Line);
}

} // verus!
