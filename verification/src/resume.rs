//! Why decoding can be taken up again: what the tokenizer has decided on
//! some bytes, it decides in the same way on every buffer that begins with
//! those bytes.

use crate::assembler::assemble;
use crate::assembler::lemma_unit_advances;
use crate::assembler::Outcome;
use crate::assembler::Progress;
use crate::parser::lemma_run_end_bounds;
use crate::parser::lemma_run_end_unique;
use crate::parser::run_end;
use crate::parser::scan_ack;
use crate::parser::scan_binary;
use crate::parser::scan_field;
use crate::parser::scan_unit;
use crate::parser::ByteClass;
use crate::parser::Scan;
use crate::parser::Unit;
use vstd::prelude::*;

verus! {

/// A run that ends within `s` ends at the same place in every sequence that
/// begins with `s`; one that reaches the end of `s` does not end earlier
/// there.
pub proof fn lemma_run_end_extends(s: Seq<u8>, t: Seq<u8>, from: int, class: ByteClass)
    requires
        s.is_prefix_of(t),
        0 <= from <= s.len(),
    ensures
        run_end(s, from, class) < s.len() ==> run_end(t, from, class) == run_end(s, from, class),
        run_end(s, from, class) >= s.len() ==> run_end(t, from, class) >= s.len(),
{
    let end = run_end(s, from, class);
    lemma_run_end_bounds(s, from, class);
    assert forall|i: int| 0 <= i < s.len() implies s[i] == t[i] by {
        assert(s[i] == t.subrange(0, s.len() as int)[i]);
    }
    if end < s.len() {
        lemma_run_end_unique(t, from, class, end);
    } else {
        lemma_run_end_bounds(t, from, class);
    }
}

/// Within a line whose newline `s` holds, a run of bytes that are no
/// newlines ends at the same place in every sequence that begins with `s`.
proof fn lemma_run_within_line(s: Seq<u8>, t: Seq<u8>, nl: int, from: int, class: ByteClass)
    requires
        s.is_prefix_of(t),
        0 <= from <= nl < s.len(),
        s[nl] == 0x0a,
        !class.holds(0x0a),
    ensures
        run_end(t, from, class) == run_end(s, from, class),
        from <= run_end(s, from, class) <= nl,
{
    lemma_run_end_bounds(s, from, class);
    lemma_run_end_extends(s, t, from, class);
}

/// The bytes that two sequences share are the same in both.
proof fn lemma_shared_bytes(s: Seq<u8>, t: Seq<u8>)
    requires
        s.is_prefix_of(t),
    ensures
        forall|i: int| 0 <= i < s.len() ==> s[i] == t[i],
        forall|a: int, b: int|
            0 <= a <= b <= s.len() ==> #[trigger] s.subrange(a, b) == t.subrange(a, b),
{
    assert forall|i: int| 0 <= i < s.len() implies s[i] == t[i] by {
        assert(s[i] == t.subrange(0, s.len() as int)[i]);
    }
    assert forall|a: int, b: int| 0 <= a <= b <= s.len() implies #[trigger] s.subrange(a, b)
        == t.subrange(a, b) by {
        assert(s.subrange(a, b) =~= t.subrange(a, b));
    }
}

/// A unit that the tokenizer has found in `s`, or a breach of the grammar
/// that it has found there, it finds in every sequence that begins with `s`.
pub proof fn lemma_scan_unit_extends(s: Seq<u8>, t: Seq<u8>, at: int)
    requires
        s.is_prefix_of(t),
    ensures
        !(scan_unit(s, at) is Incomplete) ==> scan_unit(t, at) == scan_unit(s, at),
{
    if !(scan_unit(s, at) is Incomplete) {
        let nl = run_end(s, at, ByteClass::Line);
        assert(0 <= at && nl < s.len());
        lemma_run_end_bounds(s, at, ByteClass::Line);
        lemma_run_end_extends(s, t, at, ByteClass::Line);
        lemma_shared_bytes(s, t);
        assert(run_end(t, at, ByteClass::Line) == nl);
        lemma_run_within_line(s, t, nl, at, ByteClass::Key);
        let colon = run_end(s, at, ByteClass::Key);
        if colon + 2 <= nl {
            lemma_run_within_line(s, t, nl, colon + 2, ByteClass::Digit);
        }
        if at + 4 < nl {
            let a = at + 4;
            lemma_run_within_line(s, t, nl, a + 1, ByteClass::Digit);
            let code_end = run_end(s, a + 1, ByteClass::Digit);
            if code_end < nl {
                lemma_run_within_line(s, t, nl, code_end + 1, ByteClass::Digit);
                let index_end = run_end(s, code_end + 1, ByteClass::Digit);
                if index_end + 3 <= nl {
                    lemma_run_within_line(s, t, nl, index_end + 3, ByteClass::Verb);
                }
            }
        }
        assert(scan_binary(t, colon + 2, nl) == scan_binary(s, colon + 2, nl) || scan_binary(
            s,
            colon + 2,
            nl,
        ) is Incomplete || colon + 2 > nl);
        assert(scan_field(t, at, nl) == scan_field(s, at, nl) || scan_field(s, at, nl) is Incomplete);
        assert(scan_ack(t, at + 4, nl) == scan_ack(s, at + 4, nl));
    }
}

/// A unit that ends within `s` is found in `s` as it is found in a longer
/// sequence that begins with `s`.
pub proof fn lemma_scan_unit_restricts(s: Seq<u8>, t: Seq<u8>, at: int)
    requires
        s.is_prefix_of(t),
    ensures
        scan_unit(t, at) matches Scan::Found(_, end) && end <= s.len() ==> scan_unit(s, at)
            == scan_unit(t, at),
        scan_unit(t, at) matches Scan::Found(_, end) && end > s.len() ==> scan_unit(s, at)
            is Incomplete,
{
    lemma_scan_unit_extends(s, t, at);
    lemma_unit_advances(s, at);
    lemma_unit_advances(t, at);
    if let Scan::Found(_, end) = scan_unit(t, at) {
        if end <= s.len() && scan_unit(s, at) is Incomplete {
            let nl = run_end(t, at, ByteClass::Line);
            lemma_run_end_bounds(t, at, ByteClass::Line);
            lemma_run_end_bounds(s, at, ByteClass::Line);
            lemma_run_end_extends(s, t, at, ByteClass::Line);
            lemma_shared_bytes(s, t);
            assert(nl < end);
            assert(run_end(s, at, ByteClass::Line) == nl);
            lemma_run_within_line(s, t, nl, at, ByteClass::Key);
            let colon = run_end(s, at, ByteClass::Key);
            if colon + 2 <= nl {
                lemma_run_within_line(s, t, nl, colon + 2, ByteClass::Digit);
            }
            assert(scan_field(s, at, nl) is Incomplete);
            assert(scan_binary(s, colon + 2, nl) is Incomplete);
            assert(false);
        }
    }
}

/// What an attempt has decided on `s`, it decides on every buffer that
/// begins with `s`; and an attempt that `s` left incomplete is taken up on
/// such a buffer from where it stopped, with the result that a fresh attempt
/// on that buffer has.
pub proof fn lemma_assemble_extends(p: Progress, s: Seq<u8>, t: Seq<u8>)
    requires
        s.is_prefix_of(t),
    ensures
        !(assemble(p, s).outcome is Incomplete) ==> assemble(p, t) == assemble(p, s),
        assemble(p, s).outcome is Incomplete ==> assemble(assemble(p, s).progress, t) == assemble(
            p,
            t,
        ),
    decreases s.len() - p.scanned,
{
    lemma_scan_unit_extends(s, t, p.scanned);
    lemma_unit_advances(s, p.scanned);
    match scan_unit(s, p.scanned) {
        Scan::Found(Unit::Field { key, value }, end) => {
            lemma_assemble_extends(p.with_field(key, value, end), s, t);
        },
        Scan::Found(Unit::Binary(payload), end) => {
            lemma_assemble_extends(p.with_binary(payload, end), s, t);
        },
        Scan::Found(Unit::EndOfFrame, end) => {
            lemma_assemble_extends(p.with_frame_closed(end), s, t);
        },
        _ => {},
    }
}

/// No response is returned before its last byte has arrived: on a buffer
/// that ends before the end of the response, the attempt is incomplete.
pub proof fn lemma_incomplete_before_end(p: Progress, s: Seq<u8>, t: Seq<u8>)
    requires
        s.is_prefix_of(t),
        assemble(p, t).outcome matches Outcome::Complete(_, consumed) && s.len() < consumed,
    ensures
        assemble(p, s).outcome is Incomplete,
    decreases t.len() - p.scanned,
{
    lemma_scan_unit_restricts(s, t, p.scanned);
    lemma_unit_advances(t, p.scanned);
    match scan_unit(t, p.scanned) {
        Scan::Found(Unit::Field { key, value }, end) => {
            if end <= s.len() {
                lemma_incomplete_before_end(p.with_field(key, value, end), s, t);
            }
        },
        Scan::Found(Unit::Binary(payload), end) => {
            if end <= s.len() {
                lemma_incomplete_before_end(p.with_binary(payload, end), s, t);
            }
        },
        Scan::Found(Unit::EndOfFrame, end) => {
            if end <= s.len() {
                lemma_incomplete_before_end(p.with_frame_closed(end), s, t);
            }
        },
        _ => {},
    }
}

} // verus!
