//! What holds of every buffer and every attempt to decode it: laws of the
//! assembly, stated over its mathematical description.

use crate::assembler::assemble;
use crate::assembler::lemma_unit_advances;
use crate::assembler::Outcome;
use crate::assembler::Progress;
use crate::assembler::Step;
use crate::parser::scan_unit;
use crate::parser::Scan;
use crate::parser::Unit;
use crate::resume::lemma_assemble_extends;
use vstd::prelude::*;

verus! {

/// A response that is returned holds a frame or an error. It was read from
/// bytes behind those scanned before, and the assembly starts afresh behind
/// it.
pub proof fn lemma_complete_is_inhabited(p: Progress, buf: Seq<u8>)
    ensures
        assemble(p, buf).outcome matches Outcome::Complete(response, consumed) ==> {
            &&& response.inhabited()
            &&& p.scanned < consumed <= buf.len()
            &&& assemble(p, buf).progress == Progress::fresh()
        },
    decreases buf.len() - p.scanned,
{
    lemma_unit_advances(buf, p.scanned);
    match scan_unit(buf, p.scanned) {
        Scan::Found(Unit::Field { key, value }, end) => {
            lemma_complete_is_inhabited(p.with_field(key, value, end), buf);
        },
        Scan::Found(Unit::Binary(payload), end) => {
            lemma_complete_is_inhabited(p.with_binary(payload, end), buf);
        },
        Scan::Found(Unit::EndOfFrame, end) => {
            lemma_complete_is_inhabited(p.with_frame_closed(end), buf);
        },
        _ => {},
    }
}

/// One frame for each command. Where the line that ends the response
/// follows a `list_OK` directly, the response holds the frames that were
/// closed and no further one; where it ends the first frame, that frame is
/// the response's only one, empty or not; and a frame that holds something
/// is never left out.
pub proof fn lemma_frames_of_a_batch(p: Progress, buf: Seq<u8>)
    requires
        scan_unit(buf, p.scanned) matches Scan::Found(Unit::EndOfResponse, _),
    ensures
        assemble(p, buf).outcome matches Outcome::Complete(response, _) && response.error is None
            && response.frames == p.frames_at_end(),
        p.frames.len() > 0 && p.current.is_empty() ==> p.frames_at_end() == p.frames,
        p.frames.len() == 0 ==> p.frames_at_end() == seq![p.current],
        !p.current.is_empty() ==> p.frames_at_end() == p.frames.push(p.current),
{
    if p.frames.len() == 0 {
        assert(p.frames.push(p.current) =~= seq![p.current]);
    }
}

/// The bytes of a sequence of chunks, one behind the other.
pub open spec fn joined(chunks: Seq<Seq<u8>>) -> Seq<u8>
    decreases chunks.len(),
{
    if chunks.len() == 0 {
        Seq::empty()
    } else {
        chunks[0] + joined(chunks.drop_first())
    }
}

/// Decoding while bytes arrive: an attempt on what the buffer holds, and,
/// for as long as the attempts stay incomplete, another one each time the
/// next chunk has been put behind it.
pub open spec fn deliver(p: Progress, buf: Seq<u8>, chunks: Seq<Seq<u8>>) -> Step
    decreases chunks.len(),
{
    let step = assemble(p, buf);
    if chunks.len() == 0 || !(step.outcome is Incomplete) {
        step
    } else {
        deliver(step.progress, buf + chunks[0], chunks.drop_first())
    }
}

/// Decoding is resumable. However the bytes are cut into chunks, chunks of
/// a single byte and empty ones included, decoding while they arrive ends as
/// one attempt on all of them ends: with the same response read from the
/// same number of bytes, or the same refusal, and in the same state.
pub proof fn lemma_delivery_in_chunks(p: Progress, buf: Seq<u8>, chunks: Seq<Seq<u8>>)
    ensures
        deliver(p, buf, chunks) == assemble(p, buf + joined(chunks)),
    decreases chunks.len(),
{
    let whole = buf + joined(chunks);
    if chunks.len() == 0 {
        assert(whole =~= buf);
    } else {
        assert(buf.is_prefix_of(whole)) by {
            assert(buf =~= whole.subrange(0, buf.len() as int));
        }
        lemma_assemble_extends(p, buf, whole);
        if assemble(p, buf).outcome is Incomplete {
            lemma_delivery_in_chunks(
                assemble(p, buf).progress,
                buf + chunks[0],
                chunks.drop_first(),
            );
            assert(whole =~= (buf + chunks[0]) + joined(chunks.drop_first()));
        }
    }
}

/// Pipelining. When a buffer begins with a whole response, an attempt
/// returns that response whatever follows it, and leaves exactly what
/// follows it; the assembly is then as fresh as before the first byte, so
/// that the next attempt reads the next response.
pub proof fn lemma_pipelined(first: Seq<u8>, second: Seq<u8>)
    requires
        assemble(Progress::fresh(), first).outcome matches Outcome::Complete(_, consumed)
            && consumed == first.len(),
    ensures
        assemble(Progress::fresh(), first + second) == assemble(Progress::fresh(), first),
        assemble(Progress::fresh(), first + second).progress == Progress::fresh(),
        (first + second).skip(first.len() as int) == second,
{
    assert(first.is_prefix_of(first + second)) by {
        assert(first =~= (first + second).subrange(0, first.len() as int));
    }
    lemma_assemble_extends(Progress::fresh(), first, first + second);
    lemma_complete_is_inhabited(Progress::fresh(), first);
    assert((first + second).skip(first.len() as int) =~= second);
}

} // verus!
