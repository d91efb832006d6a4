//! The response assembler: drives the tokenizer over a growing buffer and
//! collects the units it finds into frames and responses.

use crate::buffer::buffered;
use crate::buffer::contents;
use crate::buffer::discard_front;
use crate::codec::MpdCodecError;
use crate::intern::clone_store;
use crate::intern::empty_store;
use crate::intern::interned;
use crate::intern::simple_intern;
use crate::model::FrameModel;
use crate::model::ResponseModel;
use crate::parser::lemma_run_end_bounds;
use crate::parser::scan_unit;
use crate::parser::ByteClass;
use crate::parser::Parsed;
use crate::parser::ParsedComponent;
use crate::parser::Scan;
use crate::parser::Unit;
use crate::response::clone_frames;
use crate::response::frame_models;
use crate::response::Error;
use crate::response::Frame;
use crate::response::Response;
use bytes::BytesMut;
use fnv::FnvHashSet;
use std::sync::Arc;
use vstd::prelude::*;
use vstd::slice::slice_to_vec;

verus! {

/// How far the assembly of one response has come.
pub struct Progress {
    /// The number of buffered bytes that have been scanned and absorbed.
    pub scanned: int,
    /// The frames that are complete, oldest first.
    pub frames: Seq<FrameModel>,
    /// The frame that is being collected.
    pub current: FrameModel,
    /// The field names met in this response so far: those whose allocation
    /// is shared by the fields that bear them.
    pub names: Set<Seq<char>>,
}

/// How one attempt to assemble a response ends.
pub enum Outcome {
    /// The buffer does not hold a whole response yet.
    Incomplete,
    /// The buffer holds bytes that break the grammar.
    Malformed,
    /// A response, and the number of bytes at the front of the buffer that
    /// it was read from.
    Complete(ResponseModel, int),
}

/// The assembler's state after an attempt, and how the attempt ended.
pub struct Step {
    pub progress: Progress,
    pub outcome: Outcome,
}

impl Progress {
    /// Nothing scanned, nothing collected.
    pub open spec fn fresh() -> Progress {
        Progress {
            scanned: 0,
            frames: Seq::empty(),
            current: FrameModel::empty(),
            names: Set::empty(),
        }
    }

    /// The state after a field was read up to `end`.
    pub open spec fn with_field(self, key: Seq<char>, value: Seq<char>, end: int) -> Progress {
        Progress {
            scanned: end,
            frames: self.frames,
            current: FrameModel {
                fields: self.current.fields.push((key, value)),
                binary: self.current.binary,
            },
            names: self.names.insert(key),
        }
    }

    /// The state after a binary payload was read up to `end`. A later
    /// payload replaces an earlier one of the same frame.
    pub open spec fn with_binary(self, payload: Seq<u8>, end: int) -> Progress {
        Progress {
            scanned: end,
            frames: self.frames,
            current: FrameModel { fields: self.current.fields, binary: Some(payload) },
            names: self.names,
        }
    }

    /// The state after the current frame was closed at `end`.
    pub open spec fn with_frame_closed(self, end: int) -> Progress {
        Progress {
            scanned: end,
            frames: self.frames.push(self.current),
            current: FrameModel::empty(),
            names: self.names,
        }
    }

    /// The frames of the response when it ends here. The frame that is being
    /// collected is the last of them, unless it is the empty frame that the
    /// end of the frame before it opened: a batch has one frame for each
    /// command, and the line that ends the response behind the last
    /// `list_OK` adds none.
    pub open spec fn frames_at_end(self) -> Seq<FrameModel> {
        if self.frames.len() > 0 && self.current.is_empty() {
            self.frames
        } else {
            self.frames.push(self.current)
        }
    }
}

/// A unit that is found ends behind the position it starts at, and within
/// the bytes.
pub proof fn lemma_unit_advances(s: Seq<u8>, at: int)
    ensures
        scan_unit(s, at) matches Scan::Found(_, end) ==> 0 <= at < end <= s.len(),
{
    if 0 <= at <= s.len() {
        lemma_run_end_bounds(s, at, ByteClass::Line);
    }
}

/// Assembles a response from `buf`, starting from the state `p`: units are
/// taken one after another from position `p.scanned` on, until one ends the
/// response, one is malformed, or the bytes run out. The bytes of a binary
/// payload belong to their unit and are never looked at as lines.
pub open spec fn assemble(p: Progress, buf: Seq<u8>) -> Step
    decreases buf.len() - p.scanned,
    via assemble_terminates
{
    match scan_unit(buf, p.scanned) {
        Scan::Incomplete => Step { progress: p, outcome: Outcome::Incomplete },
        Scan::Malformed => Step { progress: p, outcome: Outcome::Malformed },
        Scan::Found(Unit::Field { key, value }, end) => assemble(p.with_field(key, value, end), buf),
        Scan::Found(Unit::Binary(payload), end) => assemble(p.with_binary(payload, end), buf),
        Scan::Found(Unit::EndOfFrame, end) => assemble(p.with_frame_closed(end), buf),
        Scan::Found(Unit::EndOfResponse, end) => Step {
            progress: Progress::fresh(),
            outcome: Outcome::Complete(
                ResponseModel { frames: p.frames_at_end(), error: None },
                end,
            ),
        },
        Scan::Found(Unit::Error(error), end) => Step {
            progress: Progress::fresh(),
            outcome: Outcome::Complete(
                ResponseModel { frames: p.frames, error: Some(error) },
                end,
            ),
        },
    }
}

#[via_fn]
proof fn assemble_terminates(p: Progress, buf: Seq<u8>) {
    lemma_unit_advances(buf, p.scanned);
}

/// What one call of [`ResponseBuilder::advance`] returns.
#[derive(Debug)]
pub enum Assembled {
    /// The bytes do not hold a whole response yet.
    Incomplete,
    /// The bytes break the grammar.
    Malformed,
    /// A response, and the number of bytes at the front that it was read
    /// from.
    Complete(Response, usize),
}

impl View for Assembled {
    type V = Outcome;

    open spec fn view(&self) -> Outcome {
        match *self {
            Assembled::Incomplete => Outcome::Incomplete,
            Assembled::Malformed => Outcome::Malformed,
            Assembled::Complete(response, consumed) => Outcome::Complete(
                response@,
                consumed as int,
            ),
        }
    }
}

/// The state of the assembly of one response, kept between calls while its
/// bytes are still arriving.
#[derive(Debug)]
pub struct ResponseBuilder {
    /// How many bytes at the front of the buffer have been absorbed.
    cursor: usize,
    /// The frames that are complete, oldest first.
    frames: Vec<Frame>,
    /// The frame that is being collected.
    current: Frame,
    /// The field names met in this response, each allocated once.
    keys: FnvHashSet<Arc<str>>,
}

impl View for ResponseBuilder {
    type V = Progress;

    closed spec fn view(&self) -> Progress {
        Progress {
            scanned: self.cursor as int,
            frames: frame_models(self.frames@),
            current: self.current@,
            names: interned(self.keys),
        }
    }
}

impl Clone for ResponseBuilder {
    fn clone(&self) -> (res: ResponseBuilder)
        ensures
            res@ == self@,
    {
        proof {
            use_type_invariant(self);
        }
        let res = ResponseBuilder {
            cursor: self.cursor,
            frames: clone_frames(&self.frames),
            current: self.current.clone(),
            keys: clone_store(&self.keys),
        };
        assert(frame_models(res.frames@) =~= frame_models(self.frames@));
        res
    }
}

impl ResponseBuilder {
    #[verifier::type_invariant]
    spec fn well_formed(self) -> bool {
        self.frames@.len() <= self.cursor
    }

    /// A builder that has seen no bytes.
    pub fn new() -> (builder: ResponseBuilder)
        ensures
            builder@ == Progress::fresh(),
    {
        let builder = ResponseBuilder {
            cursor: 0,
            frames: Vec::new(),
            current: Frame::empty(),
            keys: empty_store(),
        };
        assert(builder@.frames =~= Seq::empty());
        builder
    }

    /// Takes up the assembly where the last call left it and carries it as
    /// far as `src` allows. `src` holds all bytes that have arrived and have
    /// not been consumed, those already scanned included.
    pub fn advance(&mut self, src: &[u8]) -> (out: Assembled)
        ensures
            final(self)@ == assemble(old(self)@, src@).progress,
            out@ == assemble(old(self)@, src@).outcome,
            out matches Assembled::Complete(response, consumed) ==> response@.inhabited()
                && consumed <= src@.len(),
    {
        proof {
            use_type_invariant(&*self);
        }
        let mut taken = ResponseBuilder::new();
        core::mem::swap(self, &mut taken);
        let ResponseBuilder { mut cursor, mut frames, mut current, mut keys } = taken;
        let ghost goal = assemble(old(self)@, src@);
        loop
            invariant
                frames@.len() <= cursor,
                self@ == Progress::fresh(),
                goal == assemble(old(self)@, src@),
                goal == assemble(
                    Progress {
                        scanned: cursor as int,
                        frames: frame_models(frames@),
                        current: current@,
                        names: interned(keys),
                    },
                    src@,
                ),
            decreases src@.len() - cursor,
        {
            let ghost here = Progress {
                scanned: cursor as int,
                frames: frame_models(frames@),
                current: current@,
                names: interned(keys),
            };
            proof {
                lemma_unit_advances(src@, cursor as int);
            }
            match ParsedComponent::parse(src, cursor) {
                Parsed::Incomplete => {
                    *self = ResponseBuilder { cursor, frames, current, keys };
                    return Assembled::Incomplete;
                },
                Parsed::Malformed => {
                    *self = ResponseBuilder { cursor, frames, current, keys };
                    return Assembled::Malformed;
                },
                Parsed::Found(component, end) => {
                    match component {
                        ParsedComponent::Field { key, value } => {
                            let shared = simple_intern(&mut keys, key);
                            current.values.push((shared, value.to_owned()));
                            assert(current@.fields =~= here.current.fields.push((key@, value@)));
                        },
                        ParsedComponent::BinaryField(payload) => {
                            current.binary = Some(slice_to_vec(payload));
                            assert(current@.fields =~= here.current.fields);
                        },
                        ParsedComponent::EndOfFrame => {
                            frames.push(current);
                            current = Frame::empty();
                            assert(frame_models(frames@) =~= here.frames.push(here.current));
                        },
                        ParsedComponent::EndOfResponse => {
                            if frames.len() == 0 || !current.is_empty() {
                                frames.push(current);
                                assert(frame_models(frames@) =~= here.frames.push(here.current));
                            }
                            let response = Response::new(frames, None);
                            return Assembled::Complete(response, end);
                        },
                        ParsedComponent::Error(e) => {
                            let current_command = match e.current_command {
                                Some(name) => Some(name.to_owned()),
                                None => None,
                            };
                            let error = Error {
                                code: e.code,
                                command_index: e.command_index,
                                current_command,
                                message: e.message.to_owned(),
                            };
                            let response = Response::new(frames, Some(error));
                            return Assembled::Complete(response, end);
                        },
                    }
                    cursor = end;
                },
            }
        }
    }

    /// Takes the next response from the front of `src`; see
    /// [`MpdCodec::decode`](crate::codec::MpdCodec::decode).
    pub fn parse(&mut self, src: &mut BytesMut) -> (res: Result<Option<Response>, MpdCodecError>)
        ensures
            final(self)@ == assemble(old(self)@, buffered(*old(src))).progress,
            match assemble(old(self)@, buffered(*old(src))).outcome {
                Outcome::Incomplete => {
                    &&& res matches Ok(None)
                    &&& buffered(*final(src)) == buffered(*old(src))
                },
                Outcome::Malformed => {
                    &&& res matches Err(MpdCodecError::InvalidMessage)
                    &&& buffered(*final(src)) == buffered(*old(src))
                },
                Outcome::Complete(response, consumed) => {
                    &&& res matches Ok(Some(r))
                    &&& r@ == response
                    &&& r@.inhabited()
                    &&& 0 <= consumed <= buffered(*old(src)).len()
                    &&& buffered(*final(src)) == buffered(*old(src)).skip(consumed)
                },
            },
    {
        let assembled = self.advance(contents(src));
        match assembled {
            Assembled::Incomplete => Ok(None),
            Assembled::Malformed => Err(MpdCodecError::InvalidMessage),
            Assembled::Complete(response, consumed) => {
                discard_front(src, consumed);
                Ok(Some(response))
            },
        }
    }
}

} // verus!
