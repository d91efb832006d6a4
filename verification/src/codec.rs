//! The codec: handshake, encoding of commands and decoding of responses.
//!
//! The codec performs no input or output. Its caller reads bytes from the
//! transport into a buffer and calls [`MpdCodec::decode`] until a response
//! is returned; what [`MpdCodec::encode`] appends to a buffer is what the
//! caller sends.

use crate::assembler::assemble;
use crate::assembler::Outcome;
use crate::assembler::Progress;
use crate::assembler::ResponseBuilder;
use crate::buffer::buffered;
use crate::buffer::contents;
use crate::command::lemma_lines_single;
use crate::text::lemma_encode_concat;
use crate::text::lemma_encode_prefix;
use crate::command::wire_text;
use crate::command::Command;
use crate::command::CommandList;
use crate::parser::greeting;
use crate::parser::scan_greeting;
use crate::parser::GreetingScan;
use crate::parser::ParsedGreeting;
use crate::response::Response;
use crate::text::utf8_len;
use bytes::BytesMut;
use vstd::prelude::*;
use vstd::std_specs::convert::FromSpecImpl;
use vstd::utf8::encode_utf8;

verus! {

/// `std::io::Error`, which the codec only carries. Nothing is claimed of
/// it.
#[verifier::external_type_specification]
#[verifier::external_body]
pub struct ExIoError(std::io::Error);

/// Errors which can occur during [`MpdCodec`] operation.
#[derive(Debug)]
pub enum MpdCodecError {
    /// IO error occurred.
    Io(std::io::Error),
    /// The greeting the server sent on connecting is not a valid one.
    InvalidGreeting,
    /// A message could not be parsed successfully.
    InvalidMessage,
}

impl From<std::io::Error> for MpdCodecError {
    fn from(e: std::io::Error) -> (res: MpdCodecError) {
        MpdCodecError::Io(e)
    }
}

impl FromSpecImpl<std::io::Error> for MpdCodecError {
    open spec fn obeys_from_spec() -> bool {
        true
    }

    open spec fn from_spec(e: std::io::Error) -> MpdCodecError {
        MpdCodecError::Io(e)
    }
}

impl MpdCodecError {
    /// What the error says in words.
    pub open spec fn text(self) -> Seq<char> {
        match self {
            MpdCodecError::Io(_) => "IO error"@,
            MpdCodecError::InvalidGreeting => "invalid greeting"@,
            MpdCodecError::InvalidMessage => "invalid message"@,
        }
    }

    /// Describes the error in words.
    pub fn message(&self) -> (res: String)
        ensures
            res@ == self.text(),
    {
        match self {
            MpdCodecError::Io(_) => "IO error".to_owned(),
            MpdCodecError::InvalidGreeting => "invalid greeting".to_owned(),
            MpdCodecError::InvalidMessage => "invalid message".to_owned(),
        }
    }

    /// The IO error that caused this one, if one did.
    pub fn source(&self) -> (res: Option<&std::io::Error>)
        ensures
            match *self {
                MpdCodecError::Io(e) => res == Some(&e),
                _ => res is None,
            },
    {
        match self {
            MpdCodecError::Io(e) => Some(e),
            _ => None,
        }
    }
}

/// The number of bytes within which a greeting has to be complete.
pub const GREETING_CAPACITY: usize = 32;

/// Codec for the protocol: the state of one connection.
#[derive(Debug)]
pub struct MpdCodec {
    current_response: ResponseBuilder,
    protocol_version: String,
}

impl Clone for MpdCodec {
    fn clone(&self) -> (res: MpdCodec)
        ensures
            res.progress() == self.progress(),
            res.version() == self.version(),
    {
        MpdCodec {
            current_response: self.current_response.clone(),
            protocol_version: self.protocol_version.clone(),
        }
    }
}

impl MpdCodec {
    /// How far the assembly of the response that is arriving has come.
    pub closed spec fn progress(&self) -> Progress {
        self.current_response@
    }

    /// The protocol version that the server named in its greeting.
    pub closed spec fn version(&self) -> Seq<char> {
        self.protocol_version@
    }

    /// Decides on the bytes received so far on a new connection. Once they
    /// hold a whole greeting, the codec for the connection is returned with
    /// the number of bytes that the greeting took. While they do not, more
    /// are asked for with `None`, unless they already depart from a greeting
    /// or `GREETING_CAPACITY` bytes have arrived without completing one.
    pub fn handshake(received: &[u8]) -> (res: Result<Option<(MpdCodec, usize)>, MpdCodecError>)
        ensures
            match scan_greeting(received@) {
                GreetingScan::Found(version, end) => {
                    &&& res matches Ok(Some(connected))
                    &&& connected.0.version() == version
                    &&& connected.0.progress() == Progress::fresh()
                    &&& connected.1 == end
                },
                GreetingScan::Malformed => res matches Err(MpdCodecError::InvalidGreeting),
                GreetingScan::Incomplete => if received@.len() >= GREETING_CAPACITY {
                    res matches Err(MpdCodecError::InvalidGreeting)
                } else {
                    res matches Ok(None)
                },
            },
    {
        match greeting(received) {
            ParsedGreeting::Found(version, end) => {
                let codec = MpdCodec {
                    current_response: ResponseBuilder::new(),
                    protocol_version: version.to_owned(),
                };
                Ok(Some((codec, end)))
            },
            ParsedGreeting::Malformed => Err(MpdCodecError::InvalidGreeting),
            ParsedGreeting::Incomplete => {
                if received.len() >= GREETING_CAPACITY {
                    Err(MpdCodecError::InvalidGreeting)
                } else {
                    Ok(None)
                }
            },
        }
    }

    /// Returns the protocol version the server is speaking.
    pub fn protocol_version(&self) -> (version: &str)
        ensures
            version@ == self.version(),
    {
        self.protocol_version.as_str()
    }

    /// Appends the wire form of a command list to `dst`.
    pub fn encode(&mut self, command: CommandList, dst: &mut BytesMut) -> (res: Result<
        (),
        MpdCodecError,
    >)
        requires
            buffered(*old(dst)).len() + utf8_len(wire_text(command@)) <= isize::MAX,
        ensures
            res is Ok,
            buffered(*final(dst)) == buffered(*old(dst)) + encode_utf8(wire_text(command@)),
            *final(self) == *old(self),
    {
        command.render(dst);
        Ok(())
    }

    /// Appends the wire form of a single command to `dst`.
    pub fn encode_command(&mut self, command: Command, dst: &mut BytesMut) -> (res: Result<
        (),
        MpdCodecError,
    >)
        requires
            buffered(*old(dst)).len() + utf8_len(wire_text(seq![command@])) <= isize::MAX,
        ensures
            res is Ok,
            buffered(*final(dst)) == buffered(*old(dst)) + encode_utf8(
                wire_text(seq![command@]),
            ),
            *final(self) == *old(self),
    {
        let command_list = CommandList::new(command);
        self.encode(command_list, dst)
    }

    /// Appends the wire form of a command list to `dst` where `dst` has room
    /// for it: where the length of `dst` stays within `isize::MAX`, the
    /// largest size of a buffer. Where it has not, the list is given back
    /// and `dst` stays as it was.
    pub fn try_encode(&mut self, command: CommandList, dst: &mut BytesMut) -> (res: Result<
        (),
        CommandList,
    >)
        ensures
            *final(self) == *old(self),
            match res {
                Ok(_) => {
                    &&& buffered(*old(dst)).len() + utf8_len(wire_text(command@)) <= isize::MAX
                    &&& buffered(*final(dst)) == buffered(*old(dst)) + encode_utf8(
                        wire_text(command@),
                    )
                },
                Err(given_back) => {
                    &&& buffered(*old(dst)).len() + utf8_len(wire_text(command@)) > isize::MAX
                    &&& given_back == command
                    &&& buffered(*final(dst)) == buffered(*old(dst))
                },
            },
    {
        let wire = command.to_wire();
        let needed: usize = wire.as_str().as_bytes().len();
        let held: usize = contents(dst).len();
        let limit: usize = isize::MAX as usize;
        if held <= limit && needed <= limit - held {
            let _ = self.encode(command, dst);
            Ok(())
        } else {
            Err(command)
        }
    }

    /// Appends the wire form of a single command to `dst` where `dst` has
    /// room for it, as [`MpdCodec::try_encode`] does for a list. Where it
    /// has not, the command is given back and `dst` stays as it was.
    pub fn try_encode_command(&mut self, command: Command, dst: &mut BytesMut) -> (res: Result<
        (),
        Command,
    >)
        ensures
            *final(self) == *old(self),
            match res {
                Ok(_) => {
                    &&& buffered(*old(dst)).len() + utf8_len(wire_text(seq![command@]))
                        <= isize::MAX
                    &&& buffered(*final(dst)) == buffered(*old(dst)) + encode_utf8(
                        wire_text(seq![command@]),
                    )
                },
                Err(given_back) => {
                    &&& buffered(*old(dst)).len() + utf8_len(wire_text(seq![command@]))
                        > isize::MAX
                    &&& given_back == command
                    &&& buffered(*final(dst)) == buffered(*old(dst))
                },
            },
    {
        let needed: usize = command.text().as_bytes().len();
        let held: usize = contents(dst).len();
        let limit: usize = isize::MAX as usize;
        proof {
            lemma_encode_concat(command@, seq!['\n']);
            lemma_encode_prefix(seq!['\n'], 0);
            assert(seq!['\n'].take(1) =~= seq!['\n']);
            assert(seq!['\n'].take(0) =~= Seq::<char>::empty());
            assert(command@.push('\n') =~= command@ + seq!['\n']);
            lemma_lines_single(command@);
        }
        if held < limit && needed <= limit - held - 1 {
            let _ = self.encode_command(command, dst);
            Ok(())
        } else {
            Err(command)
        }
    }

    /// Takes the next response from the front of `src`, which holds the bytes
    /// that have arrived and have not been consumed.
    ///
    /// While `src` does not hold a whole response, `None` is returned and
    /// `src` is left as it is; what has been read is remembered, and the next
    /// call goes on behind it. A whole response is removed from `src`, and
    /// what follows it stays. Bytes that break the grammar give
    /// `InvalidMessage` and stay in `src`.
    pub fn decode(&mut self, src: &mut BytesMut) -> (res: Result<Option<Response>, MpdCodecError>)
        ensures
            final(self).version() == old(self).version(),
            final(self).progress() == assemble(old(self).progress(), buffered(*old(src))).progress,
            match assemble(old(self).progress(), buffered(*old(src))).outcome {
                Outcome::Incomplete => {
                    &&& res matches Ok(None)
                    &&& buffered(*final(src)) == buffered(*old(src))
                },
                Outcome::Malformed => {
                    &&& res matches Err(MpdCodecError::InvalidMessage)
                    &&& buffered(*final(src)) == buffered(*old(src))
                },
                Outcome::Complete(response, consumed) => {
                    &&& res matches Ok(Some(r))
                    &&& r@ == response
                    &&& r@.inhabited()
                    &&& 0 <= consumed <= buffered(*old(src)).len()
                    &&& buffered(*final(src)) == buffered(*old(src)).skip(consumed)
                },
            },
    {
        self.current_response.parse(src)
    }
}

} // verus!
