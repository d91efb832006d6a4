//! Complete responses.

use crate::buffer::buffer_from;
use crate::buffer::buffered;
use crate::model::groups_fields;
use crate::model::first_with_key;
use crate::model::lemma_first_with_key_bounds;
use crate::model::lemma_first_with_key_grows;
use crate::model::lemma_first_with_key_unique;
use crate::model::values_with_key;
use crate::model::ErrorModel;
use crate::model::FrameModel;
use crate::model::ResponseModel;
use crate::intern::empty_store;
use crate::intern::simple_intern;
use crate::parser;
use crate::text::same_text;
use crate::text::shared_clone;
use bytes::BytesMut;
use std::sync::Arc;
use vstd::prelude::*;
use vstd::slice::slice_to_vec;

verus! {

/// Data in a successful response.
#[derive(Debug, PartialEq, Eq)]
pub struct Frame {
    /// Key-value pairs. Keys can repeat arbitrarily often.
    pub values: Vec<(Arc<str>, String)>,
    /// Binary frame.
    pub binary: Option<Vec<u8>>,
}

/// Data in an error.
#[derive(Debug, PartialEq, Eq)]
pub struct Error {
    /// Error code, as the server defines it.
    pub code: u64,
    /// Index of the command in a command list that caused this error. 0 when
    /// not in a command list.
    pub command_index: u64,
    /// Command that returned the error, if applicable.
    pub current_command: Option<String>,
    /// Message describing the error.
    pub message: String,
}

/// What one field stands for: its key and its value as text.
pub open spec fn field_model(field: (Arc<str>, String)) -> (Seq<char>, Seq<char>) {
    ((*field.0)@, field.1@)
}

impl View for Frame {
    type V = FrameModel;

    open spec fn view(&self) -> FrameModel {
        FrameModel {
            fields: Seq::new(self.values@.len(), |i: int| field_model(self.values@[i])),
            binary: match self.binary {
                Some(bytes) => Some(bytes@),
                None => None,
            },
        }
    }
}

impl View for Error {
    type V = ErrorModel;

    open spec fn view(&self) -> ErrorModel {
        ErrorModel {
            code: self.code,
            command_index: self.command_index,
            current_command: match self.current_command {
                Some(name) => Some(name@),
                None => None,
            },
            message: self.message@,
        }
    }
}

impl Clone for Frame {
    fn clone(&self) -> (res: Frame)
        ensures
            res@ == self@,
    {
        let mut values: Vec<(Arc<str>, String)> = Vec::new();
        let mut i: usize = 0;
        while i < self.values.len()
            invariant
                0 <= i <= self.values@.len(),
                values@.len() == i,
                forall|j: int|
                    0 <= j < i ==> field_model(#[trigger] values@[j]) == field_model(
                        self.values@[j],
                    ),
            decreases self.values@.len() - i,
        {
            values.push((shared_clone(&self.values[i].0), self.values[i].1.clone()));
            i = i + 1;
        }
        let binary = match &self.binary {
            Some(bytes) => Some(slice_to_vec(bytes.as_slice())),
            None => None,
        };
        let res = Frame { values, binary };
        assert(res@.fields =~= self@.fields);
        res
    }
}

impl Clone for Error {
    fn clone(&self) -> (res: Error)
        ensures
            res@ == self@,
    {
        let current_command = match &self.current_command {
            Some(name) => Some(name.clone()),
            None => None,
        };
        Error {
            code: self.code,
            command_index: self.command_index,
            current_command,
            message: self.message.clone(),
        }
    }
}

/// Clones frames one by one, in their order.
pub(crate) fn clone_frames(frames: &Vec<Frame>) -> (res: Vec<Frame>)
    ensures
        res@.len() == frames@.len(),
        forall|i: int| 0 <= i < frames@.len() ==> (#[trigger] res@[i])@ == frames@[i]@,
{
    let mut res: Vec<Frame> = Vec::new();
    let mut i: usize = 0;
    while i < frames.len()
        invariant
            0 <= i <= frames@.len(),
            res@.len() == i,
            forall|j: int| 0 <= j < i ==> (#[trigger] res@[j])@ == frames@[j]@,
        decreases frames@.len() - i,
    {
        res.push(frames[i].clone());
        i = i + 1;
    }
    res
}

/// Clones the error of a response, where it has one.
fn clone_error(error: &Option<Error>) -> (res: Option<Error>)
    ensures
        error_model(res) == error_model(*error),
{
    match error {
        Some(e) => Some(e.clone()),
        None => None,
    }
}

impl Default for Error {
    fn default() -> (e: Error)
        ensures
            e@ == (ErrorModel {
                code: 0,
                command_index: 0,
                current_command: None,
                message: Seq::empty(),
            }),
    {
        Error { code: 0, command_index: 0, current_command: None, message: String::new() }
    }
}

impl Frame {
    /// Create an empty frame (0 key-value pairs).
    pub fn empty() -> (f: Frame)
        ensures
            f@ == FrameModel::empty(),
    {
        let f = Frame { values: Vec::new(), binary: None };
        assert(f@.fields =~= Seq::empty());
        f
    }

    /// The number of key-value pairs in this frame.
    pub fn fields_len(&self) -> (n: usize)
        ensures
            n == self@.fields.len(),
    {
        self.values.len()
    }

    /// Whether this frame carries a binary payload.
    pub fn has_binary(&self) -> (b: bool)
        ensures
            b == (self@.binary is Some),
    {
        self.binary.is_some()
    }

    /// Whether this frame holds neither key-value pairs nor a binary payload.
    pub fn is_empty(&self) -> (b: bool)
        ensures
            b == self@.is_empty(),
            b == (self@ == FrameModel::empty()),
    {
        let b = self.values.len() == 0 && self.binary.is_none();
        assert(self@.fields.len() == 0 ==> self@.fields =~= Seq::empty());
        b
    }

    /// Position of the first key-value pair with the given key.
    fn position(&self, key: &str) -> (at: usize)
        ensures
            at == self@.position(key@),
            at <= self.values@.len(),
    {
        let mut i: usize = 0;
        while i < self.values.len() && !same_text(&*self.values[i].0, key)
            invariant
                0 <= i <= self.values@.len(),
                forall|j: int| 0 <= j < i ==> (#[trigger] self@.fields[j]).0 != key@,
            decreases self.values@.len() - i,
        {
            i = i + 1;
        }
        proof {
            lemma_first_with_key_unique(self@.fields, key@, 0, i as int);
        }
        i
    }

    /// Find the first key-value pair with the given key, and return a
    /// reference to its value.
    pub fn find(&self, key: &str) -> (value: Option<&str>)
        ensures
            match value {
                Some(v) => self@.find(key@) == Some(v@),
                None => self@.find(key@) is None,
            },
    {
        let at: usize = self.position(key);
        if at < self.values.len() {
            Some(self.values[at].1.as_str())
        } else {
            None
        }
    }

    /// Find the first key-value pair with the given key, and return its value.
    ///
    /// This removes it from the list of values in this frame.
    pub fn get(&mut self, key: &str) -> (value: Option<String>)
        ensures
            match value {
                Some(v) => old(self)@.find(key@) == Some(v@),
                None => old(self)@.find(key@) is None,
            },
            final(self)@ == old(self)@.without(key@),
    {
        let at: usize = self.position(key);
        if at < self.values.len() {
            let removed = self.values.remove(at);
            assert(self@.fields =~= old(self)@.fields.remove(at as int));
            Some(removed.1)
        } else {
            None
        }
    }

    /// Collect the key-value pairs in this frame into groups, one for each
    /// key, in the order in which the keys first occur.
    ///
    /// Beware that this loses the order relationship between different keys.
    /// Values for a given key are ordered like they appear in the response.
    ///
    /// The groups come as a list that holds each key once, not as a hash
    /// map: of a hash map keyed by shared strings nothing could be proved,
    /// since hashing and comparing such keys is not known to agree with
    /// their text. A caller that wants a hash map collects the list into one.
    pub fn values_as_map(&self) -> (map: Vec<(Arc<str>, Vec<&str>)>)
        ensures
            groups_fields(groups_model(map@), self@.fields),
    {
        let ghost fields = self@.fields;
        let mut map: Vec<(Arc<str>, Vec<&str>)> = Vec::new();
        let mut n: usize = 0;
        while n < self.values.len()
            invariant
                0 <= n <= self.values@.len(),
                fields == self@.fields,
                groups_fields(groups_model(map@), fields.take(n as int)),
            decreases self.values@.len() - n,
        {
            let ghost before = groups_model(map@);
            let ghost seen = fields.take(n as int);
            let ghost next = fields.take(n + 1);
            let key: &str = &*self.values[n].0;
            let value: &str = self.values[n].1.as_str();
            proof {
                assert(next.drop_last() =~= seen);
                assert(next.last() == fields[n as int]);
                assert(fields[n as int] == (key@, value@));
            }
            let mut g: usize = 0;
            while g < map.len() && !same_text(&*map[g].0, key)
                invariant
                    0 <= g <= map@.len(),
                    before == groups_model(map@),
                    forall|x: int| 0 <= x < g ==> (#[trigger] before[x]).0 != key@,
                decreases map@.len() - g,
            {
                g = g + 1;
            }
            if g < map.len() {
                let (name, mut values) = map.remove(g);
                values.push(value);
                map.insert(g, (name, values));
                proof {
                    let after = groups_model(map@);
                    let grown = (key@, before[g as int].1.push(value@));
                    assert(after[g as int].1 =~= grown.1);
                    assert forall|i: int| 0 <= i < after.len() && i != g implies after[i]
                        == before[i] by {
                        assert(after[i].1 =~= before[i].1);
                    }
                    assert(after =~= before.update(g as int, grown));
                    assert forall|k: int| 0 <= k < next.len() implies exists|i: int|
                        0 <= i < after.len() && (#[trigger] after[i]).0 == (#[trigger] next[k]).0 by {
                        if k < n {
                            assert(next[k] == seen[k]);
                            let i = choose|i: int|
                                0 <= i < before.len() && (#[trigger] before[i]).0 == seen[k].0;
                            assert(after[i].0 == before[i].0);
                        } else {
                            assert(after[g as int].0 == key@);
                        }
                    }
                    assert forall|i: int| 0 <= i < after.len() implies (#[trigger] after[i]).1.len()
                        > 0 && after[i].1 == values_with_key(next, after[i].0) by {
                        assert(before[i].1 == values_with_key(seen, before[i].0));
                        if i != g {
                            assert(before[i].0 != before[g as int].0);
                        }
                    }
                    assert forall|i: int, j: int| 0 <= i < j < after.len() implies (
                    #[trigger] after[i]).0 != (#[trigger] after[j]).0 by {
                        assert(before[i].0 != before[j].0);
                    }
                    assert forall|i: int, j: int| 0 <= i < j < after.len() implies first_with_key(
                        next,
                        (#[trigger] after[i]).0,
                        0,
                    ) < first_with_key(next, (#[trigger] after[j]).0, 0) by {
                        lemma_group_key_occurs(before, seen, i);
                        lemma_group_key_occurs(before, seen, j);
                        lemma_first_with_key_grows(seen, fields[n as int], before[i].0);
                        lemma_first_with_key_grows(seen, fields[n as int], before[j].0);
                        assert(next =~= seen.push(fields[n as int]));
                        assert(after[i].0 == before[i].0 && after[j].0 == before[j].0);
                    }
                }
            } else {
                let mut values: Vec<&str> = Vec::new();
                values.push(value);
                map.push((shared_clone(&self.values[n].0), values));
                proof {
                    let after = groups_model(map@);
                    assert(after[g as int].1 =~= seq![value@]);
                    assert forall|i: int| 0 <= i < g implies after[i] == before[i] by {
                        assert(after[i].1 =~= before[i].1);
                    }
                    assert(after =~= before.push((key@, seq![value@])));
                    lemma_no_values_without_field(seen, key@);
                    assert forall|k: int| 0 <= k < next.len() implies exists|i: int|
                        0 <= i < after.len() && (#[trigger] after[i]).0 == (#[trigger] next[k]).0 by {
                        if k < n {
                            assert(next[k] == seen[k]);
                            let i = choose|i: int|
                                0 <= i < before.len() && (#[trigger] before[i]).0 == seen[k].0;
                            assert(after[i].0 == before[i].0);
                        } else {
                            assert(after[g as int].0 == key@);
                        }
                    }
                    assert forall|i: int| 0 <= i < after.len() implies (#[trigger] after[i]).1.len()
                        > 0 && after[i].1 == values_with_key(next, after[i].0) by {
                        if i < g {
                            assert(before[i].1 == values_with_key(seen, before[i].0));
                            assert(before[i].0 != key@);
                        }
                    }
                    assert forall|i: int, j: int| 0 <= i < j < after.len() implies (
                    #[trigger] after[i]).0 != (#[trigger] after[j]).0 by {
                        if j < g {
                            assert(before[i].0 != before[j].0);
                        } else {
                            assert(before[i].0 != key@);
                        }
                    }
                    assert(next =~= seen.push(fields[n as int]));
                    assert(first_with_key(next, key@, 0) == n) by {
                        lemma_first_with_key_bounds(seen, key@, 0);
                        lemma_first_with_key_grows(seen, fields[n as int], key@);
                    }
                    assert forall|i: int, j: int| 0 <= i < j < after.len() implies first_with_key(
                        next,
                        (#[trigger] after[i]).0,
                        0,
                    ) < first_with_key(next, (#[trigger] after[j]).0, 0) by {
                        lemma_group_key_occurs(before, seen, i);
                        lemma_first_with_key_grows(seen, fields[n as int], before[i].0);
                        assert(after[i].0 == before[i].0);
                        if j < g {
                            lemma_group_key_occurs(before, seen, j);
                            lemma_first_with_key_grows(seen, fields[n as int], before[j].0);
                            assert(after[j].0 == before[j].0);
                        } else {
                            assert(after[j].0 == key@);
                        }
                    }
                }
            }
            n = n + 1;
        }
        assert(fields.take(n as int) =~= fields);
        map
    }

    /// Take the binary payload out of this frame, leaving none behind.
    pub fn get_binary(&mut self) -> (payload: Option<BytesMut>)
        ensures
            match payload {
                Some(bytes) => old(self)@.binary == Some(buffered(bytes)),
                None => old(self)@.binary is None,
            },
            final(self)@ == (FrameModel { fields: old(self)@.fields, binary: None }),
    {
        let taken = self.binary.take();
        assert(self@.fields =~= old(self)@.fields);
        match taken {
            Some(bytes) => Some(buffer_from(bytes.as_slice())),
            None => None,
        }
    }
}

/// What groups of values stand for.
pub open spec fn groups_model(groups: Seq<(Arc<str>, Vec<&str>)>) -> Seq<
    (Seq<char>, Seq<Seq<char>>),
> {
    Seq::new(
        groups.len(),
        |i: int| ((*groups[i].0)@, Seq::new(groups[i].1@.len(), |j: int| groups[i].1@[j]@)),
    )
}

/// A key that none of the fields has, has no values; and a key that has no
/// values is the key of no field.
pub proof fn lemma_no_values_without_field(fields: Seq<(Seq<char>, Seq<char>)>, key: Seq<char>)
    ensures
        (forall|k: int| 0 <= k < fields.len() ==> (#[trigger] fields[k]).0 != key)
            <==> values_with_key(fields, key).len() == 0,
    decreases fields.len(),
{
    if fields.len() > 0 {
        lemma_no_values_without_field(fields.drop_last(), key);
        if forall|k: int| 0 <= k < fields.len() ==> (#[trigger] fields[k]).0 != key {
            assert forall|k: int| 0 <= k < fields.drop_last().len() implies (
            #[trigger] fields.drop_last()[k]).0 != key by {
                assert(fields.drop_last()[k] == fields[k]);
            }
            assert(fields.last() == fields[fields.len() - 1]);
        } else if fields.last().0 != key {
            let k = choose|k: int| 0 <= k < fields.len() && (#[trigger] fields[k]).0 == key;
            assert(fields.drop_last()[k] == fields[k]);
        }
    }
}

/// The key of a group occurs among the fields that the groups are made of.
proof fn lemma_group_key_occurs(
    groups: Seq<(Seq<char>, Seq<Seq<char>>)>,
    fields: Seq<(Seq<char>, Seq<char>)>,
    i: int,
)
    requires
        groups_fields(groups, fields),
        0 <= i < groups.len(),
    ensures
        first_with_key(fields, groups[i].0, 0) < fields.len(),
{
    lemma_no_values_without_field(fields, groups[i].0);
    lemma_first_with_key_bounds(fields, groups[i].0, 0);
    assert(groups[i].1.len() > 0);
}

/// The frames of a response are stored newest first, so that the oldest can
/// be handed out by popping; this is the order in which they arrived.
pub open spec fn oldest_first(stored: Seq<Frame>) -> Seq<FrameModel> {
    Seq::new(stored.len(), |i: int| stored[stored.len() - 1 - i]@)
}

/// What a sequence of frames stands for.
pub open spec fn frame_models(frames: Seq<Frame>) -> Seq<FrameModel> {
    frames.map_values(|f: Frame| f@)
}

/// What an item handed out by value stands for.
pub open spec fn item_model(item: Result<Frame, Error>) -> Result<FrameModel, ErrorModel> {
    match item {
        Ok(frame) => Ok(frame@),
        Err(error) => Err(error@),
    }
}

/// What an item handed out by reference stands for.
pub open spec fn item_ref_model(item: Result<&Frame, &Error>) -> Result<FrameModel, ErrorModel> {
    match item {
        Ok(frame) => Ok(frame@),
        Err(error) => Err(error@),
    }
}

/// What the error of a response stands for, where it has one.
pub open spec fn error_model(error: Option<Error>) -> Option<ErrorModel> {
    match error {
        Some(e) => Some(e@),
        None => None,
    }
}

/// Response to a command, consisting of an arbitrary amount of frames, which
/// are responses to individual commands, and optionally a single error.
///
/// Since an error terminates a command list, there can only be one error in a
/// response.
#[derive(Debug, PartialEq, Eq)]
pub struct Response {
    /// The successful responses, newest first.
    frames: Vec<Frame>,
    /// The error, if one occurred.
    error: Option<Error>,
}

impl View for Response {
    type V = ResponseModel;

    closed spec fn view(&self) -> ResponseModel {
        ResponseModel { frames: oldest_first(self.frames@), error: error_model(self.error) }
    }
}

/// Errors returned when attempting to construct an owned `Response` from a
/// list of parser results.
#[derive(Clone, Copy, Debug, PartialEq, Eq)]
pub enum OwnedResponseError {
    /// There were further frames after an error frame.
    FramesAfterError,
    /// An empty slice was provided (a response needs at least one frame or
    /// error).
    Empty,
}

impl OwnedResponseError {
    /// What the error says in words.
    pub open spec fn text(self) -> Seq<char> {
        match self {
            OwnedResponseError::FramesAfterError =>
                "Error frame was not the final element of response"@,
            OwnedResponseError::Empty => "Attempted to construct response with no values"@,
        }
    }

    /// Describes the error in words.
    pub fn message(&self) -> (res: String)
        ensures
            res@ == self.text(),
    {
        match self {
            OwnedResponseError::FramesAfterError =>
                "Error frame was not the final element of response".to_owned(),
            OwnedResponseError::Empty => "Attempted to construct response with no values".to_owned(),
        }
    }
}

/// The number of frames that come before the first error at or after
/// `from`, counted from the start: the position of that error, or the number
/// of parts when no error follows.
pub open spec fn leading_frames(parts: Seq<Result<FrameModel, ErrorModel>>, from: int) -> int
    decreases parts.len() - from,
{
    if 0 <= from < parts.len() && parts[from] is Ok {
        leading_frames(parts, from + 1)
    } else {
        from
    }
}

/// `leading_frames` is the one position that holds an error with only
/// frames before it.
pub proof fn lemma_leading_frames_unique(
    parts: Seq<Result<FrameModel, ErrorModel>>,
    from: int,
    at: int,
)
    requires
        0 <= from <= at <= parts.len(),
        forall|i: int| from <= i < at ==> (#[trigger] parts[i]) is Ok,
        at < parts.len() ==> parts[at] is Err,
    ensures
        leading_frames(parts, from) == at,
    decreases at - from,
{
    if from < at {
        lemma_leading_frames_unique(parts, from + 1, at);
    }
}

/// What the parts of a response, one for each command, make up: the
/// frames in order, and the error behind them. Frames behind an error make
/// no response; of several errors in a row with nothing behind them, the
/// first one counts.
pub open spec fn owned(parts: Seq<Result<FrameModel, ErrorModel>>) -> Result<
    ResponseModel,
    OwnedResponseError,
> {
    let split = leading_frames(parts, 0);
    if parts.len() == 0 {
        Err(OwnedResponseError::Empty)
    } else if exists|i: int| split <= i < parts.len() && (#[trigger] parts[i]) is Ok {
        Err(OwnedResponseError::FramesAfterError)
    } else {
        Ok(
            ResponseModel {
                frames: Seq::new(split as nat, |i: int| parts[i]->Ok_0),
                error: if split < parts.len() {
                    Some(parts[split]->Err_0)
                } else {
                    None
                },
            },
        )
    }
}

/// Only frames stand before the position `leading_frames`, and an error
/// stands at it.
pub proof fn lemma_leading_frames_bounds(parts: Seq<Result<FrameModel, ErrorModel>>, from: int)
    requires
        0 <= from <= parts.len(),
    ensures
        from <= leading_frames(parts, from) <= parts.len(),
        forall|i: int| from <= i < leading_frames(parts, from) ==> (#[trigger] parts[i]) is Ok,
        leading_frames(parts, from) < parts.len() ==> parts[leading_frames(parts, from)] is Err,
    decreases parts.len() - from,
{
    if from < parts.len() && parts[from] is Ok {
        lemma_leading_frames_bounds(parts, from + 1);
    }
}

/// What a response yields, item by item, makes up that response again: a
/// response never holds a frame behind its error, and is never without
/// parts.
pub proof fn lemma_owned_items(response: ResponseModel)
    requires
        response.inhabited(),
    ensures
        owned(response.items()) == Ok::<ResponseModel, OwnedResponseError>(response),
{
    let parts = response.items();
    let split = response.frames.len() as int;
    assert forall|i: int| 0 <= i < split implies (#[trigger] parts[i]) is Ok by {}
    lemma_leading_frames_unique(parts, 0, split);
    assert(owned(parts)->Ok_0.frames =~= response.frames);
}

/// What a slice of parser results stands for.
pub open spec fn parts_model(raw: Seq<parser::Response>) -> Seq<Result<FrameModel, ErrorModel>> {
    raw.map_values(|r: parser::Response| r@)
}

/// Iterator over frames in a response, as returned by [`Response::frames`].
#[derive(Copy, Clone, Debug)]
pub struct FramesRef<'a> {
    response: &'a Response,
    frames_cursor: usize,
    error_consumed: bool,
}

/// Iterator over frames in a response, as returned by
/// [`Response::into_frames`].
#[derive(Debug)]
pub struct Frames {
    frames: Vec<Frame>,
    error: Option<Error>,
}

impl Clone for Response {
    fn clone(&self) -> (r: Response)
        ensures
            r@ == self@,
    {
        proof {
            use_type_invariant(self);
        }
        let r = Response { frames: clone_frames(&self.frames), error: clone_error(&self.error) };
        assert(r@.frames =~= self@.frames);
        r
    }
}

impl Clone for Frames {
    fn clone(&self) -> (r: Frames)
        ensures
            r.remaining() == self.remaining(),
    {
        proof {
            use_type_invariant(self);
        }
        let r = Frames { frames: clone_frames(&self.frames), error: clone_error(&self.error) };
        assert(oldest_first(r.frames@) =~= oldest_first(self.frames@));
        r
    }
}

impl Response {
    #[verifier::type_invariant]
    spec fn well_formed(self) -> bool {
        &&& self.frames@.len() > 0 || self.error is Some
        &&& self.frames@.len() + (if self.error is Some { 1int } else { 0int }) <= usize::MAX
    }

    /// Construct a new response from its frames, oldest first, and the error
    /// that ended it.
    pub fn new(frames: Vec<Frame>, error: Option<Error>) -> (r: Response)
        requires
            frames@.len() > 0 || error is Some,
            frames@.len() + (if error is Some { 1int } else { 0int }) <= usize::MAX,
        ensures
            r@.frames == frame_models(frames@),
            r@.error == error_model(error),
            r@.inhabited(),
    {
        let mut frames = frames;
        let ghost given = frames@;
        let mut stored: Vec<Frame> = Vec::new();
        while frames.len() > 0
            invariant
                frames@.len() + stored@.len() == given.len(),
                frames@ == given.subrange(0, frames@.len() as int),
                forall|i: int|
                    0 <= i < stored@.len() ==> #[trigger] stored@[i] == given[given.len() - 1 - i],
            decreases frames@.len(),
        {
            let frame = frames.pop().unwrap();
            stored.push(frame);
        }
        let r = Response { frames: stored, error };
        assert(r@.frames =~= frame_models(given));
        r
    }

    /// Construct an owned response from the parser's results for the
    /// commands of one batch. Field names are interned: equal names share one
    /// allocation.
    pub fn try_from(raw_frames: &[parser::Response<'_>]) -> (res: Result<
        Response,
        OwnedResponseError,
    >)
        ensures
            match owned(parts_model(raw_frames@)) {
                Ok(response) => res matches Ok(r) && r@ == response && r@.inhabited(),
                Err(e) => res == Err::<Response, OwnedResponseError>(e),
            },
    {
        let ghost parts = parts_model(raw_frames@);
        if raw_frames.len() == 0 {
            return Err(OwnedResponseError::Empty);
        }
        let mut frames: Vec<Frame> = Vec::new();
        let mut error: Option<Error> = None;
        let mut keys = empty_store();
        let mut i: usize = raw_frames.len();
        let ghost mut split: int = i as int;
        while i > 0
            invariant
                parts == parts_model(raw_frames@),
                0 <= i <= split <= raw_frames@.len(),
                forall|j: int| i <= j < split ==> (#[trigger] parts[j]) is Ok,
                forall|j: int| split <= j < parts.len() ==> (#[trigger] parts[j]) is Err,
                frames@.len() == split - i,
                forall|x: int|
                    0 <= x < frames@.len() ==> (#[trigger] frames@[x])@ == parts[split - 1 - x]->Ok_0,
                split < parts.len() ==> error_model(error) == Some(parts[split as int]->Err_0),
                split == parts.len() ==> error is None,
            decreases i,
        {
            i = i - 1;
            match &raw_frames[i] {
                parser::Response::Success { fields, binary } => {
                    let mut values: Vec<(Arc<str>, String)> = Vec::new();
                    let mut n: usize = 0;
                    while n < fields.len()
                        invariant
                            0 <= n <= fields@.len(),
                            values@.len() == n,
                            forall|x: int|
                                0 <= x < n ==> field_model(#[trigger] values@[x]) == (
                                    fields@[x].0@,
                                    fields@[x].1@,
                                ),
                        decreases fields@.len() - n,
                    {
                        let field = fields[n];
                        values.push((simple_intern(&mut keys, field.0), field.1.to_owned()));
                        n = n + 1;
                    }
                    let binary = match binary {
                        Some(bytes) => Some(slice_to_vec(bytes)),
                        None => None,
                    };
                    let frame = Frame { values, binary };
                    assert(frame@.fields =~= parts[i as int]->Ok_0.fields);
                    frames.push(frame);
                },
                parser::Response::Error { code, command_index, current_command, message } => {
                    if frames.len() > 0 {
                        proof {
                            lemma_leading_frames_bounds(parts, 0);
                            assert(parts[i + 1] is Ok);
                        }
                        return Err(OwnedResponseError::FramesAfterError);
                    }
                    let current_command = match current_command {
                        Some(name) => Some((*name).to_owned()),
                        None => None,
                    };
                    error = Some(
                        Error {
                            code: *code,
                            command_index: *command_index,
                            current_command,
                            message: (*message).to_owned(),
                        },
                    );
                    proof {
                        split = i as int;
                    }
                },
            }
        }
        proof {
            lemma_leading_frames_unique(parts, 0, split);
        }
        let r = Response { frames, error };
        assert(r@.frames =~= owned(parts)->Ok_0.frames);
        Ok(r)
    }

    /// Construct a new "empty" response. This is the simplest possible
    /// successful response, consisting of a single empty frame.
    pub fn empty() -> (r: Response)
        ensures
            r@ == (ResponseModel { frames: seq![FrameModel::empty()], error: None }),
            r@.inhabited(),
    {
        let mut frames: Vec<Frame> = Vec::new();
        frames.push(Frame::empty());
        let r = Response { frames, error: None };
        assert(r@.frames =~= seq![FrameModel::empty()]);
        r
    }

    /// Returns `true` if the response resulted in an error.
    ///
    /// Even if this returns `true`, there may still be successful frames in
    /// the response when the response is to a command list.
    pub fn is_error(&self) -> (b: bool)
        ensures
            b == (self@.error is Some),
    {
        self.error.is_some()
    }

    /// Returns `true` if the response was entirely successful (i.e. no
    /// errors).
    pub fn is_success(&self) -> (b: bool)
        ensures
            b == (self@.error is None),
    {
        !self.is_error()
    }

    /// Get the number of successful frames in the response.
    ///
    /// May be 0 if the response only consists of an error.
    pub fn len(&self) -> (n: usize)
        ensures
            n == self@.frames.len(),
    {
        self.frames.len()
    }

    /// Create an iterator over references to the frames in the response.
    pub fn frames(&self) -> (iter: FramesRef<'_>)
        ensures
            iter.remaining() == self@.items(),
    {
        proof {
            use_type_invariant(self);
        }
        let iter = FramesRef { response: self, frames_cursor: 0, error_consumed: false };
        assert(iter.remaining() =~= self@.items());
        iter
    }

    /// Treat the response as consisting of a single frame or error.
    ///
    /// Frames or errors beyond the first, if they exist, are silently
    /// discarded.
    pub fn single_frame(self) -> (first: Result<Frame, Error>)
        ensures
            item_model(first) == self@.items()[0],
    {
        proof {
            use_type_invariant(&self);
            assert(self@.items().len() == self@.item_count());
        }
        let mut iter = self.into_frames();
        match iter.next() {
            Some(item) => item,
            None => Err(Error::default()),
        }
    }

    /// Creates an iterator over all frames and errors in the response.
    pub fn into_frames(self) -> (iter: Frames)
        ensures
            iter.remaining() == self@.items(),
    {
        proof {
            use_type_invariant(&self);
        }
        let iter = Frames { frames: self.frames, error: self.error };
        assert(iter.remaining() =~= self@.items());
        iter
    }

    /// Creates an iterator over all frames and errors in the response.
    pub fn into_iter(self) -> (iter: Frames)
        ensures
            iter.remaining() == self@.items(),
    {
        self.into_frames()
    }
}

impl<'a> FramesRef<'a> {
    #[verifier::type_invariant]
    spec fn well_formed(self) -> bool {
        &&& self.frames_cursor <= self.response.frames@.len()
        &&& self.response.frames@.len() + (if self.response.error is Some { 1int } else { 0int })
            <= usize::MAX
        &&& self.error_consumed ==> self.frames_cursor == self.response.frames@.len()
    }

    /// The items that are still to come, in order.
    pub closed spec fn remaining(self) -> Seq<Result<FrameModel, ErrorModel>> {
        let stored = self.response.frames@;
        let frames = Seq::new(
            (stored.len() - self.frames_cursor) as nat,
            |i: int| Ok::<FrameModel, ErrorModel>(stored[stored.len() - 1 - self.frames_cursor - i]@),
        );
        match self.response.error {
            Some(e) if !self.error_consumed => frames.push(Err(e@)),
            _ => frames,
        }
    }

    /// Advances the iterator: the oldest item still to come, or `None` once
    /// every frame and the error have been handed out.
    pub fn next(&mut self) -> (item: Option<Result<&'a Frame, &'a Error>>)
        ensures
            match item {
                Some(it) => old(self).remaining().len() > 0 && item_ref_model(it) == old(
                    self,
                ).remaining()[0] && final(self).remaining() == old(self).remaining().drop_first(),
                None => old(self).remaining().len() == 0 && final(self).remaining() == old(
                    self,
                ).remaining(),
            },
    {
        proof {
            use_type_invariant(&*self);
        }
        let response: &'a Response = self.response;
        if self.frames_cursor < response.frames.len() {
            let frame = &response.frames[response.frames.len() - 1 - self.frames_cursor];
            self.frames_cursor = self.frames_cursor + 1;
            assert(self.remaining() =~= old(self).remaining().drop_first());
            Some(Ok(frame))
        } else if !self.error_consumed {
            self.error_consumed = true;
            assert(self.remaining() =~= Seq::empty());
            match &response.error {
                Some(e) => {
                    assert(old(self).remaining() =~= seq![Err::<FrameModel, ErrorModel>(e@)]);
                    Some(Err(e))
                },
                None => {
                    assert(old(self).remaining() =~= Seq::empty());
                    None
                },
            }
        } else {
            assert(self.remaining() =~= Seq::empty());
            None
        }
    }

    /// The exact number of items that are still to come, as lower and upper
    /// bound.
    pub fn size_hint(&self) -> (hint: (usize, Option<usize>))
        ensures
            hint.0 == self.remaining().len(),
            hint.1 == Some(hint.0),
    {
        proof {
            use_type_invariant(self);
        }
        let mut len: usize = self.response.frames.len() - self.frames_cursor;
        if !self.error_consumed && self.response.error.is_some() {
            len = len + 1;
        }
        (len, Some(len))
    }
}

impl Frames {
    #[verifier::type_invariant]
    spec fn well_formed(self) -> bool {
        self.frames@.len() + (if self.error is Some { 1int } else { 0int }) <= usize::MAX
    }

    /// The items that are still to come, in order.
    pub closed spec fn remaining(self) -> Seq<Result<FrameModel, ErrorModel>> {
        (ResponseModel { frames: oldest_first(self.frames@), error: error_model(self.error) }).items()
    }

    /// Advances the iterator: the oldest item still to come, or `None` once
    /// every frame and the error have been handed out.
    pub fn next(&mut self) -> (item: Option<Result<Frame, Error>>)
        ensures
            match item {
                Some(it) => old(self).remaining().len() > 0 && item_model(it) == old(
                    self,
                ).remaining()[0] && final(self).remaining() == old(self).remaining().drop_first(),
                None => old(self).remaining().len() == 0 && final(self).remaining() == old(
                    self,
                ).remaining(),
            },
    {
        proof {
            use_type_invariant(&*self);
        }
        let mut taken = Frames { frames: Vec::new(), error: None };
        core::mem::swap(self, &mut taken);
        let Frames { mut frames, error } = taken;
        match frames.pop() {
            Some(frame) => {
                *self = Frames { frames, error };
                assert(self.remaining() =~= old(self).remaining().drop_first());
                Some(Ok(frame))
            },
            None => {
                *self = Frames { frames, error: None };
                match error {
                    Some(e) => {
                        assert(self.remaining() =~= old(self).remaining().drop_first());
                        Some(Err(e))
                    },
                    None => {
                        assert(self.remaining() =~= old(self).remaining());
                        None
                    },
                }
            },
        }
    }

    /// The exact number of items that are still to come, as lower and upper
    /// bound.
    pub fn size_hint(&self) -> (hint: (usize, Option<usize>))
        ensures
            hint.0 == self.remaining().len(),
            hint.1 == Some(hint.0),
    {
        proof {
            use_type_invariant(self);
        }
        let extra: usize = if self.error.is_some() {
            1
        } else {
            0
        };
        let len: usize = self.frames.len() + extra;
        (len, Some(len))
    }
}

} // verus!
