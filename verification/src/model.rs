//! The mathematical values that responses stand for in contracts.

use vstd::prelude::*;

verus! {

/// What a frame holds: its fields in arrival order and its binary payload.
pub struct FrameModel {
    pub fields: Seq<(Seq<char>, Seq<char>)>,
    pub binary: Option<Seq<u8>>,
}

/// What an error reported by the server holds.
pub struct ErrorModel {
    pub code: u64,
    pub command_index: u64,
    pub current_command: Option<Seq<char>>,
    pub message: Seq<char>,
}

/// What a response holds: its frames, oldest first, and the error that ended
/// it, if one did.
pub struct ResponseModel {
    pub frames: Seq<FrameModel>,
    pub error: Option<ErrorModel>,
}

/// The position of the first field at or after `from` whose key is `key`, or
/// the number of fields when there is none.
pub open spec fn first_with_key(
    fields: Seq<(Seq<char>, Seq<char>)>,
    key: Seq<char>,
    from: int,
) -> int
    decreases fields.len() - from,
{
    if 0 <= from < fields.len() && fields[from].0 != key {
        first_with_key(fields, key, from + 1)
    } else {
        from
    }
}

/// `first_with_key` is the one position that holds `key` with no field of
/// that key before it.
pub proof fn lemma_first_with_key_unique(
    fields: Seq<(Seq<char>, Seq<char>)>,
    key: Seq<char>,
    from: int,
    at: int,
)
    requires
        0 <= from <= at <= fields.len(),
        forall|i: int| from <= i < at ==> (#[trigger] fields[i]).0 != key,
        at < fields.len() ==> fields[at].0 == key,
    ensures
        first_with_key(fields, key, from) == at,
    decreases at - from,
{
    if from < at {
        lemma_first_with_key_unique(fields, key, from + 1, at);
    }
}

/// No field before the position `first_with_key` has the key, and the field
/// at it has.
pub proof fn lemma_first_with_key_bounds(
    fields: Seq<(Seq<char>, Seq<char>)>,
    key: Seq<char>,
    from: int,
)
    requires
        0 <= from <= fields.len(),
    ensures
        from <= first_with_key(fields, key, from) <= fields.len(),
        forall|i: int|
            from <= i < first_with_key(fields, key, from) ==> (#[trigger] fields[i]).0 != key,
        first_with_key(fields, key, from) < fields.len() ==> fields[first_with_key(
            fields,
            key,
            from,
        )].0 == key,
    decreases fields.len() - from,
{
    if from < fields.len() && fields[from].0 != key {
        lemma_first_with_key_bounds(fields, key, from + 1);
    }
}

impl FrameModel {
    /// The frame without fields and without payload.
    pub open spec fn empty() -> FrameModel {
        FrameModel { fields: Seq::empty(), binary: None }
    }

    /// Whether the frame holds neither a field nor a payload.
    pub open spec fn is_empty(self) -> bool {
        self.fields.len() == 0 && self.binary is None
    }

    /// Where the first field with `key` stands, or the number of fields.
    pub open spec fn position(self, key: Seq<char>) -> int {
        first_with_key(self.fields, key, 0)
    }

    /// The value of the first field with `key`.
    pub open spec fn find(self, key: Seq<char>) -> Option<Seq<char>> {
        if self.position(key) < self.fields.len() {
            Some(self.fields[self.position(key)].1)
        } else {
            None
        }
    }

    /// The frame without its first field with `key`.
    pub open spec fn without(self, key: Seq<char>) -> FrameModel {
        if self.position(key) < self.fields.len() {
            FrameModel { fields: self.fields.remove(self.position(key)), binary: self.binary }
        } else {
            self
        }
    }

    /// The values of all fields with `key`, in arrival order.
    pub open spec fn values_of(self, key: Seq<char>) -> Seq<Seq<char>> {
        values_with_key(self.fields, key)
    }
}

/// The values of those fields whose key is `key`, in the order of the
/// fields.
pub open spec fn values_with_key(fields: Seq<(Seq<char>, Seq<char>)>, key: Seq<char>) -> Seq<
    Seq<char>,
>
    decreases fields.len(),
{
    if fields.len() == 0 {
        Seq::empty()
    } else if fields.last().0 == key {
        values_with_key(fields.drop_last(), key).push(fields.last().1)
    } else {
        values_with_key(fields.drop_last(), key)
    }
}

/// Whether `groups` is the grouping of `fields` by key: every key of a
/// field has one group, which holds the values of all fields with that key
/// in their order, and there is no other group. The groups stand in the
/// order in which their keys first occur among the fields.
pub open spec fn groups_fields(
    groups: Seq<(Seq<char>, Seq<Seq<char>>)>,
    fields: Seq<(Seq<char>, Seq<char>)>,
) -> bool {
    &&& forall|i: int, j: int|
        0 <= i < j < groups.len() ==> (#[trigger] groups[i]).0 != (#[trigger] groups[j]).0
    &&& forall|i: int|
        0 <= i < groups.len() ==> (#[trigger] groups[i]).1.len() > 0 && groups[i].1
            == values_with_key(fields, groups[i].0)
    &&& forall|k: int|
        0 <= k < fields.len() ==> exists|i: int|
            0 <= i < groups.len() && (#[trigger] groups[i]).0 == (#[trigger] fields[k]).0
    &&& forall|i: int, j: int|
        0 <= i < j < groups.len() ==> first_with_key(fields, (#[trigger] groups[i]).0, 0)
            < first_with_key(fields, (#[trigger] groups[j]).0, 0)
}

/// Where a key first occurs among the fields, it first occurs among them
/// and one more field.
pub proof fn lemma_first_with_key_grows(
    fields: Seq<(Seq<char>, Seq<char>)>,
    field: (Seq<char>, Seq<char>),
    key: Seq<char>,
)
    ensures
        first_with_key(fields, key, 0) < fields.len() ==> first_with_key(
            fields.push(field),
            key,
            0,
        ) == first_with_key(fields, key, 0),
        first_with_key(fields, key, 0) >= fields.len() && field.0 == key ==> first_with_key(
            fields.push(field),
            key,
            0,
        ) == fields.len(),
{
    let at = first_with_key(fields, key, 0);
    let grown = fields.push(field);
    lemma_first_with_key_bounds(fields, key, 0);
    assert forall|i: int| 0 <= i < at implies (#[trigger] grown[i]).0 != key by {
        assert(grown[i] == fields[i]);
    }
    if at < fields.len() {
        assert(grown[at] == fields[at]);
        lemma_first_with_key_unique(grown, key, 0, at);
    } else if field.0 == key {
        lemma_first_with_key_unique(grown, key, 0, fields.len() as int);
    }
}

impl ResponseModel {
    /// What iterating over the response yields: every frame, oldest first,
    /// and then the error.
    pub open spec fn items(self) -> Seq<Result<FrameModel, ErrorModel>> {
        let frames = self.frames.map_values(|f: FrameModel| Ok::<FrameModel, ErrorModel>(f));
        match self.error {
            Some(e) => frames.push(Err(e)),
            None => frames,
        }
    }

    /// How many items the response yields: its frames, then its error.
    pub open spec fn item_count(self) -> nat {
        self.frames.len() + if self.error is Some { 1nat } else { 0nat }
    }

    /// A response holds at least one frame or an error.
    pub open spec fn inhabited(self) -> bool {
        self.frames.len() > 0 || self.error is Some
    }
}

/// Iteration yields every frame first, in the order of arrival, and the
/// error last: no frame follows an error.
pub proof fn lemma_error_comes_last(response: ResponseModel)
    ensures
        response.items().len() == response.item_count(),
        forall|i: int|
            0 <= i < response.frames.len() ==> #[trigger] response.items()[i] == Ok::<
                FrameModel,
                ErrorModel,
            >(response.frames[i]),
        forall|i: int|
            0 <= i < response.items().len() && (#[trigger] response.items()[i]) is Err ==> i
                == response.items().len() - 1 && response.error == Some(
                response.items()[i]->Err_0,
            ),
{
}

} // verus!
