//! Messages as folds over their fields: how a message is written, how it is
//! read, and that reading gives back what was written.
use crate::bytes::to_vec;
use crate::schema;
pub use crate::schema::DecodeError;
use crate::schema::Shape;
use crate::wire;
use crate::wire::{get_fields, put_item, Field, FieldModel};
use vstd::prelude::*;

verus! {

/// A message of the schema.
pub trait Message: View + Sized {
    /// Which message it is.
    spec fn shape() -> Shape;

    /// Which message it is.
    fn shape_of() -> (r: Shape)
        ensures
            r == Self::shape(),
    ;

    /// The message whose fields all have their default values.
    spec fn empty() -> Self::V;

    /// The fields that the message is written as.
    spec fn fields(m: Self::V) -> Seq<FieldModel>;

    /// What reading one more field makes of the message, where the field's
    /// payload has the type that its tag asks for. Unknown tags are skipped. The message
    /// may have `depth` more levels.
    spec fn step(acc: Self::V, f: FieldModel, depth: u32) -> Option<Self::V>;

    /// A field whose payload is what the message asks for is read.
    proof fn lemma_step(acc: Self::V, f: FieldModel, depth: u32)
        requires
            schema::conforms(Self::shape(), f, depth),
        ensures
            Self::step(acc, f, depth) is Some,
    ;

    /// The default message.
    fn empty_message() -> (r: Self)
        ensures
            r@ == Self::empty(),
    ;

    /// Reads one more field.
    fn take_field(self, f: &Field, depth: u32) -> (r: Option<Self>)
        ensures
            match Self::step(self@, f@, depth) {
                Some(m) => r matches Some(x) && x@ == m,
                None => r is None,
            },
    ;

    /// A message with the same fields.
    fn duplicate(&self) -> (r: Self)
        ensures
            r@ == self@,
    ;

    /// Appends the message's fields.
    fn put_fields(&self, out: &mut Vec<u8>)
        ensures
            final(out)@ == old(out)@ + wire::fields_bytes(Self::fields(self@)),
    ;
}

/// [`Message::step`] as a function value.
pub open spec fn step_of<T: Message>(depth: u32) -> spec_fn(T::V, FieldModel) -> Option<T::V> {
    |acc: T::V, f: FieldModel| T::step(acc, f, depth)
}

/// The encoding of a message.
pub open spec fn encoded<T: Message>(m: T::V) -> Seq<u8> {
    wire::fields_bytes(T::fields(m))
}

/// What reading `bytes` makes of the message `init`, which may have `depth` more levels.
pub open spec fn merged<T: Message>(init: T::V, bytes: Seq<u8>, depth: u32) -> Option<T::V> {
    match wire::fields_of(bytes, depth) {
        Some(fields) => wire::fold_fields(init, fields, step_of::<T>(depth)),
        None => None,
    }
}

/// What reading `bytes` makes of a message `init` that stands in a message which may have
/// `depth` more levels.
pub open spec fn embedded<T: Message>(init: T::V, bytes: Seq<u8>, depth: u32) -> Option<T::V> {
    if depth == 0 {
        None
    } else {
        merged::<T>(init, bytes, (depth - 1) as u32)
    }
}

/// The message with at most `depth` more levels that `bytes` encode.
pub open spec fn decoded_at<T: Message>(bytes: Seq<u8>, depth: u32) -> Option<T::V> {
    merged::<T>(T::empty(), bytes, depth)
}

/// The message that `bytes` encode.
#[verifier::opaque]
pub open spec fn decoded<T: Message>(bytes: Seq<u8>) -> Option<T::V> {
    decoded_at::<T>(bytes, wire::NESTING_LIMIT)
}

/// Why `bytes` are no encoding of the message.
pub open spec fn decode_error<T: Message>(bytes: Seq<u8>) -> DecodeError {
    schema::error_in(T::shape(), bytes)
}

/// Fields whose payloads are what the message asks for are read.
proof fn lemma_fields_fold<T: Message>(init: T::V, fields: Seq<FieldModel>, depth: u32)
    requires
        forall|i: int|
            0 <= i < fields.len() ==> schema::conforms(T::shape(), #[trigger] fields[i], depth),
    ensures
        wire::fold_fields(init, fields, step_of::<T>(depth)) is Some,
    decreases fields.len(),
{
    if fields.len() > 0 {
        let before = fields.drop_last();
        assert forall|i: int| 0 <= i < before.len() implies schema::conforms(
            T::shape(),
            #[trigger] before[i],
            depth,
        ) by {
            assert(before[i] == fields[i]);
        }
        lemma_fields_fold::<T>(init, before, depth);
        assert(schema::conforms(T::shape(), fields[fields.len() - 1], depth));
        T::lemma_step(
            wire::fold_fields(init, before, step_of::<T>(depth))->0,
            fields.last(),
            depth,
        );
    }
}

/// Bytes in which no fault is found are read into a message.
pub proof fn lemma_sound_is_read<T: Message>(bytes: Seq<u8>, depth: u32)
    requires
        schema::checked(T::shape(), bytes, bytes.len(), depth) is Ok,
    ensures
        forall|init: T::V| #[trigger] merged::<T>(init, bytes, depth) is Some,
{
    schema::lemma_checked_fields(T::shape(), bytes, depth);
    assert forall|init: T::V| #[trigger] merged::<T>(init, bytes, depth) is Some by {
        lemma_fields_fold::<T>(init, wire::fields_of(bytes, depth)->0, depth);
    }
}

/// Bytes that encode no message have a fault, which is the error.
pub proof fn law_error_is_found<T: Message>(bytes: Seq<u8>)
    requires
        decoded::<T>(bytes) is None,
    ensures
        schema::checked(T::shape(), bytes, bytes.len(), wire::NESTING_LIMIT) == Err::<
            (),
            DecodeError,
        >(decode_error::<T>(bytes)),
{
    reveal(decoded);
    reveal(schema::error_in);
    if schema::checked(T::shape(), bytes, bytes.len(), wire::NESTING_LIMIT) is Ok {
        lemma_sound_is_read::<T>(bytes, wire::NESTING_LIMIT);
    }
}

/// Whether every field can be written.
pub open spec fn fields_ok(fields: Seq<FieldModel>) -> bool {
    forall|i: int| 0 <= i < fields.len() ==> wire::field_ok(#[trigger] fields[i])
}

/// A message that folds back from its own fields is read back as it was written.
pub proof fn lemma_round_trip<T: Message>(m: T::V, depth: u32)
    requires
        fields_ok(T::fields(m)),
        wire::fold_fields(T::empty(), T::fields(m), step_of::<T>(depth)) == Some(m),
    ensures
        decoded_at::<T>(encoded::<T>(m), depth) == Some(m),
{
    wire::lemma_fields_round_trip(T::fields(m), depth);
}

/// Whether the fields carry tags of the schema and payloads that can be written.
pub open spec fn shape_ok(fields: Seq<FieldModel>) -> bool {
    forall|i: int|
        0 <= i < fields.len() ==> {
            &&& 1 <= (#[trigger] fields[i]).tag < 0x2000_0000
            &&& !(fields[i].value is Other)
        }
}

/// Each field is no longer than the run it stands in.
pub proof fn lemma_field_within(fields: Seq<FieldModel>, i: int)
    requires
        0 <= i < fields.len(),
    ensures
        wire::field_bytes(fields[i]).len() <= wire::fields_bytes(fields).len(),
    decreases fields.len(),
{
    if i < fields.len() - 1 {
        lemma_field_within(fields.drop_last(), i);
    }
}

/// Fields whose encoding has a 64-bit length can be written and read back.
pub proof fn lemma_fields_ok(fields: Seq<FieldModel>)
    requires
        shape_ok(fields),
        wire::fields_bytes(fields).len() <= u64::MAX,
    ensures
        fields_ok(fields),
{
    assert forall|i: int| 0 <= i < fields.len() implies wire::field_ok(#[trigger] fields[i]) by {
        lemma_field_within(fields, i);
    }
}

/// The payload of each field is no longer than the run it stands in.
pub proof fn lemma_payload_within(fields: Seq<FieldModel>, i: int)
    requires
        0 <= i < fields.len(),
        fields[i].value is Bytes,
    ensures
        fields[i].value->Bytes_0.len() <= wire::fields_bytes(fields).len(),
{
    lemma_field_within(fields, i);
}

/// What has been written, with one more run of fields behind it.
pub proof fn lemma_append(base: Seq<u8>, done: Seq<FieldModel>, more: Seq<FieldModel>)
    ensures
        base + wire::fields_bytes(done) + wire::fields_bytes(more) == base + wire::fields_bytes(
            done + more,
        ),
{
    wire::lemma_fields_bytes_concat(done, more);
    assert(base + wire::fields_bytes(done) + wire::fields_bytes(more) =~= base
        + wire::fields_bytes(done + more));
}

/// A fold whose every step is known.
pub proof fn lemma_fold_steps<A>(
    fields: Seq<FieldModel>,
    step: spec_fn(A, FieldModel) -> Option<A>,
    acc: spec_fn(int) -> A,
)
    requires
        forall|i: int|
            0 <= i < fields.len() ==> step(acc(i), #[trigger] fields[i]) == Some(acc(i + 1)),
    ensures
        wire::fold_fields(acc(0), fields, step) == Some(acc(fields.len() as int)),
    decreases fields.len(),
{
    if fields.len() > 0 {
        assert forall|i: int| 0 <= i < fields.len() - 1 implies step(
            acc(i),
            #[trigger] fields.drop_last()[i],
        ) == Some(acc(i + 1)) by {
            assert(fields.drop_last()[i] == fields[i]);
        }
        lemma_fold_steps(fields.drop_last(), step, acc);
        assert(step(acc(fields.len() - 1), fields[fields.len() - 1]) == Some(
            acc(fields.len() as int),
        ));
    }
}

/// The fields of a repeated byte string.
pub open spec fn bytes_items(tag: u32, items: Seq<Seq<u8>>) -> Seq<FieldModel> {
    Seq::new(items.len(), |i: int| wire::item_field(tag, items[i]))
}

/// The fields of a repeated message.
pub open spec fn message_items<T: Message>(tag: u32, items: Seq<T::V>) -> Seq<FieldModel> {
    Seq::new(items.len(), |i: int| wire::item_field(tag, encoded::<T>(items[i])))
}

/// The field of an embedded message, where there is one.
pub open spec fn message_field<T: Message>(tag: u32, m: Option<T::V>) -> Seq<FieldModel> {
    match m {
        Some(m) => seq![wire::item_field(tag, encoded::<T>(m))],
        None => Seq::empty(),
    }
}

/// The models of a run of byte strings.
pub open spec fn byte_models(items: Seq<Vec<u8>>) -> Seq<Seq<u8>> {
    items.map_values(|b: Vec<u8>| b@)
}

/// The models of a run of messages.
pub open spec fn models<T: View>(items: Seq<T>) -> Seq<T::V> {
    items.map_values(|m: T| m@)
}

/// The model of a message that may be missing.
pub open spec fn model<T: View>(m: Option<T>) -> Option<T::V> {
    match m {
        Some(m) => Some(m@),
        None => None,
    }
}

/// Two runs of fields of the schema make one.
pub proof fn lemma_shape_concat(a: Seq<FieldModel>, b: Seq<FieldModel>)
    requires
        shape_ok(a),
        shape_ok(b),
    ensures
        shape_ok(a + b),
{
    assert forall|i: int| 0 <= i < (a + b).len() implies {
        &&& 1 <= (#[trigger] (a + b)[i]).tag < 0x2000_0000
        &&& !((a + b)[i].value is Other)
    } by {
        if i < a.len() {
            assert((a + b)[i] == a[i]);
        } else {
            assert((a + b)[i] == b[i - a.len()]);
        }
    }
}

/// Folding the field of a number.
pub proof fn lemma_fold_number<A>(
    acc: A,
    tag: u32,
    v: u64,
    step: spec_fn(A, FieldModel) -> Option<A>,
    next: A,
)
    requires
        v == 0 ==> next == acc,
        v != 0 ==> step(acc, FieldModel { tag, value: wire::ValueModel::Varint(v) }) == Some(next),
    ensures
        wire::fold_fields(acc, wire::number_field(tag, v), step) == Some(next),
{
    if v != 0 {
        wire::lemma_fold_one(acc, FieldModel { tag, value: wire::ValueModel::Varint(v) }, step);
    }
}

/// Folding the field of a byte string.
pub proof fn lemma_fold_bytes<A>(
    acc: A,
    tag: u32,
    b: Seq<u8>,
    step: spec_fn(A, FieldModel) -> Option<A>,
    next: A,
)
    requires
        b.len() == 0 ==> next == acc,
        b.len() != 0 ==> step(acc, wire::item_field(tag, b)) == Some(next),
    ensures
        wire::fold_fields(acc, wire::bytes_field(tag, b), step) == Some(next),
{
    if b.len() != 0 {
        wire::lemma_fold_one(acc, wire::item_field(tag, b), step);
    }
}

/// Folding the field of an embedded message.
pub proof fn lemma_fold_message<A, T: Message>(
    acc: A,
    tag: u32,
    m: Option<T::V>,
    step: spec_fn(A, FieldModel) -> Option<A>,
    next: A,
)
    requires
        m is None ==> next == acc,
        m matches Some(x) ==> step(acc, wire::item_field(tag, encoded::<T>(x))) == Some(next),
    ensures
        wire::fold_fields(acc, message_field::<T>(tag, m), step) == Some(next),
{
    if let Some(x) = m {
        wire::lemma_fold_one(acc, wire::item_field(tag, encoded::<T>(x)), step);
    }
}

/// The encoding of a message.
pub fn encode<T: Message>(message: &T) -> (r: Vec<u8>)
    ensures
        r@ == encoded::<T>(message@),
{
    let mut out: Vec<u8> = Vec::new();
    message.put_fields(&mut out);
    assert(out@ =~= encoded::<T>(message@));
    out
}

/// A copy of a run of byte strings.
pub fn duplicate_bytes(items: &Vec<Vec<u8>>) -> (r: Vec<Vec<u8>>)
    ensures
        byte_models(r@) == byte_models(items@),
{
    let mut r: Vec<Vec<u8>> = Vec::new();
    let mut i: usize = 0;
    while i < items.len()
        invariant
            i <= items@.len(),
            r@.len() == i,
            forall|k: int| 0 <= k < i ==> (#[trigger] r@[k])@ == items@[k]@,
        decreases items@.len() - i,
    {
        r.push(to_vec(items[i].as_slice()));
        i += 1;
    }
    assert(byte_models(r@) =~= byte_models(items@));
    r
}

/// A copy of a run of messages.
pub fn duplicate_items<T: Message>(items: &Vec<T>) -> (r: Vec<T>)
    ensures
        models(r@) == models(items@),
{
    let mut r: Vec<T> = Vec::new();
    let mut i: usize = 0;
    while i < items.len()
        invariant
            i <= items@.len(),
            r@.len() == i,
            forall|k: int| 0 <= k < i ==> (#[trigger] r@[k])@ == items@[k]@,
        decreases items@.len() - i,
    {
        r.push(items[i].duplicate());
        i += 1;
    }
    assert(models(r@) =~= models(items@));
    r
}

/// A copy of a message that may be missing.
pub fn duplicate_message<T: Message>(m: &Option<T>) -> (r: Option<T>)
    ensures
        model(r) == model(*m),
{
    match m {
        Some(m) => Some(m.duplicate()),
        None => None,
    }
}

/// Appends the items of a repeated byte string.
pub fn put_bytes_items(tag: u32, items: &Vec<Vec<u8>>, out: &mut Vec<u8>)
    requires
        1 <= tag < 0x2000_0000,
    ensures
        final(out)@ == old(out)@ + wire::fields_bytes(bytes_items(tag, byte_models(items@))),
{
    let ghost base = out@;
    let ghost all = bytes_items(tag, byte_models(items@));
    let mut i: usize = 0;
    assert(out@ =~= base + wire::fields_bytes(all.take(0)));
    while i < items.len()
        invariant
            i <= items@.len(),
            1 <= tag < 0x2000_0000,
            all == bytes_items(tag, byte_models(items@)),
            out@ == base + wire::fields_bytes(all.take(i as int)),
        decreases items@.len() - i,
    {
        put_item(tag, items[i].as_slice(), out);
        proof {
            let one = seq![wire::item_field(tag, items@[i as int]@)];
            lemma_append(base, all.take(i as int), one);
            assert(all.take(i as int) + one =~= all.take(i + 1));
        }
        i += 1;
    }
    assert(all.take(i as int) =~= all);
}

/// Appends the items of a repeated message.
pub fn put_message_items<T: Message>(tag: u32, items: &Vec<T>, out: &mut Vec<u8>)
    requires
        1 <= tag < 0x2000_0000,
    ensures
        final(out)@ == old(out)@ + wire::fields_bytes(message_items::<T>(tag, models(items@))),
{
    let ghost base = out@;
    let ghost all = message_items::<T>(tag, models(items@));
    let mut i: usize = 0;
    assert(out@ =~= base + wire::fields_bytes(all.take(0)));
    while i < items.len()
        invariant
            i <= items@.len(),
            1 <= tag < 0x2000_0000,
            all == message_items::<T>(tag, models(items@)),
            out@ == base + wire::fields_bytes(all.take(i as int)),
        decreases items@.len() - i,
    {
        let body: Vec<u8> = encode(&items[i]);
        put_item(tag, body.as_slice(), out);
        proof {
            let one = seq![wire::item_field(tag, body@)];
            lemma_append(base, all.take(i as int), one);
            assert(all.take(i as int) + one =~= all.take(i + 1));
        }
        i += 1;
    }
    assert(all.take(i as int) =~= all);
}

/// Appends an embedded message, where there is one.
pub fn put_message<T: Message>(tag: u32, m: &Option<T>, out: &mut Vec<u8>)
    requires
        1 <= tag < 0x2000_0000,
    ensures
        final(out)@ == old(out)@ + wire::fields_bytes(message_field::<T>(tag, model(*m))),
{
    match m {
        Some(m) => {
            let body: Vec<u8> = encode(m);
            put_item(tag, body.as_slice(), out);
        },
        None => {
            assert(out@ =~= old(out)@ + wire::fields_bytes(Seq::<FieldModel>::empty()));
        },
    }
}

/// Reads `bytes` into the message `init`, which may have `depth` more levels.
pub fn merge<T: Message>(init: T, bytes: &[u8], depth: u32) -> (r: Option<T>)
    ensures
        match merged::<T>(init@, bytes@, depth) {
            Some(m) => r matches Some(x) && x@ == m,
            None => r is None,
        },
{
    let fields = match get_fields(bytes, depth) {
        Some(fields) => fields,
        None => {
            return None;
        },
    };
    let ghost models = wire::field_models(fields@);
    let ghost step = step_of::<T>(depth);
    let ghost start = init@;
    let mut acc: T = init;
    let mut i: usize = 0;
    assert(models.take(0) =~= Seq::<FieldModel>::empty());
    while i < fields.len()
        invariant
            i <= fields@.len(),
            models == wire::field_models(fields@),
            step == step_of::<T>(depth),
            wire::fields_of(bytes@, depth) == Some(models),
            wire::fold_fields(start, models.take(i as int), step) == Some(acc@),
            start == init@,
        decreases fields@.len() - i,
    {
        proof {
            let upto = models.take(i + 1);
            assert(upto.drop_last() =~= models.take(i as int));
            assert(upto.last() == fields@[i as int]@);
            wire::lemma_fold_concat(start, upto, models.skip(i + 1), step);
            assert(upto + models.skip(i + 1) =~= models);
        }
        match acc.take_field(&fields[i], depth) {
            Some(next) => {
                acc = next;
            },
            None => {
                return None;
            },
        }
        i += 1;
    }
    assert(models.take(i as int) =~= models);
    Some(acc)
}

/// Reads `bytes` into a message `init` that stands in a message which may have `depth` more
/// levels.
pub fn merge_embedded<T: Message>(init: T, bytes: &[u8], depth: u32) -> (r: Option<T>)
    ensures
        match embedded::<T>(init@, bytes@, depth) {
            Some(m) => r matches Some(x) && x@ == m,
            None => r is None,
        },
{
    if depth == 0 {
        None
    } else {
        merge(init, bytes, depth - 1)
    }
}

/// Reads the message that `bytes` encode.
pub fn decode<T: Message>(bytes: &[u8]) -> (r: Result<T, DecodeError>)
    ensures
        match decoded::<T>(bytes@) {
            Some(m) => r matches Ok(x) && x@ == m,
            None => r == Err::<T, DecodeError>(decode_error::<T>(bytes@)),
        },
{
    reveal(decoded);
    match merge(T::empty_message(), bytes, wire::NESTING_LIMIT) {
        Some(m) => Ok(m),
        None => {
            proof {
                law_error_is_found::<T>(bytes@);
            }
            Err(schema::find_error(T::shape_of(), bytes))
        },
    }
}

} // verus!
